//! Staged downscaling of photographs.
//!
//! A photograph is scaled by a ratio of at most one in stages: it is halved
//! with a fast filter while the ratio that is left is below one half, and then
//! brought to its final size with a fine filter. The ratio is a
//! single-precision binary floating-point number; this library holds it by its
//! bit pattern and computes with it in integers, exactly as the floating-point
//! unit would.
//!
//! - `rounding`: rounding to 24 significant bits.
//! - `ratio`: the ratio, its doubling and its product with a length.
//! - `plan`: the passes that scale an image of a given size.
//! - `accuracy`: how close the final size is to the exact product.
//! - `raster`: the plan run on an image of the `image` crate.
//! - `names`: which files of a directory are photographs.
//! - `failure`: what can go wrong, and how far it reaches.

pub mod accuracy;
pub mod failure;
pub mod names;
pub mod plan;
pub mod raster;
pub mod ratio;
pub mod rounding;
