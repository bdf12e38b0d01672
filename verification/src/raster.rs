//! Running a plan on an image of the `image` crate.

use vstd::prelude::*;
use image::imageops::FilterType;
use image::DynamicImage;
use image::GenericImageView;
use crate::plan::{
    degenerate, final_length, lemma_passes_shrink, plan, shrinking, size_before, Filter, Pass,
    ScaleError,
};
use crate::ratio::Ratio;

verus! {

/// `image::DynamicImage`: an image in memory. Nothing inside it is looked at
/// here; what is known of one is its `extent`.
#[verifier::external_type_specification]
#[verifier::external_body]
pub struct ExDynamicImage(image::DynamicImage);

/// The width and the height of an image in pixels: what
/// `GenericImageView::dimensions` returns for it.
pub uninterp spec fn extent(image: DynamicImage) -> (u32, u32);

/// The largest width and the largest height that are resized: the largest of
/// a JPEG file. The sampler places its samples in single-precision arithmetic,
/// which is exact on lengths of this size. On an image some twenty million
/// pixels wide it is not: the sampler then finds no pixel under its last
/// samples and panics.
pub const MAX_LENGTH: u32 = 0xFFFF;

/// A width or a height beyond `MAX_LENGTH`.
pub open spec fn too_large(size: (u32, u32)) -> bool {
    size.0 > MAX_LENGTH || size.1 > MAX_LENGTH
}

/// Calls `GenericImageView::dimensions`, which hands out the width and the
/// height that the image's buffer was made with.
#[verifier::external_body]
fn dimensions(image: &DynamicImage) -> (size: (u32, u32))
    ensures
        size == extent(*image),
{
    image.dimensions()
}

/// Calls `DynamicImage::resize_exact`, which samples the image into a new
/// buffer of exactly the width and height asked for, whatever the proportions.
/// It is called here only on an image that has pixels, that is no larger than
/// `MAX_LENGTH` either way, and never to enlarge: then no buffer that it makes
/// is larger than the one that exists, and every sample has pixels under it.
#[verifier::external_body]
fn resize_exact(image: &DynamicImage, width: u32, height: u32, filter: Filter) -> (resized:
    DynamicImage)
    requires
        0 < extent(*image).0 <= MAX_LENGTH,
        0 < extent(*image).1 <= MAX_LENGTH,
        width <= extent(*image).0,
        height <= extent(*image).1,
    ensures
        extent(resized) == (width, height),
{
    let kernel = match filter {
        Filter::Triangle => FilterType::Triangle,
        Filter::CatmullRom => FilterType::CatmullRom,
    };
    image.resize_exact(width, height, kernel)
}

/// Runs the passes of `list` on `image`, one after the other.
fn apply(image: DynamicImage, list: &Vec<Pass>) -> (out: DynamicImage)
    requires
        extent(image).0 <= MAX_LENGTH,
        extent(image).1 <= MAX_LENGTH,
        shrinking(list@, extent(image).0, extent(image).1),
    ensures
        extent(out) == size_before(list@, extent(image).0, extent(image).1, list@.len() as int),
{
    let ghost width = extent(image).0;
    let ghost height = extent(image).1;
    let mut current = image;
    let mut done: usize = 0;
    while done < list.len()
        invariant
            done <= list@.len(),
            shrinking(list@, width, height),
            extent(current) == size_before(list@, width, height, done as int),
            extent(current).0 <= MAX_LENGTH,
            extent(current).1 <= MAX_LENGTH,
        decreases list@.len() - done,
    {
        let pass = list[done];
        assert(size_before(list@, width, height, done as int) == extent(current));
        current = resize_exact(&current, pass.width, pass.height, pass.filter);
        done = done + 1;
    }
    current
}

/// Scales `image` by `ratio` in stages: it is halved with the triangle filter
/// as long as the ratio that is left is below one half, then brought to its
/// final size with the Catmull-Rom filter, unless the ratio that is left is
/// one. An image larger than `MAX_LENGTH` either way is refused, and so is one
/// that halving would leave without pixels.
pub fn resize_staged(image: DynamicImage, ratio: Ratio) -> (out: Result<DynamicImage, ScaleError>)
    ensures
        match out {
            Ok(scaled) => {
                &&& !too_large(extent(image))
                &&& !degenerate(extent(image).0 as nat, extent(image).1 as nat, ratio@)
                &&& extent(scaled) == (
                    final_length(extent(image).0 as nat, ratio@) as u32,
                    final_length(extent(image).1 as nat, ratio@) as u32,
                )
            },
            Err(ScaleError::TooLarge) => too_large(extent(image)),
            Err(ScaleError::Degenerate) => {
                &&& !too_large(extent(image))
                &&& degenerate(extent(image).0 as nat, extent(image).1 as nat, ratio@)
            },
        },
{
    let (width, height) = dimensions(&image);
    if width > MAX_LENGTH || height > MAX_LENGTH {
        return Err(ScaleError::TooLarge);
    }
    match plan(width, height, ratio) {
        Ok(list) => {
            proof {
                use_type_invariant(&ratio);
                lemma_passes_shrink(width, height, ratio);
            }
            Ok(apply(image, &list))
        },
        Err(_) => Err(ScaleError::Degenerate),
    }
}

} // verus!
