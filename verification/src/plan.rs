//! The plan of a staged downscale: halving passes with a fast filter while the
//! ratio is below one half, then one pass with a fine filter for what is left.

use vstd::prelude::*;
use vstd::arithmetic::div_mod::*;
use vstd::arithmetic::power2::*;
use crate::ratio::{
    binary32_value, half, lemma_pow2_ordered, lemma_scaled_length_shrinks, scaled_length, unit,
    Ratio,
};
use crate::rounding::{
    lemma_grid_of_window, lemma_nearest_multiple_encloses, lemma_round24_double, lemma_split,
    round24,
};

verus! {

/// The blur radius of the unsharp mask that follows the resize passes, as the
/// bit pattern of a single-precision number: 1.5.
pub const SHARPEN_SIGMA_BITS: u32 = 0x3FC0_0000;

/// The least difference in intensity that the unsharp mask sharpens.
pub const SHARPEN_THRESHOLD: i32 = 5;

/// A sampling filter.
#[derive(Clone, Copy, Debug, PartialEq, Eq)]
pub enum Filter {
    /// Linear interpolation: fast, used for the halving passes.
    Triangle,
    /// The Catmull-Rom cubic: slower and sharper, used for the last pass.
    CatmullRom,
}

/// One resize: the size to reach and the filter to reach it with.
#[derive(Clone, Copy, Debug, PartialEq, Eq)]
pub struct Pass {
    /// The width to reach, in pixels.
    pub width: u32,
    /// The height to reach, in pixels.
    pub height: u32,
    /// The filter to sample with.
    pub filter: Filter,
}

/// Why an image cannot be scaled.
#[derive(Clone, Copy, Debug, PartialEq, Eq)]
pub enum ScaleError {
    /// Halving leaves the image without width or without height.
    Degenerate,
    /// The image is wider or higher than a JPEG file can be.
    TooLarge,
}

/// How often a ratio has to be doubled to reach one half. `ratio` counts
/// multiples of 2^-149.
pub open spec fn halvings(ratio: nat) -> nat
    decreases (if ratio < half() {
        half() - ratio
    } else {
        0
    }),
{
    if 0 < ratio < half() {
        1 + halvings(2 * ratio)
    } else {
        0
    }
}

/// The ratio that is left for the last pass when the halving is done.
pub open spec fn residual(ratio: nat) -> nat {
    ratio * pow2(halvings(ratio))
}

/// A length after `count` halvings, each rounded down.
pub open spec fn halved(length: nat, count: nat) -> nat {
    length / pow2(count)
}

/// Halving leaves no width or no height.
pub open spec fn degenerate(width: nat, height: nat, ratio: nat) -> bool {
    halved(width, halvings(ratio)) == 0 || halved(height, halvings(ratio)) == 0
}

/// A length after the whole plan: halved, then scaled by what is left of the
/// ratio unless that is one.
pub open spec fn final_length(length: nat, ratio: nat) -> nat {
    let reduced = halved(length, halvings(ratio));
    if residual(ratio) == unit() {
        reduced
    } else {
        scaled_length(reduced, residual(ratio))
    }
}

/// The halving pass of the given index, counted from zero.
pub open spec fn halving_pass(width: u32, height: u32, index: nat) -> Pass {
    Pass {
        width: halved(width as nat, index + 1) as u32,
        height: halved(height as nat, index + 1) as u32,
        filter: Filter::Triangle,
    }
}

/// The pass that follows the halving.
pub open spec fn fractional_pass(width: u32, height: u32, ratio: nat) -> Pass {
    Pass {
        width: final_length(width as nat, ratio) as u32,
        height: final_length(height as nat, ratio) as u32,
        filter: Filter::CatmullRom,
    }
}

/// The passes of the plan, in order.
pub open spec fn passes(width: u32, height: u32, ratio: nat) -> Seq<Pass> {
    let halving = Seq::new(halvings(ratio), |i: int| halving_pass(width, height, i as nat));
    if residual(ratio) == unit() {
        halving
    } else {
        halving.push(fractional_pass(width, height, ratio))
    }
}

/// The size that the pass of the given index starts from: the size of the
/// image for the first pass, the size that the pass before reached for the
/// others. With the length of the list for index, the size after the last pass.
pub open spec fn size_before(list: Seq<Pass>, width: u32, height: u32, index: int) -> (u32, u32) {
    if index <= 0 {
        (width, height)
    } else {
        (list[index - 1].width, list[index - 1].height)
    }
}

/// Every pass starts from an image that has width and height, and makes
/// neither of them larger.
pub open spec fn shrinking(list: Seq<Pass>, width: u32, height: u32) -> bool {
    forall|i: int|
        0 <= i < list.len() ==> {
            let from = #[trigger] size_before(list, width, height, i);
            &&& 0 < from.0
            &&& 0 < from.1
            &&& list[i].width <= from.0
            &&& list[i].height <= from.1
        }
}

/// Halving once more is dividing by the next power of two.
pub proof fn lemma_halved_step(length: nat, count: nat)
    ensures
        halved(length, count + 1) == halved(length, count) / 2,
        halved(length, 0) == length,
{
    lemma2_to64();
    lemma_pow2_pos(count);
    lemma_pow2_unfold(count + 1);
    lemma_div_denominator(length as int, pow2(count) as int, 2);
    assert(pow2(count) * 2 == 2 * pow2(count));
}

/// More halvings leave no more.
pub proof fn lemma_halved_ordered(length: nat, fewer: nat, more: nat)
    requires
        fewer <= more,
    ensures
        halved(length, more) <= halved(length, fewer),
    decreases more - fewer,
{
    if fewer < more {
        lemma_halved_ordered(length, fewer, (more - 1) as nat);
        lemma_halved_step(length, (more - 1) as nat);
    }
}

/// Doubling a ratio below one half takes one halving off, and leaves what
/// remains for the last pass as it was.
pub proof fn lemma_halvings_step(ratio: nat)
    requires
        0 < ratio < half(),
    ensures
        halvings(ratio) == 1 + halvings(2 * ratio),
        residual(ratio) == residual(2 * ratio),
{
    let rest = halvings(2 * ratio);
    lemma_pow2_unfold(rest + 1);
    assert(ratio * (2 * pow2(rest)) == (2 * ratio) * pow2(rest)) by (nonlinear_arith);
}

/// What is left for the last pass lies between one half and one; below one,
/// it stays 2^-24 away from one.
pub proof fn lemma_residual_range(ratio: nat)
    requires
        0 < ratio <= unit(),
        round24(ratio) == ratio,
    ensures
        half() <= residual(ratio) <= unit(),
        round24(residual(ratio)) == residual(ratio),
        residual(ratio) < unit() ==> residual(ratio) + pow2(125) <= unit(),
        halvings(ratio) > 0 ==> residual(ratio) < unit(),
    decreases halvings(ratio),
{
    lemma2_to64();
    lemma_pow2_unfold(149);
    if ratio < half() {
        lemma_halvings_step(ratio);
        lemma_round24_double(ratio);
        lemma_residual_range(2 * ratio);
        let rest = halvings(2 * ratio);
        if rest == 0 {
            assert((2 * ratio) * pow2(0) == 2 * ratio) by (nonlinear_arith)
                requires
                    pow2(0) == 1,
            ;
        }
    } else {
        assert(ratio * pow2(0) == ratio) by (nonlinear_arith)
            requires
                pow2(0) == 1,
        ;
        let left = residual(ratio);
        if left < unit() {
            lemma_pow2_adds(23, 125);
            lemma_pow2_adds(24, 125);
            lemma_pow2_pos(125);
            lemma_grid_of_window(left, 125);
            lemma_nearest_multiple_encloses(left, pow2(125));
            lemma_split(left, pow2(125));
            let q = left / pow2(125);
            assert(q * pow2(125) + pow2(125) <= 0x100_0000 * pow2(125)) by (nonlinear_arith)
                requires
                    q * pow2(125) < 0x100_0000 * pow2(125),
                    pow2(125) > 0,
            ;
        }
    }
}

/// The passes of a plan start from images that have width and height, make
/// nothing larger, and end at the final lengths.
pub proof fn lemma_passes_shrink(width: u32, height: u32, ratio: Ratio)
    requires
        ratio.wf(),
        !degenerate(width as nat, height as nat, ratio@),
    ensures
        shrinking(passes(width, height, ratio@), width, height),
        size_before(
            passes(width, height, ratio@),
            width,
            height,
            passes(width, height, ratio@).len() as int,
        ) == (
            final_length(width as nat, ratio@) as u32,
            final_length(height as nat, ratio@) as u32,
        ),
        final_length(width as nat, ratio@) <= width,
        final_length(height as nat, ratio@) <= height,
{
    let list = passes(width, height, ratio@);
    let count = halvings(ratio@);
    let left = residual(ratio@);
    ratio.lemma_ratio_value();
    lemma_residual_range(ratio@);
    lemma_halved_step(width as nat, 0);
    lemma_halved_step(height as nat, 0);
    lemma_halved_ordered(width as nat, 0, count);
    lemma_halved_ordered(height as nat, 0, count);
    if left < unit() {
        lemma_scaled_length_shrinks(halved(width as nat, count), left);
        lemma_scaled_length_shrinks(halved(height as nat, count), left);
    }
    assert forall|i: int| 0 <= i < list.len() implies ({
        let from = #[trigger] size_before(list, width, height, i);
        &&& 0 < from.0
        &&& 0 < from.1
        &&& list[i].width <= from.0
        &&& list[i].height <= from.1
    }) by {
        let reached = if i < count {
            i
        } else {
            count as int
        };
        lemma_halved_ordered(width as nat, reached as nat, count);
        lemma_halved_ordered(height as nat, reached as nat, count);
        lemma_halved_ordered(width as nat, 0, reached as nat);
        lemma_halved_ordered(height as nat, 0, reached as nat);
        if i < count {
            lemma_halved_ordered(width as nat, i as nat, (i + 1) as nat);
            lemma_halved_ordered(height as nat, i as nat, (i + 1) as nat);
        }
    }
}

/// The number of halvings is the number of doublings that bring the ratio to
/// one half or more, and, if any is needed, not as far as one.
pub proof fn lemma_halvings_meaning(ratio: nat, count: nat)
    requires
        0 < ratio,
        half() <= ratio * pow2(count),
        count > 0 ==> ratio * pow2(count) < unit(),
    ensures
        halvings(ratio) == count,
    decreases count,
{
    lemma2_to64();
    lemma_pow2_unfold(149);
    if count == 0 {
        assert(ratio * pow2(0) == ratio) by (nonlinear_arith)
            requires
                pow2(0) == 1,
        ;
    } else {
        lemma_pow2_unfold(count);
        let rest = (count - 1) as nat;
        lemma_pow2_pos(rest);
        assert(ratio * pow2(count) == 2 * ratio * pow2(rest) && ratio * pow2(count) >= 2 * ratio)
            by (nonlinear_arith)
            requires
                pow2(count) == 2 * pow2(rest),
                pow2(rest) > 0,
        ;
        lemma_halvings_meaning(2 * ratio, rest);
    }
}

/// Where the ratio that is left is below one, the last pass makes a length
/// that is not zero smaller: it is left out only where it would change nothing.
pub proof fn lemma_last_pass_shrinks(length: u32, ratio: Ratio)
    requires
        ratio.wf(),
        residual(ratio@) < unit(),
        halved(length as nat, halvings(ratio@)) > 0,
    ensures
        final_length(length as nat, ratio@) < halved(length as nat, halvings(ratio@)),
{
    ratio.lemma_ratio_value();
    lemma_residual_range(ratio@);
    lemma_scaled_length_shrinks(halved(length as nat, halvings(ratio@)), residual(ratio@));
}

/// With the ratio one nothing is resized: the plan is empty and every length
/// stays as it is.
pub proof fn lemma_ratio_one(width: u32, height: u32, ratio: Ratio)
    requires
        ratio.wf(),
        ratio@ == unit(),
    ensures
        passes(width, height, ratio@) =~= Seq::<Pass>::empty(),
        final_length(width as nat, ratio@) == width,
        final_length(height as nat, ratio@) == height,
        degenerate(width as nat, height as nat, ratio@) <==> width == 0 || height == 0,
{
    lemma2_to64();
    lemma_pow2_ordered(148, 149);
    lemma_pow2_unfold(149);
    assert(ratio@ * pow2(0) == ratio@) by (nonlinear_arith)
        requires
            pow2(0) == 1,
    ;
    lemma_halved_step(width as nat, 0);
    lemma_halved_step(height as nat, 0);
}

/// The blur radius of the unsharp mask is one and a half.
pub proof fn lemma_sharpen_sigma()
    ensures
        2 * binary32_value(SHARPEN_SIGMA_BITS) == 3 * unit(),
{
    lemma2_to64();
    lemma_pow2_adds(23, 126);
    assert(SHARPEN_SIGMA_BITS / 0x80_0000 == 127 && SHARPEN_SIGMA_BITS % 0x80_0000 == 0x40_0000);
    assert(2 * (0xC0_0000 * pow2(126)) == 3 * (0x80_0000 * pow2(126))) by (nonlinear_arith);
}

/// Plans the passes that scale an image of the given size by `ratio`.
pub fn plan(width: u32, height: u32, ratio: Ratio) -> (planned: Result<Vec<Pass>, ScaleError>)
    ensures
        planned is Err <==> degenerate(width as nat, height as nat, ratio@),
        planned matches Ok(list) ==> list@ == passes(width, height, ratio@),
        planned matches Err(e) ==> e == ScaleError::Degenerate,
{
    let mut list: Vec<Pass> = Vec::new();
    let mut left = ratio;
    let mut w: u32 = width;
    let mut h: u32 = height;
    let ghost mut done: nat = 0;
    proof {
        use_type_invariant(&ratio);
        ratio.lemma_ratio_value();
        lemma_halved_step(width as nat, 0);
        lemma_halved_step(height as nat, 0);
        lemma2_to64();
        assert(ratio@ * pow2(0) == ratio@) by (nonlinear_arith)
            requires
                pow2(0) == 1,
        ;
    }
    while left.is_below_half()
        invariant
            left.wf(),
            left@ == ratio@ * pow2(done),
            halvings(ratio@) == done + halvings(left@),
            w == halved(width as nat, done),
            h == halved(height as nat, done),
            list@ == Seq::new(done, |i: int| halving_pass(width, height, i as nat)),
        decreases w,
    {
        proof {
            left.lemma_ratio_value();
            lemma_halved_step(width as nat, done);
            lemma_halved_step(height as nat, done);
        }
        if w / 2 == 0 || h / 2 == 0 {
            proof {
                lemma_halved_ordered(width as nat, done + 1, halvings(ratio@));
                lemma_halved_ordered(height as nat, done + 1, halvings(ratio@));
            }
            return Err(ScaleError::Degenerate);
        }
        w = w / 2;
        h = h / 2;
        list.push(Pass { width: w, height: h, filter: Filter::Triangle });
        proof {
            lemma_pow2_unfold(done + 1);
            assert(ratio@ * (2 * pow2(done)) == 2 * (ratio@ * pow2(done))) by (nonlinear_arith);
        }
        left = left.doubled();
        proof {
            assert(list@ =~= Seq::new(
                done + 1,
                |i: int| halving_pass(width, height, i as nat),
            ));
            done = done + 1;
        }
    }
    if w == 0 || h == 0 {
        return Err(ScaleError::Degenerate);
    }
    if !left.is_one() {
        let last = Pass { width: left.scale(w), height: left.scale(h), filter: Filter::CatmullRom };
        list.push(last);
    }
    Ok(list)
}

} // verus!
