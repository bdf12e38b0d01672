//! How far the final size of a plan can stray from the exact product of size
//! and ratio.

use vstd::prelude::*;
use vstd::arithmetic::power2::*;
use crate::plan::{
    final_length, halved, halvings, lemma_halved_step, lemma_ratio_one, lemma_residual_range,
    residual,
};
use crate::ratio::{lemma_pow2_ordered, unit, Ratio};
use crate::rounding::{
    excess_bits, grid, lemma_grid_bounds, lemma_grid_of_window, lemma_quotient,
    lemma_round24_between, lemma_round24_near, lemma_round24_scale, lemma_round24_small,
    lemma_split, round24,
};

verus! {

/// The floor of the length times the ratio, in exact arithmetic.
pub open spec fn exact_length(length: nat, ratio: nat) -> nat {
    (length * ratio) / unit()
}

/// Halving first loses less than one pixel of the exact product.
proof fn lemma_halving_loses_little(length: u32, ratio: Ratio)
    requires
        ratio.wf(),
        residual(ratio@) < unit(),
    ensures
        halved(length as nat, halvings(ratio@)) * residual(ratio@) <= length * ratio@,
        length * ratio@ < halved(length as nat, halvings(ratio@)) * residual(ratio@) + unit(),
        exact_length(length as nat, ratio@) * unit() <= length * ratio@,
        length * ratio@ < exact_length(length as nat, ratio@) * unit() + unit(),
{
    let count = halvings(ratio@);
    let left = residual(ratio@);
    let reduced = halved(length as nat, count);
    ratio.lemma_ratio_value();
    lemma_pow2_pos(149);
    lemma_pow2_pos(count);
    lemma_split((length * ratio@) as nat, unit());
    lemma_split(length as nat, pow2(count));
    let lost = length as nat % pow2(count);
    assert(length * ratio@ == reduced * left + lost * ratio@ && lost * ratio@ < left)
        by (nonlinear_arith)
        requires
            length == reduced * pow2(count) + lost,
            lost < pow2(count),
            left == ratio@ * pow2(count),
            ratio@ > 0,
    ;
}

/// The final length is within one pixel of the floor of the length times the
/// ratio, as long as the length that the last pass starts from has at most 24
/// bits, so that single-precision arithmetic holds it exactly.
pub proof fn lemma_final_length_accuracy(length: u32, ratio: Ratio)
    requires
        ratio.wf(),
        halved(length as nat, halvings(ratio@)) <= 0x100_0000,
    ensures
        exact_length(length as nat, ratio@) - 1 <= final_length(length as nat, ratio@)
            <= exact_length(length as nat, ratio@) + 1,
{
    let count = halvings(ratio@);
    let left = residual(ratio@);
    let reduced = halved(length as nat, count);
    let one = unit();
    let exact = exact_length(length as nat, ratio@);
    ratio.lemma_ratio_value();
    lemma_residual_range(ratio@);
    lemma_pow2_pos(149);
    lemma_pow2_pos(count);
    lemma2_to64();
    lemma_split((length * ratio@) as nat, one);
    if left == one {
        assert(count == 0);
        lemma_halved_step(length as nat, 0);
        assert(ratio@ == one) by (nonlinear_arith)
            requires
                left == ratio@ * pow2(0),
                pow2(0) == 1,
                left == one,
        ;
        assert(length * ratio@ == length * one + 0);
        lemma_quotient((length * ratio@) as nat, one, length as nat, 0);
    } else {
        // the last pass: its product lies between two multiples of one that
        // rounding leaves alone
        lemma_round24_small(reduced);
        let product = reduced * left;
        let floor = product / one;
        lemma_split(product, one);
        assert(floor < reduced || floor == 0) by (nonlinear_arith)
            requires
                floor * one <= reduced * left,
                left < one,
                one > 0,
        ;
        lemma_round24_small(floor);
        lemma_round24_small(floor + 1);
        lemma_round24_scale(floor, 149);
        lemma_round24_scale(floor + 1, 149);
        assert((floor + 1) * one == floor * one + one) by (nonlinear_arith);
        lemma_round24_between(floor * one, product, (floor + 1) * one);
        let rounded = round24(product);
        lemma_split(rounded, one);
        let got = rounded / one;
        assert(floor <= got <= floor + 1) by (nonlinear_arith)
            requires
                floor * one <= rounded,
                rounded <= floor * one + one,
                rounded == got * one + rounded % one,
                rounded % one < one,
                one > 0,
        ;
        assert(final_length(length as nat, ratio@) == got);
        // halving first loses less than one pixel of the exact product
        lemma_split(length as nat, pow2(count));
        let lost = length as nat % pow2(count);
        assert(length * ratio@ == product + lost * ratio@ && lost * ratio@ < left)
            by (nonlinear_arith)
            requires
                length == reduced * pow2(count) + lost,
                lost < pow2(count),
                product == reduced * left,
                left == ratio@ * pow2(count),
                ratio@ > 0,
        ;
        assert(floor <= exact <= floor + 1) by (nonlinear_arith)
            requires
                product == floor * one + product % one,
                product % one < one,
                length * ratio@ == exact * one + (length * ratio@) as nat % one,
                (length * ratio@) as nat % one < one,
                product <= length * ratio@,
                length * ratio@ < product + one,
                one > 0,
        ;
    }
}

/// The final length is within two pixels of the floor of the length times the
/// ratio, as long as the length that the last pass starts from is at most 2^25:
/// single-precision arithmetic is off by at most one on such a length, and by
/// at most one on its product with the ratio.
pub proof fn lemma_final_length_within_two(length: u32, ratio: Ratio)
    requires
        ratio.wf(),
        halved(length as nat, halvings(ratio@)) <= 0x200_0000,
    ensures
        exact_length(length as nat, ratio@) - 2 <= final_length(length as nat, ratio@)
            <= exact_length(length as nat, ratio@) + 2,
{
    let count = halvings(ratio@);
    let left = residual(ratio@);
    let reduced = halved(length as nat, count);
    let one = unit();
    let exact = exact_length(length as nat, ratio@);
    if reduced <= 0x100_0000 || left == one {
        if left == one {
            ratio.lemma_ratio_value();
            lemma_residual_range(ratio@);
            lemma2_to64();
            assert(ratio@ == one) by (nonlinear_arith)
                requires
                    left == ratio@ * pow2(0),
                    left == one,
                    pow2(0) == 1,
            ;
            lemma_ratio_one(length, length, ratio);
            lemma_pow2_pos(149);
            assert(length * ratio@ == length * one + 0);
            lemma_quotient((length * ratio@) as nat, one, length as nat, 0);
        } else {
            lemma_final_length_accuracy(length, ratio);
        }
    } else {
        ratio.lemma_ratio_value();
        lemma_residual_range(ratio@);
        lemma_halving_loses_little(length, ratio);
        lemma2_to64();
        lemma_pow2_pos(149);
        lemma_pow2_unfold(149);
        lemma_pow2_unfold(150);
        // the length is converted to within one pixel
        let w = round24(reduced);
        lemma_round24_near(reduced);
        if reduced < 0x200_0000 {
            lemma_grid_of_window(reduced, 1);
        } else {
            lemma_round24_small(2);
            lemma_round24_scale(2, 24);
        }
        assert(reduced - 1 <= w <= reduced + 1);
        // the product is rounded on a grid of one or two pixels
        let p = w * left;
        let g = grid(p);
        let e = excess_bits(p);
        lemma_pow2_adds(24, 148);
        lemma_pow2_adds(25, 149);
        lemma_pow2_adds(23, 151);
        assert(pow2(172) <= p < pow2(174) && reduced * left - left <= p <= reduced * left + left)
            by (nonlinear_arith)
            requires
                p == w * left,
                0x100_0000 <= w <= 0x200_0000,
                reduced - 1 <= w <= reduced + 1,
                pow2(148) <= left < pow2(149),
                pow2(172) == 0x100_0000 * pow2(148),
                pow2(174) == 0x200_0000 * pow2(149),
        ;
        lemma_grid_bounds(p);
        if e <= 148 {
            lemma_pow2_ordered(e, 148);
        }
        if e >= 151 {
            lemma_pow2_ordered(151, e);
        }
        assert(g == one || g == 2 * one);
        let r = round24(p);
        lemma_round24_near(p);
        lemma_split(r, g);
        let k: nat = if g == one {
            r / g
        } else {
            2 * (r / g)
        };
        assert(r == k * one) by (nonlinear_arith)
            requires
                r == (r / g) * g,
                g == one && k == r / g || g == 2 * one && k == 2 * (r / g),
        ;
        lemma_quotient(r, one, k, 0);
        assert(exact - 2 <= k <= exact + 2) by (nonlinear_arith)
            requires
                r == k * one,
                2 * r <= 2 * p + 2 * one,
                2 * p <= 2 * r + 2 * one,
                reduced * left - left <= p <= reduced * left + left,
                left < one,
                reduced * left <= length * ratio@,
                length * ratio@ < reduced * left + one,
                exact * one <= length * ratio@,
                length * ratio@ < exact * one + one,
                one > 0,
        ;
        assert(k <= 0x200_0000) by (nonlinear_arith)
            requires
                r == k * one,
                r <= p + one,
                p < 0x200_0000 * one,
                one > 0,
        ;
    }
}

} // verus!
