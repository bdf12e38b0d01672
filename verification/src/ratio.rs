//! Scaling ratios: the positive single-precision binary floating-point numbers
//! up to one, held by their bit pattern and reasoned about as exact multiples
//! of 2^-149, the smallest positive number of that format.

use vstd::prelude::*;
use vstd::arithmetic::div_mod::*;
use vstd::arithmetic::power2::*;
use vstd::bits::lemma_u64_shr_is_div;
use crate::rounding::{
    excess_bits, grid, lemma_grid_bounds, lemma_grid_of_window, lemma_nearest_multiple_encloses,
    lemma_quotient, lemma_round24_capped, lemma_round24_monotone, lemma_round24_scale,
    lemma_round24_small, lemma_split, round24, round_to_24_bits,
};

verus! {

/// The bit pattern of 1.0.
pub const ONE_BITS: u32 = 0x3F80_0000;

/// The bit pattern of 0.5.
pub const HALF_BITS: u32 = 0x3F00_0000;

/// The bit pattern of positive infinity: every pattern below it is a finite
/// number that is not negative.
pub const INFINITY_BITS: u32 = 0x7F80_0000;

/// The number one, counted in multiples of 2^-149.
pub open spec fn unit() -> nat {
    pow2(149)
}

/// One half, counted in multiples of 2^-149.
pub open spec fn half() -> nat {
    pow2(148)
}

/// The eight exponent bits of a pattern with a clear sign bit.
pub open spec fn exponent_field(bits: u32) -> nat {
    (bits / 0x80_0000) as nat
}

/// The 23 fraction bits of a pattern.
pub open spec fn fraction_field(bits: u32) -> nat {
    (bits % 0x80_0000) as nat
}

/// The significand: the fraction bits, under an implied leading one unless the
/// number is subnormal.
pub open spec fn significand(bits: u32) -> nat {
    if exponent_field(bits) == 0 {
        fraction_field(bits)
    } else {
        0x80_0000 + fraction_field(bits)
    }
}

/// The power of two that the significand is multiplied by, counted from 2^-149.
pub open spec fn scale_exponent(bits: u32) -> nat {
    if exponent_field(bits) == 0 {
        0
    } else {
        (exponent_field(bits) - 1) as nat
    }
}

/// The number that a finite pattern with a clear sign bit stands for, counted
/// in multiples of 2^-149.
pub open spec fn binary32_value(bits: u32) -> nat {
    significand(bits) * pow2(scale_exponent(bits))
}

/// A pattern that stands for a number greater than zero and at most one.
pub open spec fn is_ratio_pattern(bits: u32) -> bool {
    bits < INFINITY_BITS && 0 < binary32_value(bits) <= unit()
}

/// Powers of two grow with the exponent.
pub proof fn lemma_pow2_ordered(a: nat, b: nat)
    requires
        a <= b,
    ensures
        pow2(a) <= pow2(b),
        pow2(a) > 0,
{
    lemma_pow2_pos(a);
    if a < b {
        lemma_pow2_strictly_increases(a, b);
    }
}

/// Among finite patterns with a clear sign bit, the order of the patterns is
/// the order of the numbers; the numbers below one end 2^-24 below it; and
/// every such number has 24 significant bits.
pub proof fn lemma_binary32_order(bits: u32)
    requires
        bits < INFINITY_BITS,
    ensures
        binary32_value(bits) == 0 <==> bits == 0,
        binary32_value(bits) < half() <==> bits < HALF_BITS,
        binary32_value(bits) < unit() <==> bits < ONE_BITS,
        binary32_value(bits) == unit() <==> bits == ONE_BITS,
        bits < ONE_BITS ==> binary32_value(bits) + pow2(125) <= unit(),
        round24(binary32_value(bits)) == binary32_value(bits),
{
    let e = exponent_field(bits);
    let f = fraction_field(bits);
    let s = significand(bits);
    let j = scale_exponent(bits);
    let v = binary32_value(bits);
    let p = pow2(j);
    lemma2_to64();
    lemma_pow2_pos(j);
    lemma_pow2_adds(23, 125);
    lemma_pow2_adds(23, 126);
    lemma_pow2_adds(24, 124);
    lemma_pow2_adds(24, 125);
    assert(pow2(23) == 0x80_0000);
    assert(pow2(24) == 0x100_0000);
    lemma_round24_small(s);
    lemma_round24_scale(s, j);
    if e == 0 {
        assert(bits == f);
        assert(v == f) by (nonlinear_arith)
            requires
                v == f * p,
                p == 1,
        ;
        lemma_pow2_ordered(23, 148);
        lemma_pow2_ordered(148, 149);
        lemma_pow2_ordered(125, 148);
    } else {
        assert(bits == e * 0x80_0000 + f);
        assert(s * p > 0) by (nonlinear_arith)
            requires
                s > 0,
                p > 0,
        ;
        if e <= 125 {
            lemma_pow2_ordered(j, 124);
            lemma_pow2_ordered(125, 148);
            assert(s * p < 0x100_0000 * pow2(124)) by (nonlinear_arith)
                requires
                    0 < s < 0x100_0000,
                    0 < p <= pow2(124),
            ;
            lemma_pow2_ordered(148, 149);
            lemma_pow2_unfold(149);
        } else if e == 126 {
            assert(s * p >= 0x80_0000 * p && s * p <= 0x100_0000 * p - p) by (nonlinear_arith)
                requires
                    0x80_0000 <= s < 0x100_0000,
                    p > 0,
            ;
        } else if e == 127 {
            assert(s * p == 0x80_0000 * p + f * p && (f > 0 ==> f * p > 0)) by (nonlinear_arith)
                requires
                    s == 0x80_0000 + f,
                    p > 0,
            ;
            lemma_pow2_ordered(148, 149);
        } else {
            lemma_pow2_ordered(127, j);
            lemma_pow2_unfold(127);
            lemma_pow2_ordered(148, 149);
            assert(s * p >= 0x80_0000 * pow2(127)) by (nonlinear_arith)
                requires
                    s >= 0x80_0000,
                    p >= pow2(127),
            ;
        }
    }
}

/// The floor of `length` times `ratio` as single-precision arithmetic finds
/// it: the length is rounded when it is converted, the product is rounded, and
/// its floor is capped at the largest 32-bit number. `ratio` counts multiples
/// of 2^-149.
pub open spec fn scaled_length(length: nat, ratio: nat) -> nat {
    let floor = round24(round24(length) * ratio) / unit();
    if floor > u32::MAX {
        u32::MAX as nat
    } else {
        floor
    }
}

/// A number of up to 24 bits, or the first of 25, times the largest ratio below
/// one and times 2^24, rounds to less than the number times 2^24.
proof fn lemma_product_rounds_below(m: nat)
    requires
        1 <= m <= 0x100_0000,
    ensures
        round24(m * 0xFF_FFFF) < m * 0x100_0000,
{
    let p = m * 0xFF_FFFF;
    let g = grid(p);
    let e = excess_bits(p);
    lemma_grid_bounds(p);
    lemma2_to64();
    if p < 0x100_0000 {
        lemma_round24_small(p);
    } else {
        assert(m <= g && g < 2 * m);
        if e >= 25 {
            lemma_pow2_ordered(25, e);
        }
        let rest = (24 - e) as nat;
        lemma_pow2_adds(e, rest);
        lemma_pow2_pos(rest);
        let t = m * pow2(rest);
        assert(t * g == m * 0x100_0000 && t >= 1) by (nonlinear_arith)
            requires
                pow2(e) * pow2(rest) == 0x100_0000,
                g == pow2(e),
                t == m * pow2(rest),
                m >= 1,
                pow2(rest) >= 1,
        ;
        assert(p == (t - 1) * g + (g - m) && (t - 1) * g < t * g) by (nonlinear_arith)
            requires
                t * g == m * 0x100_0000,
                p == m * 0xFF_FFFF,
                g > 0,
        ;
        lemma_quotient(p, g, (t - 1) as nat, (g - m) as nat);
    }
}

/// What a length rounds to on conversion, times the largest ratio below one and
/// times 2^24, rounds to less than the length times 2^24.
proof fn lemma_largest_ratio_shrinks(length: nat)
    requires
        length > 0,
    ensures
        round24(round24(length) * 0xFF_FFFF) < length * 0x100_0000,
{
    let w = round24(length);
    let d = grid(length);
    let q = length / d;
    lemma2_to64();
    lemma_grid_bounds(length);
    lemma_nearest_multiple_encloses(length, d);
    lemma_split(length, d);
    if length < 0x100_0000 {
        lemma_round24_small(length);
        lemma_product_rounds_below(length);
    } else {
        assert(0x80_0000 <= q < 0x100_0000) by (nonlinear_arith)
            requires
                q * d <= length,
                length < (q + 1) * d,
                0x80_0000 * d <= length,
                length < 0x100_0000 * d,
                d > 0,
        ;
        let m: nat = if w == q * d {
            q
        } else {
            q + 1
        };
        let top = m * 0xFF_FFFF;
        lemma_round24_scale(top, excess_bits(length));
        assert(w * 0xFF_FFFF == top * d) by (nonlinear_arith)
            requires
                w == m * d,
                top == m * 0xFF_FFFF,
        ;
        if w > length {
            assert(top == q * 0x100_0000 + (0xFF_FFFF - q));
            lemma_quotient(top, 0x100_0000, q, (0xFF_FFFF - q) as nat);
            lemma_grid_of_window(top, 24);
            assert(round24(top) == q * 0x100_0000);
            assert((q * 0x100_0000) * d < length * 0x100_0000) by (nonlinear_arith)
                requires
                    q * d < length,
            ;
        } else {
            lemma_product_rounds_below(m);
            assert(round24(top) * d < length * 0x100_0000) by (nonlinear_arith)
                requires
                    round24(top) < m * 0x100_0000,
                    m * d <= length,
                    d > 0,
            ;
        }
    }
}

/// A ratio that is 2^-24 or more below one makes every length smaller.
pub proof fn lemma_scaled_length_shrinks(length: nat, ratio: nat)
    requires
        ratio + pow2(125) <= unit(),
    ensures
        scaled_length(length, ratio) <= length,
        length > 0 ==> scaled_length(length, ratio) < length,
{
    let w = round24(length);
    let top = w * 0xFF_FFFF;
    let rounded = round24(w * ratio);
    let floor = rounded / unit();
    lemma2_to64();
    lemma_pow2_adds(24, 125);
    lemma_pow2_pos(125);
    lemma_pow2_pos(149);
    lemma_split(rounded, unit());
    if length == 0 {
        lemma_round24_small(0);
        assert(w * ratio == 0) by (nonlinear_arith)
            requires
                w == 0,
        ;
        assert(floor == 0) by (nonlinear_arith)
            requires
                rounded == 0,
                rounded == floor * unit() + rounded % unit(),
                unit() > 0,
        ;
    } else {
        assert(w * ratio <= top * pow2(125)) by (nonlinear_arith)
            requires
                ratio + pow2(125) <= 0x100_0000 * pow2(125),
                top == w * 0xFF_FFFF,
        ;
        lemma_round24_monotone(w * ratio, top * pow2(125));
        lemma_round24_scale(top, 125);
        lemma_largest_ratio_shrinks(length);
        let x = round24(top);
        assert(x * pow2(125) < length * unit()) by (nonlinear_arith)
            requires
                x < length * 0x100_0000,
                unit() == 0x100_0000 * pow2(125),
                pow2(125) > 0,
        ;
        assert(floor < length) by (nonlinear_arith)
            requires
                floor * unit() <= rounded,
                rounded < length * unit(),
                unit() > 0,
        ;
    }
}

/// A scaling ratio: greater than zero and at most one.
#[derive(Clone, Copy, Debug, PartialEq, Eq)]
pub struct Ratio {
    bits: u32,
}

impl View for Ratio {
    type V = nat;

    /// The ratio, counted in multiples of 2^-149.
    closed spec fn view(&self) -> nat {
        binary32_value(self.bits)
    }
}

impl Ratio {
    /// The pattern stands for a number greater than zero and at most one.
    #[verifier::type_invariant]
    pub closed spec fn wf(&self) -> bool {
        is_ratio_pattern(self.bits)
    }

    /// The bit pattern of the ratio.
    pub closed spec fn pattern(&self) -> u32 {
        self.bits
    }

    /// What holds of every ratio: where it lies, that it has 24 significant
    /// bits, and that below one it stays 2^-24 away from one.
    pub proof fn lemma_ratio_value(self)
        requires
            self.wf(),
        ensures
            self@ == binary32_value(self.pattern()),
            is_ratio_pattern(self.pattern()),
            0 < self@ <= unit(),
            round24(self@) == self@,
            self@ < unit() ==> self@ + pow2(125) <= unit(),
    {
        lemma_binary32_order(self.bits);
    }

    /// The ratio with the given bit pattern, if the pattern stands for a number
    /// greater than zero and at most one.
    pub fn from_bits(bits: u32) -> (ratio: Option<Ratio>)
        ensures
            ratio is Some <==> is_ratio_pattern(bits),
            ratio matches Some(r) ==> r.wf() && r.pattern() == bits && r@ == binary32_value(bits),
    {
        if 1 <= bits && bits <= ONE_BITS {
            proof {
                lemma_binary32_order(bits);
            }
            Some(Ratio { bits })
        } else {
            proof {
                if bits < INFINITY_BITS {
                    lemma_binary32_order(bits);
                }
            }
            None
        }
    }

    /// The bit pattern of the ratio.
    pub fn bits(&self) -> (bits: u32)
        ensures
            bits == self.pattern(),
            is_ratio_pattern(bits),
            binary32_value(bits) == self@,
    {
        proof {
            use_type_invariant(self);
        }
        self.bits
    }

    /// Whether the ratio is less than one half.
    pub fn is_below_half(&self) -> (below: bool)
        ensures
            below == (self@ < half()),
    {
        proof {
            use_type_invariant(self);
            lemma_binary32_order(self.bits);
        }
        self.bits < HALF_BITS
    }

    /// Whether the ratio is one.
    pub fn is_one(&self) -> (one: bool)
        ensures
            one == (self@ == unit()),
    {
        proof {
            use_type_invariant(self);
            lemma_binary32_order(self.bits);
        }
        self.bits == ONE_BITS
    }

    /// Twice the ratio. Doubling a binary number is exact.
    pub fn doubled(&self) -> (twice: Ratio)
        requires
            self@ < half(),
        ensures
            twice@ == 2 * self@,
            twice.wf(),
    {
        proof {
            use_type_invariant(self);
            lemma_binary32_order(self.bits);
        }
        let bits: u32 = if self.bits < 0x80_0000 {
            self.bits * 2
        } else {
            self.bits + 0x80_0000
        };
        proof {
            lemma2_to64();
            let j = scale_exponent(self.bits);
            let s = significand(self.bits);
            if self.bits >= 0x80_0000 {
                lemma_pow2_unfold(j + 1);
                assert(s * (2 * pow2(j)) == 2 * (s * pow2(j))) by (nonlinear_arith);
            } else {
                assert(binary32_value(self.bits) == s) by (nonlinear_arith)
                    requires
                        binary32_value(self.bits) == s * pow2(0),
                        pow2(0) == 1,
                ;
                assert(binary32_value(bits) == 2 * s) by (nonlinear_arith)
                    requires
                        binary32_value(bits) == (2 * s) * pow2(0),
                        pow2(0) == 1,
                ;
            }
            lemma_pow2_unfold(149);
            lemma_binary32_order(bits);
        }
        Ratio { bits }
    }

    /// The floor of `length` times the ratio, in single-precision arithmetic.
    pub fn scale(&self, length: u32) -> (scaled: u32)
        ensures
            scaled == scaled_length(length as nat, self@),
    {
        proof {
            use_type_invariant(self);
            lemma_binary32_order(self.bits);
            lemma2_to64();
            lemma2_to64_rest();
        }
        let exponent: u32 = self.bits / 0x80_0000;
        let fraction: u32 = self.bits % 0x80_0000;
        let significand: u64 = if exponent == 0 {
            fraction as u64
        } else {
            0x80_0000 + fraction as u64
        };
        let shift: u32 = if exponent == 0 {
            149
        } else {
            150 - exponent
        };
        proof {
            lemma_round24_capped(length as nat, 32);
        }
        let converted: u64 = round_to_24_bits(length as u64);
        assert(converted * significand <= 0x100_0000_0000_0000) by (nonlinear_arith)
            requires
                converted <= 0x1_0000_0000,
                significand <= 0x100_0000,
        ;
        let product: u64 = converted * significand;
        proof {
            lemma_round24_capped(product as nat, 56);
        }
        let rounded: u64 = round_to_24_bits(product);
        proof {
            let j = scale_exponent(self.bits);
            let low = pow2(j);
            let high = pow2(shift as nat);
            lemma_pow2_pos(j);
            lemma_pow2_pos(shift as nat);
            lemma_pow2_adds(j, shift as nat);
            lemma_round24_scale(product as nat, j);
            assert(round24(length as nat) * self@ == product * low) by (nonlinear_arith)
                requires
                    round24(length as nat) == converted,
                    self@ == significand * low,
                    product == converted * significand,
            ;
            lemma_div_multiples_vanish_quotient(low as int, rounded as int, high as int);
            assert(low * rounded == rounded * low) by (nonlinear_arith);
            assert((rounded * low) as nat / unit() == rounded as nat / high);
            if shift >= 57 {
                lemma_pow2_ordered(57, shift as nat);
                lemma_basic_div(rounded as int, high as int);
            } else {
                lemma_u64_shr_is_div(rounded, shift as u64);
            }
        }
        let floor: u64 = if shift >= 57 {
            0
        } else {
            rounded >> shift
        };
        if floor > 0xFFFF_FFFF {
            0xFFFF_FFFF
        } else {
            floor as u32
        }
    }
}

} // verus!
