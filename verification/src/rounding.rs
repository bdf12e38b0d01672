//! Rounding of natural numbers to 24 significant bits, to nearest with ties to
//! even: the rounding of single-precision binary floating point.

use vstd::prelude::*;
use vstd::arithmetic::div_mod::*;
use vstd::arithmetic::power2::*;

verus! {

/// How many low bits a number has beyond 24 significant ones.
pub open spec fn excess_bits(n: nat) -> nat
    decreases n,
{
    if n < 0x100_0000 {
        0
    } else {
        1 + excess_bits(n / 2)
    }
}

/// The spacing of the numbers with 24 significant bits around `n`.
pub open spec fn grid(n: nat) -> nat {
    pow2(excess_bits(n))
}

/// The multiple of `d` nearest to `n`; halfway between two, the even multiple.
pub open spec fn nearest_multiple(n: nat, d: nat) -> nat {
    let q = n / d;
    let rem = n % d;
    if 2 * rem < d || (2 * rem == d && q % 2 == 0) {
        q * d
    } else {
        (q + 1) * d
    }
}

/// `n` rounded to 24 significant bits.
pub open spec fn round24(n: nat) -> nat {
    nearest_multiple(n, grid(n))
}

/// The grid is positive, and `n` lies in the 24-bit window above it.
pub proof fn lemma_grid_bounds(n: nat)
    ensures
        grid(n) >= 1,
        n < 0x100_0000 * grid(n),
        n >= 0x100_0000 ==> grid(n) >= 2 && 0x80_0000 * grid(n) <= n,
        n >= 0x100_0000 ==> grid(n) == 2 * grid(n / 2),
        n < 0x100_0000 ==> grid(n) == 1,
    decreases n,
{
    lemma2_to64();
    if n >= 0x100_0000 {
        lemma_grid_bounds(n / 2);
        lemma_pow2_unfold(excess_bits(n));
    }
}

/// A number in the 24-bit window above a power of two has that power as its
/// grid.
pub proof fn lemma_grid_of_window(n: nat, e: nat)
    requires
        n < 0x100_0000 * pow2(e),
        e > 0 ==> 0x80_0000 * pow2(e) <= n,
    ensures
        excess_bits(n) == e,
        grid(n) == pow2(e),
    decreases e,
{
    lemma2_to64();
    if e > 0 {
        lemma_pow2_unfold(e);
        lemma_pow2_pos((e - 1) as nat);
        lemma_grid_of_window(n / 2, (e - 1) as nat);
    }
}

/// A larger number has the same grid or one at least twice as wide.
pub proof fn lemma_grid_ordered(a: nat, b: nat)
    requires
        a <= b,
    ensures
        grid(a) <= grid(b),
        grid(a) < grid(b) ==> 2 * grid(a) <= grid(b),
    decreases b,
{
    lemma_grid_bounds(a);
    lemma_grid_bounds(b);
    if a >= 0x100_0000 {
        lemma_grid_ordered(a / 2, b / 2);
    }
}

/// Quotient and remainder, found from any way of writing `n` as `q * d + rem`.
pub proof fn lemma_quotient(n: nat, d: nat, q: nat, rem: nat)
    requires
        n == q * d + rem,
        rem < d,
    ensures
        n / d == q,
        n % d == rem,
{
    lemma_fundamental_div_mod_converse(n as int, d as int, q as int, rem as int);
}

/// `n` written as quotient times `d` plus remainder.
pub proof fn lemma_split(n: nat, d: nat)
    requires
        d > 0,
    ensures
        n == (n / d) * d + n % d,
        n % d < d,
{
    lemma_fundamental_div_mod(n as int, d as int);
    assert(d * (n / d) == (n / d) * d) by (nonlinear_arith);
}

/// The nearest multiple is one of the two multiples that enclose `n`.
pub proof fn lemma_nearest_multiple_encloses(n: nat, d: nat)
    requires
        d > 0,
    ensures
        nearest_multiple(n, d) == (n / d) * d || nearest_multiple(n, d) == (n / d + 1) * d,
        (n / d) * d <= n < (n / d + 1) * d,
        n % d == 0 ==> nearest_multiple(n, d) == n,
        nearest_multiple(n, d) % d == 0,
{
    lemma_split(n, d);
    let q = n / d;
    assert((q + 1) * d == q * d + d) by (nonlinear_arith);
    lemma_quotient(q * d, d, q, 0);
    lemma_quotient((q + 1) * d, d, q + 1, 0);
}

/// On one grid, rounding to the nearest multiple keeps the order.
pub proof fn lemma_nearest_multiple_monotone(a: nat, b: nat, d: nat)
    requires
        d > 0,
        a <= b,
    ensures
        nearest_multiple(a, d) <= nearest_multiple(b, d),
{
    lemma_nearest_multiple_encloses(a, d);
    lemma_nearest_multiple_encloses(b, d);
    lemma_split(a, d);
    lemma_split(b, d);
    lemma_div_is_ordered(a as int, b as int, d as int);
    let qa = a / d;
    let qb = b / d;
    if qa < qb {
        assert((qa + 1) * d <= qb * d) by (nonlinear_arith)
            requires
                qa + 1 <= qb,
        ;
    }
}

/// Rounding moves a number by at most half of its grid, onto the grid.
pub proof fn lemma_round24_near(n: nat)
    ensures
        2 * round24(n) <= 2 * n + grid(n),
        2 * n <= 2 * round24(n) + grid(n),
        round24(n) % grid(n) == 0,
{
    let d = grid(n);
    lemma_grid_bounds(n);
    lemma_split(n, d);
    lemma_nearest_multiple_encloses(n, d);
    assert((n / d + 1) * d == (n / d) * d + d) by (nonlinear_arith);
}

/// Rounding keeps the order.
pub proof fn lemma_round24_monotone(a: nat, b: nat)
    requires
        a <= b,
    ensures
        round24(a) <= round24(b),
{
    let ga = grid(a);
    let gb = grid(b);
    lemma_grid_bounds(a);
    lemma_grid_bounds(b);
    lemma_grid_ordered(a, b);
    if ga == gb {
        lemma_nearest_multiple_monotone(a, b, ga);
    } else {
        lemma_nearest_multiple_encloses(a, ga);
        lemma_nearest_multiple_encloses(b, gb);
        lemma_split(a, ga);
        lemma_split(b, gb);
        let qa = a / ga;
        let qb = b / gb;
        assert(qa < 0x100_0000) by (nonlinear_arith)
            requires
                qa * ga <= a,
                a < 0x100_0000 * ga,
                ga > 0,
        ;
        assert(qb >= 0x80_0000) by (nonlinear_arith)
            requires
                b < (qb + 1) * gb,
                0x80_0000 * gb <= b,
                gb > 0,
        ;
        assert((qa + 1) * ga <= qb * gb) by (nonlinear_arith)
            requires
                qa + 1 <= 0x100_0000,
                qb >= 0x80_0000,
                2 * ga <= gb,
        ;
    }
}

/// A number between two numbers that rounding leaves alone rounds to
/// something between them.
pub proof fn lemma_round24_between(low: nat, n: nat, high: nat)
    requires
        low <= n <= high,
        round24(low) == low,
        round24(high) == high,
    ensures
        low <= round24(n) <= high,
{
    lemma_round24_monotone(low, n);
    lemma_round24_monotone(n, high);
}

/// Numbers of at most 24 bits, and the first of 25, are left alone.
pub proof fn lemma_round24_small(n: nat)
    requires
        n <= 0x100_0000,
    ensures
        round24(n) == n,
{
    lemma_grid_bounds(n);
    if n == 0x100_0000 {
        lemma_grid_bounds(n / 2);
        lemma_quotient(n, 2, 0x80_0000, 0);
    } else {
        lemma_quotient(n, 1, n, 0);
    }
    lemma_nearest_multiple_encloses(n, grid(n));
}

/// Doubling a number doubles what it rounds to.
pub proof fn lemma_round24_double(n: nat)
    ensures
        round24(2 * n) == 2 * round24(n),
{
    lemma_grid_bounds(n);
    lemma_grid_bounds(2 * n);
    if 2 * n < 0x100_0000 {
        lemma_round24_small(n);
        lemma_round24_small(2 * n);
    } else if n < 0x100_0000 {
        lemma_round24_small(n);
        lemma_grid_bounds(n);
        assert(grid(2 * n) == 2);
        lemma_quotient(2 * n, 2, n, 0);
        lemma_nearest_multiple_encloses(2 * n, 2);
    } else {
        let d = grid(n);
        assert(grid(2 * n) == 2 * d);
        lemma_split(n, d);
        let q = n / d;
        let rem = n % d;
        assert(2 * n == q * (2 * d) + 2 * rem) by (nonlinear_arith)
            requires
                n == q * d + rem,
        ;
        lemma_quotient(2 * n, 2 * d, q, 2 * rem);
        assert(q * (2 * d) == 2 * (q * d)) by (nonlinear_arith);
        assert((q + 1) * (2 * d) == 2 * ((q + 1) * d)) by (nonlinear_arith);
    }
}

/// Multiplying by a power of two multiplies what a number rounds to.
pub proof fn lemma_round24_scale(n: nat, j: nat)
    ensures
        round24(n * pow2(j)) == round24(n) * pow2(j),
    decreases j,
{
    if j == 0 {
        lemma2_to64();
        assert(n * pow2(0) == n) by (nonlinear_arith)
            requires
                pow2(0) == 1,
        ;
        assert(round24(n) * pow2(0) == round24(n)) by (nonlinear_arith)
            requires
                pow2(0) == 1,
        ;
    } else {
        lemma_pow2_unfold(j);
        lemma_round24_scale(n, (j - 1) as nat);
        let p = pow2((j - 1) as nat);
        let k = round24(n);
        lemma_round24_double(n * p);
        assert(n * pow2(j) == 2 * (n * p)) by (nonlinear_arith)
            requires
                pow2(j) == 2 * p,
        ;
        assert(k * pow2(j) == 2 * (k * p)) by (nonlinear_arith)
            requires
                pow2(j) == 2 * p,
        ;
    }
}

/// A number no larger than a power of two rounds to nothing larger.
pub proof fn lemma_round24_capped(n: nat, j: nat)
    requires
        n <= pow2(j),
    ensures
        round24(n) <= pow2(j),
{
    lemma_round24_small(1);
    lemma_round24_scale(1, j);
    assert(1 * pow2(j) == pow2(j)) by (nonlinear_arith);
    lemma_round24_monotone(n, pow2(j));
}

/// Rounds `n` to 24 significant bits, to nearest, ties to even. The largest
/// numbers round up to 2^64, which the result cannot hold: they are left out.
pub fn round_to_24_bits(n: u64) -> (rounded: u64)
    requires
        round24(n as nat) <= u64::MAX,
    ensures
        rounded == round24(n as nat),
{
    let mut quotient: u64 = n;
    let mut spacing: u64 = 1;
    proof {
        lemma_grid_bounds(n as nat);
        assert(grid(n as nat) == 1 * grid(n as nat));
    }
    while quotient >= 0x100_0000
        invariant
            spacing >= 1,
            spacing == 1 || quotient >= 0x80_0000,
            quotient == n / spacing,
            quotient * spacing <= n,
            grid(n as nat) == spacing * grid(quotient as nat),
        decreases quotient,
    {
        proof {
            lemma_grid_bounds(quotient as nat);
            lemma_div_denominator(n as int, spacing as int, 2);
            assert(spacing * 2 <= 0x200_0000_0000) by (nonlinear_arith)
                requires
                    quotient * spacing <= n,
                    quotient >= 0x100_0000,
                    n <= u64::MAX,
            ;
            lemma_split(n as nat, (spacing * 2) as nat);
            assert(spacing * (2 * grid((quotient / 2) as nat)) == (spacing * 2) * grid(
                (quotient / 2) as nat,
            )) by (nonlinear_arith);
        }
        quotient = quotient / 2;
        spacing = spacing * 2;
    }
    proof {
        lemma_grid_bounds(quotient as nat);
        lemma_split(n as nat, spacing as nat);
        assert((quotient + 1) * spacing == quotient * spacing + spacing) by (nonlinear_arith);
        assert(grid(n as nat) == spacing) by (nonlinear_arith)
            requires
                grid(n as nat) == spacing * grid(quotient as nat),
                grid(quotient as nat) == 1,
        ;
        assert((n as nat) / (spacing as nat) == quotient);
        assert((n as nat) % (spacing as nat) == n - quotient * spacing);
    }
    let below: u64 = quotient * spacing;
    let rest: u64 = n - below;
    if rest < spacing - rest || (rest == spacing - rest && quotient % 2 == 0) {
        below
    } else {
        below + spacing
    }
}

} // verus!
