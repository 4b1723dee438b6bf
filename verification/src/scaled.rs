//! Binary64 values from zero to 255, counted in units of 2^-68.
//!
//! The blend modes work on channels as parts of the largest channel. Each
//! value on the way is zero or at least 2^-16, where binary64 values are
//! whole numbers of units of 2^-68, so that each operation here is the
//! binary64 operation to the last bit.

use vstd::prelude::*;
use vstd::arithmetic::div_mod::{lemma_div_is_ordered, lemma_div_multiples_vanish};
use vstd::arithmetic::power2::{lemma2_to64, lemma2_to64_rest, lemma_pow2_adds, pow2};
use crate::binary64::{
    lemma_divides_passes_on, lemma_rounded_at_most, lemma_rounded_cancel, lemma_rounded_exact,
    lemma_rounded_multiple, lemma_rounded_near, lemma_rounded_zero, lemma_spacing_at_most,
    lemma_spacing_divides, lemma_spacing_multiple, lemma_spacing_positive, rounded, spacing,
    SIGNIFICAND_END,
};

verus! {

/// The value one: 2^68 units.
pub const ONE: u128 = 0x10_0000_0000_0000_0000;

/// The value one half.
pub const HALF: u128 = 0x8_0000_0000_0000_0000;

/// The value of a whole number.
pub open spec fn whole(n: nat) -> nat {
    n * ONE as nat
}

/// The rounded difference `x - y`, for `y` no greater than `x`.
pub open spec fn difference(x: nat, y: nat) -> nat {
    rounded((x - y) as nat, 1)
}

/// The rounded product `x * y`.
pub open spec fn product(x: nat, y: nat) -> nat {
    rounded(x * y, ONE as nat)
}

/// The rounded quotient `x / y`, for `y` other than zero.
pub open spec fn quotient(x: nat, y: nat) -> nat {
    rounded(x * ONE as nat, y)
}

/// The whole part of a value.
pub open spec fn truncated(x: nat) -> nat {
    x / ONE as nat
}

/// The powers of two that bound the binades in which the blend modes work.
pub proof fn lemma_powers()
    ensures
        pow2(8) == 0x100,
        pow2(14) == 0x4000,
        pow2(15) == 0x8000,
        pow2(16) == 0x1_0000,
        pow2(23) == 0x80_0000,
        pow2(31) == 0x8000_0000,
        pow2(52) == 0x10_0000_0000_0000,
        pow2(53) == SIGNIFICAND_END,
        pow2(60) == 0x1000_0000_0000_0000,
        pow2(61) == 0x2000_0000_0000_0000,
        pow2(67) == HALF,
        pow2(68) == ONE,
        pow2(69) == 2 * ONE,
        pow2(76) == 256 * ONE,
        pow2(84) == 65536 * ONE,
{
    lemma2_to64();
    lemma2_to64_rest();
    lemma_pow2_adds(64, 3);
    lemma_pow2_adds(64, 4);
    lemma_pow2_adds(64, 5);
    lemma_pow2_adds(64, 12);
    lemma_pow2_adds(64, 20);
}

/// What is left of one, `1.0 - x`, for a value up to one: it is at most one
/// and within 2^15 units of the exact difference; it is a multiple of 2^15
/// units where `x` is at most one half or such a multiple itself, and exact
/// where `x` is such a multiple from one half upward.
pub proof fn lemma_complement(x: nat)
    requires
        x <= ONE,
    ensures
        difference(ONE as nat, x) <= ONE,
        x <= HALF || x % 32768 == 0 ==> difference(ONE as nat, x) % 32768 == 0,
        x >= HALF && x % 32768 == 0 ==> difference(ONE as nat, x) == ONE - x,
        -0x8000 <= difference(ONE as nat, x) - (ONE - x) <= 0x8000,
{
    let n = (ONE - x) as nat;
    let step = spacing(n);
    lemma_powers();
    lemma_spacing_positive(n);
    assert(n / 1 == n);
    lemma_spacing_divides(n, 16);
    lemma_spacing_at_most(n, 16);
    lemma_divides_passes_on(step, pow2(16), ONE as nat);
    lemma_rounded_at_most(n, 1, ONE as nat);
    lemma_rounded_near(n, 1);
    assert(rounded(n, 1) * 1 == rounded(n, 1));
    assert(1 * step == step);
    if x <= HALF {
        lemma_spacing_multiple(n, 15);
        lemma_rounded_multiple(n, 1, 32768);
    }
    if x >= HALF && x % 32768 == 0 {
        if n > 0 {
            lemma_spacing_divides(n, 15);
            lemma_divides_passes_on(step, pow2(15), n);
        }
        lemma_rounded_exact(n);
    }
}

/// The product `x * y` of two values up to one: it is at most one, and
/// within 2^15 units of the exact product.
pub proof fn lemma_product(x: nat, y: nat)
    requires
        x <= ONE,
        y <= ONE,
    ensures
        product(x, y) <= ONE,
        -(ONE * 0x8000) <= product(x, y) * ONE - x * y <= ONE * 0x8000,
{
    let q = (x * y) / ONE as nat;
    lemma_powers();
    assert(x * y <= ONE as nat * ONE as nat) by (nonlinear_arith)
        requires
            x <= ONE,
            y <= ONE,
    ;
    lemma_div_is_ordered((x * y) as int, (ONE as nat * ONE as nat) as int, ONE as int);
    lemma_div_multiples_vanish(ONE as int, ONE as int);
    lemma_spacing_positive(q);
    lemma_spacing_divides(q, 16);
    lemma_spacing_at_most(q, 16);
    lemma_divides_passes_on(spacing(q), pow2(16), ONE as nat);
    lemma_rounded_at_most(x * y, ONE as nat, ONE as nat);
    lemma_rounded_near(x * y, ONE as nat);
    assert(ONE as nat * spacing(q) <= ONE as nat * 0x1_0000) by (nonlinear_arith)
        requires
            spacing(q) <= 0x1_0000,
    ;
}

/// The product of two values that are multiples of `grain` units can be
/// rounded from the product of their counts of grains.
pub proof fn lemma_product_of_grains(x: nat, y: nat, grain: nat)
    requires
        grain == 256 || grain == 32768,
        x % grain == 0,
        y % grain == 0,
    ensures
        product(x, y) == rounded((x / grain) * (y / grain), ONE as nat / grain / grain),
{
    let a = x / grain;
    let b = y / grain;
    let den = ONE as nat / grain / grain;
    let common = grain * grain;
    assert(x * y == (a * b) * common) by (nonlinear_arith)
        requires
            x == a * grain,
            y == b * grain,
            common == grain * grain,
    ;
    if grain == 256 {
        assert(common == 0x1_0000) by (nonlinear_arith)
            requires
                common == grain * grain,
                grain == 256,
        ;
        assert(den == 0x10_0000_0000_0000);
    } else {
        assert(common == 0x4000_0000) by (nonlinear_arith)
            requires
                common == grain * grain,
                grain == 32768,
        ;
        assert(den == 0x40_0000_0000);
    }
    assert(ONE as nat == den * common);
    lemma_rounded_cancel(a * b, den, common);
}

/// Twice a value up to one half, `2.0 * x`: it is at most one and within
/// 2^15 units of the exact double. It is a multiple of 256 units where `x`
/// is such a multiple and either zero or at least 2^60 units, and a multiple
/// of 2^15 units where `x` is such a multiple.
pub proof fn lemma_double(x: nat)
    requires
        x <= HALF,
    ensures
        product(whole(2), x) == rounded(2 * x, 1),
        product(whole(2), x) <= ONE,
        x % 256 == 0 && (x == 0 || x >= 0x1000_0000_0000_0000) ==> product(whole(2), x) % 256
            == 0,
        x % 32768 == 0 ==> product(whole(2), x) % 32768 == 0,
        -0x8000 <= product(whole(2), x) - 2 * x <= 0x8000,
{
    let n = 2 * x;
    let step = spacing(n);
    lemma_powers();
    lemma_spacing_positive(n);
    assert(n / 1 == n);
    assert(whole(2) * x == n * ONE as nat) by (nonlinear_arith)
        requires
            whole(2) == 2 * ONE as nat,
            n == 2 * x,
    ;
    assert(1 * ONE as nat == ONE as nat);
    lemma_rounded_cancel(n, 1, ONE as nat);
    lemma_spacing_divides(n, 16);
    lemma_spacing_at_most(n, 16);
    lemma_divides_passes_on(step, pow2(16), ONE as nat);
    lemma_rounded_at_most(n, 1, ONE as nat);
    lemma_rounded_near(n, 1);
    assert(rounded(n, 1) * 1 == rounded(n, 1));
    assert(1 * step == step);
    if x == 0 {
        lemma_rounded_zero(1);
    }
    if x % 256 == 0 && x >= 0x1000_0000_0000_0000 {
        lemma_spacing_multiple(n, 8);
        lemma_rounded_multiple(n, 1, 256);
    }
    if x % 32768 == 0 {
        if n > 0 {
            lemma_divides_passes_on(step, pow2(16), n);
        }
        lemma_rounded_exact(n);
    }
}

/// A value up to one taken 255 times, `x * 255.0`: it is at most 255 and
/// within 2^22 units of the exact product.
pub proof fn lemma_times_255(x: nat)
    requires
        x <= ONE,
    ensures
        product(x, whole(255)) == rounded(x * 255, 1),
        product(x, whole(255)) <= 255 * ONE,
        -0x40_0000 <= product(x, whole(255)) - 255 * x <= 0x40_0000,
{
    let n = x * 255;
    let step = spacing(n);
    lemma_powers();
    lemma_spacing_positive(n);
    assert(n / 1 == n);
    assert(x * whole(255) == n * ONE as nat) by (nonlinear_arith)
        requires
            whole(255) == 255 * ONE as nat,
            n == x * 255,
    ;
    assert(1 * ONE as nat == ONE as nat);
    lemma_rounded_cancel(n, 1, ONE as nat);
    lemma_spacing_divides(n, 23);
    lemma_spacing_at_most(n, 23);
    lemma_divides_passes_on(step, pow2(23), (255 * ONE) as nat);
    lemma_rounded_at_most(n, 1, (255 * ONE) as nat);
    lemma_rounded_near(n, 1);
    assert(rounded(n, 1) * 1 == rounded(n, 1));
    assert(1 * step == step);
}

} // verus!
