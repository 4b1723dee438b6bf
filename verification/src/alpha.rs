//! The alpha channel of a color: how opaque the color is, from zero
//! (transparent) to one (opaque).
//!
//! An alpha value is a binary64 number and is kept as its bit pattern: the
//! exponent field in the bits from 52 upward and the fraction in the 52 bits
//! below. From zero to one the bit patterns are the whole numbers from zero
//! to the pattern of one, in the order of the values. The value of a pattern
//! is counted in units of 2^-1074, the smallest positive binary64 number:
//! every value is a whole number of these units, so that the rounding of
//! whole numbers is the rounding of binary64 arithmetic for all of them.

use vstd::prelude::*;
use vstd::arithmetic::div_mod::*;
use vstd::arithmetic::mul::*;
use vstd::arithmetic::power2::*;
use crate::binary64::{
    lemma_divides_passes_on, lemma_rounded_above, lemma_rounded_at_most, lemma_rounded_below,
    lemma_rounded_cancel, lemma_rounded_doubles, lemma_rounded_exact,
    lemma_rounded_representable, lemma_rounded_scales, lemma_significand_powers,
    lemma_spacing_divides, lemma_spacing_in_binade, lemma_spacing_positive, nearest,
    round_quotient, rounded, spacing, SIGNIFICAND_END,
};

verus! {

/// The bit pattern of the value one.
pub const OPAQUE_BITS: u64 = 0x3FF0_0000_0000_0000;

/// 2^52: the bit above the fraction, which a significand holds in all
/// binades but the lowest.
pub const HIDDEN_BIT: u64 = 0x10_0000_0000_0000;

/// The exponent field of a bit pattern.
pub open spec fn exponent_field(bits: u64) -> nat {
    (bits / HIDDEN_BIT) as nat
}

/// The significand of a bit pattern: the fraction, with the hidden bit
/// above it where the exponent field is not zero.
pub open spec fn significand(bits: u64) -> nat {
    if exponent_field(bits) == 0 {
        (bits % HIDDEN_BIT) as nat
    } else {
        (HIDDEN_BIT + bits % HIDDEN_BIT) as nat
    }
}

/// The power of two by which the significand is scaled, in units.
pub open spec fn scale(bits: u64) -> nat {
    if exponent_field(bits) == 0 {
        0
    } else {
        (exponent_field(bits) - 1) as nat
    }
}

/// The value of a bit pattern, in units of 2^-1074.
pub open spec fn value_of(bits: u64) -> nat {
    significand(bits) * pow2(scale(bits))
}

/// The mean of two values as binary64 arithmetic computes it,
/// `(a + b) / 2.0`: the sum is rounded, and so is its half.
pub open spec fn mean_of(a: nat, b: nat) -> nat {
    rounded(rounded(a + b, 1), 2)
}

/// An alpha value: a binary64 number from zero to one, as its bit pattern.
#[derive(Clone, Copy, Debug, PartialEq, Eq)]
pub struct Alpha {
    bits: u64,
}

impl Alpha {
    #[verifier::type_invariant]
    spec fn in_range(self) -> bool {
        self.bits <= OPAQUE_BITS
    }

    /// The bit pattern of the value.
    pub closed spec fn bits(self) -> u64 {
        self.bits
    }

    /// The value, in units of 2^-1074.
    pub open spec fn value(self) -> nat {
        value_of(self.bits())
    }

    /// The alpha of an opaque color: one.
    pub closed spec fn one() -> Alpha {
        Alpha { bits: OPAQUE_BITS }
    }

    /// The alpha of an opaque color: one.
    pub fn opaque() -> (alpha: Alpha)
        ensures
            alpha == Alpha::one(),
            alpha.bits() == OPAQUE_BITS,
    {
        Alpha { bits: OPAQUE_BITS }
    }

    /// The alpha value with the given bit pattern, if the pattern is that of
    /// a number from zero to one.
    pub fn from_bits(bits: u64) -> (alpha: Option<Alpha>)
        ensures
            alpha is Some <==> bits <= OPAQUE_BITS,
            alpha matches Some(a) ==> a.bits() == bits,
    {
        if bits <= OPAQUE_BITS {
            Some(Alpha { bits })
        } else {
            None
        }
    }

    /// The bit pattern of the value.
    pub fn to_bits(&self) -> (bits: u64)
        ensures
            bits == self.bits(),
            bits <= OPAQUE_BITS,
    {
        proof {
            use_type_invariant(self);
        }
        self.bits
    }

    /// The mean of two alpha values, `(a + b) / 2.0`.
    pub fn mean(&self, other: &Alpha) -> (mean: Alpha)
        ensures
            mean.bits() <= OPAQUE_BITS,
            mean.value() == mean_of(self.value(), other.value()),
    {
        proof {
            use_type_invariant(self);
            use_type_invariant(other);
        }
        Alpha { bits: mean_bits(self.bits, other.bits) }
    }
}

/// The parts of a bit pattern up to that of one.
pub proof fn lemma_parts(bits: u64)
    requires
        bits <= OPAQUE_BITS,
    ensures
        significand(bits) < SIGNIFICAND_END,
        scale(bits) <= 1022,
        scale(bits) > 0 ==> significand(bits) >= HIDDEN_BIT,
        value_of(bits) <= pow2(1074),
{
    let m = significand(bits);
    let k = scale(bits);
    lemma_pow2_pos(k);
    lemma_pow2_adds(53, 1021);
    lemma_pow2_adds(52, 1022);
    lemma_significand_powers();
    if k == 1022 {
        assert(bits == OPAQUE_BITS);
        assert(m == HIDDEN_BIT);
    } else {
        if k < 1021 {
            lemma_pow2_strictly_increases(k, 1021);
        }
        assert(m * pow2(k) <= 0x20_0000_0000_0000 * pow2(1021)) by (nonlinear_arith)
            requires
                m <= 0x20_0000_0000_0000,
                pow2(k) <= pow2(1021),
        ;
    }
}

/// Two bit patterns up to that of one with the same value are the same.
pub proof fn lemma_value_tells_bits(a: u64, b: u64)
    requires
        a <= OPAQUE_BITS,
        b <= OPAQUE_BITS,
        value_of(a) == value_of(b),
    ensures
        a == b,
{
    lemma_parts(a);
    lemma_parts(b);
    lemma_significand_powers();
    let ka = scale(a);
    let kb = scale(b);
    let ma = significand(a);
    let mb = significand(b);
    lemma_pow2_pos(ka);
    lemma_pow2_pos(kb);
    if ka > kb {
        lemma_value_order(mb, kb, ma, ka);
    } else if kb > ka {
        lemma_value_order(ma, ka, mb, kb);
    } else {
        assert(ma == mb) by (nonlinear_arith)
            requires
                ma * pow2(ka) == mb * pow2(ka),
                pow2(ka) > 0,
        ;
        lemma_fundamental_div_mod(a as int, HIDDEN_BIT as int);
        lemma_fundamental_div_mod(b as int, HIDDEN_BIT as int);
    }
}

/// The value of a bit pattern up to that of one is representable.
pub proof fn lemma_value_representable(bits: u64)
    requires
        bits <= OPAQUE_BITS,
    ensures
        value_of(bits) % spacing(value_of(bits)) == 0,
{
    let m = significand(bits);
    let k = scale(bits);
    lemma_parts(bits);
    lemma_significand_powers();
    lemma_pow2_pos(k);
    if k == 0 {
        lemma_low_scale(m);
        assert(spacing(m) == 1);
    } else {
        lemma_pow2_adds(52, k);
        lemma_pow2_adds(53, k);
        assert(pow2(52) * pow2(k) <= m * pow2(k) < pow2(53) * pow2(k)) by (nonlinear_arith)
            requires
                pow2(52) <= m < pow2(53),
                pow2(k) > 0,
        ;
        lemma_spacing_in_binade(m * pow2(k), k);
        lemma_mod_multiples_basic(m as int, pow2(k) as int);
    }
}

/// The mean does not tell its first value from its second.
pub proof fn lemma_mean_commutes(a: nat, b: nat)
    ensures
        mean_of(a, b) == mean_of(b, a),
{
    assert(a + b == b + a);
}

/// The mean of a value and itself is the value.
pub proof fn lemma_mean_of_equal(bits: u64)
    requires
        bits <= OPAQUE_BITS,
    ensures
        mean_of(value_of(bits), value_of(bits)) == value_of(bits),
{
    let v = value_of(bits);
    lemma_value_representable(bits);
    lemma_rounded_exact(v);
    lemma_rounded_doubles(v);
    assert(v + v == 2 * v);
    assert(2 * v == v * 2);
    assert(1nat * 2 == 2);
    lemma_rounded_cancel(v, 1, 2);
}

/// The mean of two representable values lies between them.
pub proof fn lemma_mean_between(a: nat, b: nat)
    requires
        a <= b,
        a % spacing(a) == 0,
        b % spacing(b) == 0,
    ensures
        a <= mean_of(a, b) <= b,
{
    let n = a + b;
    let r = rounded(n, 1);
    lemma_rounded_exact(a);
    lemma_rounded_exact(b);
    lemma_rounded_doubles(a);
    lemma_rounded_doubles(b);
    lemma_rounded_representable(2 * a, 1);
    lemma_rounded_representable(2 * b, 1);
    assert((2 * a) * 1 == 2 * a && (2 * b) * 1 == 2 * b);
    lemma_rounded_above(n, 1, 2 * a);
    lemma_rounded_below(n, 1, 2 * b);
    lemma_rounded_above(r, 2, a);
    lemma_rounded_below(r, 2, b);
}

/// Where the sum of two values and its half are representable, the mean is
/// the exact half of the sum.
pub proof fn lemma_mean_exact(a: nat, b: nat)
    requires
        (a + b) % 2 == 0,
        (a + b) % spacing(a + b) == 0,
        ((a + b) / 2) % spacing((a + b) / 2) == 0,
    ensures
        mean_of(a, b) == (a + b) / 2,
{
    let n = a + b;
    let h = n / 2;
    lemma_rounded_exact(n);
    lemma_rounded_exact(h);
    assert(n == h * 2);
    assert(1nat * 2 == 2);
    lemma_rounded_cancel(h, 1, 2);
}

/// 2^108: the rounded sum of two significands, the greater of them up to 54
/// binary places above the other, stays below it.
const SUM_END: u128 = 0x1000_0000_0000_0000_0000_0000_0000;

/// The significand of a bit pattern.
fn significand_part(bits: u64) -> (m: u64)
    ensures
        m == significand(bits),
{
    if bits / HIDDEN_BIT == 0 {
        bits % HIDDEN_BIT
    } else {
        HIDDEN_BIT + bits % HIDDEN_BIT
    }
}

/// The scale of a bit pattern.
fn scale_part(bits: u64) -> (k: u64)
    ensures
        k == scale(bits),
{
    if bits / HIDDEN_BIT == 0 {
        0
    } else {
        bits / HIDDEN_BIT - 1
    }
}

/// The power of two with a small exponent.
fn power_of_two(d: u64) -> (p: u128)
    requires
        d <= 54,
    ensures
        p == pow2(d as nat),
        p <= 0x40_0000_0000_0000,
{
    let mut p: u128 = 1;
    let mut i: u64 = 0;
    proof {
        lemma2_to64();
        lemma2_to64_rest();
    }
    while i < d
        invariant
            i <= d <= 54,
            p == pow2(i as nat),
            pow2(54) == 0x40_0000_0000_0000,
        decreases d - i,
    {
        proof {
            lemma_pow2_unfold((i + 1) as nat);
            if i + 1 < 54 {
                lemma_pow2_strictly_increases((i + 1) as nat, 54);
            }
        }
        p = p * 2;
        i = i + 1;
    }
    proof {
        if d < 54 {
            lemma_pow2_strictly_increases(d as nat, 54);
        }
    }
    p
}

/// The bit pattern of the mean of two alpha values, `(a + b) / 2.0`.
fn mean_bits(a: u64, b: u64) -> (mean: u64)
    requires
        a <= OPAQUE_BITS,
        b <= OPAQUE_BITS,
    ensures
        mean <= OPAQUE_BITS,
        value_of(mean) == mean_of(value_of(a), value_of(b)),
{
    let ma: u64 = significand_part(a);
    let ka: u64 = scale_part(a);
    let mb: u64 = significand_part(b);
    let kb: u64 = scale_part(b);
    let (m_hi, k_hi, m_lo, k_lo) = if ka >= kb {
        (ma, ka, mb, kb)
    } else {
        (mb, kb, ma, ka)
    };
    let ghost total = value_of(a) + value_of(b);
    let ghost target = mean_of(value_of(a), value_of(b));
    proof {
        lemma_parts(a);
        lemma_parts(b);
        lemma_mean_bound(value_of(a), value_of(b));
        lemma_significand_powers();
        assert(total == m_hi as nat * pow2(k_hi as nat) + m_lo as nat * pow2(k_lo as nat));
    }
    let d: u64 = k_hi - k_lo;
    let r: u128;
    let k: u64;
    if d >= 55 {
        proof {
            lemma_sum_far(m_hi as nat, m_lo as nat, d as nat, k_lo as nat);
            assert(spacing(m_hi as nat) == 1);
        }
        r = m_hi as u128;
        k = k_hi;
    } else {
        let p: u128 = power_of_two(d);
        assert(m_hi as u128 * p <= 0x20_0000_0000_0000 * 0x40_0000_0000_0000) by (nonlinear_arith)
            requires
                m_hi <= 0x20_0000_0000_0000,
                p <= 0x40_0000_0000_0000,
        ;
        let s: u128 = m_hi as u128 * p + m_lo as u128;
        proof {
            lemma_sum_near(m_hi as nat, m_lo as nat, d as nat, k_lo as nat);
            lemma_rounded_representable(s as nat, 1);
            lemma_pow2_adds(64, 44);
            lemma2_to64();
            lemma2_to64_rest();
            lemma_pow2_adds(53, 55);
            lemma_pow2_adds(55, 53);
            assert(s as nat / 1 == s as nat);
            lemma_spacing_positive(s as nat);
            lemma_spacing_divides(s as nat, 55);
            lemma_pow2_pos(55);
            lemma_mod_multiples_basic(pow2(53) as int, pow2(55) as int);
            lemma_divides_passes_on(spacing(s as nat), pow2(55), SUM_END as nat);
            lemma_rounded_at_most(s as nat, 1, SUM_END as nat);
        }
        r = round_quotient(s, 1);
        k = k_lo;
    }
    assert(rounded(total, 1) == r * pow2(k as nat));
    assert(r as nat % spacing(r as nat) == 0);
    assert(r <= SUM_END);
    let mut h: u128;
    let mut e: u64;
    if k >= 1 {
        proof {
            lemma_half(r as nat, k as nat);
        }
        h = r;
        e = k - 1;
    } else {
        proof {
            lemma2_to64();
            assert(r * pow2(0) == r) by (nonlinear_arith)
                requires
                    pow2(0) == 1,
            ;
            lemma_rounded_representable(r as nat, 2);
            lemma_pow2_adds(64, 44);
            lemma2_to64_rest();
            lemma_pow2_adds(53, 55);
            lemma_spacing_positive(r as nat / 2);
            lemma_spacing_divides(r as nat / 2, 55);
            lemma_pow2_pos(55);
            lemma_mod_multiples_basic(pow2(53) as int, pow2(55) as int);
            lemma_mul_is_commutative(pow2(53) as int, pow2(55) as int);
            lemma_divides_passes_on(spacing(r as nat / 2), pow2(55), SUM_END as nat);
            lemma_rounded_at_most(r as nat, 2, SUM_END as nat);
        }
        h = round_quotient(r, 2);
        e = 0;
        assert(h * pow2(0) == h) by (nonlinear_arith)
            requires
                pow2(0) == 1,
        ;
    }
    assert(target == h * pow2(e as nat));
    while h >= SIGNIFICAND_END
        invariant
            target == h * pow2(e as nat),
            target <= pow2(1074),
            h as nat % spacing(h as nat) == 0,
            e <= 1022,
            h <= SUM_END,
        decreases h,
    {
        proof {
            let step = spacing((h / 2) as nat);
            let j = h as nat / (2 * step);
            lemma_spacing_positive((h / 2) as nat);
            lemma_fundamental_div_mod(h as int, (2 * step) as int);
            assert(h == 2 * (step * j)) by (nonlinear_arith)
                requires
                    h == (2 * step) * j,
            ;
            lemma_mul_is_commutative(step as int, j as int);
            lemma_mod_multiples_basic(j as int, step as int);
            lemma_significand_powers();
            lemma_pow2_adds(53, e as nat);
            lemma_pow2_unfold((e + 1) as nat);
            lemma_pow2_pos(e as nat);
            assert(pow2(53) * pow2(e as nat) <= h * pow2(e as nat)) by (nonlinear_arith)
                requires
                    pow2(53) <= h,
            ;
            if 53 + e > 1074 {
                lemma_pow2_strictly_increases(1074, (53 + e) as nat);
            }
            assert((h / 2) * pow2((e + 1) as nat) == h * pow2(e as nat)) by (nonlinear_arith)
                requires
                    h == 2 * (h / 2),
                    pow2((e + 1) as nat) == 2 * pow2(e as nat),
            ;
        }
        h = h / 2;
        e = e + 1;
    }
    while h < HIDDEN_BIT as u128 && e > 0
        invariant
            target == h * pow2(e as nat),
            target <= pow2(1074),
            h < SIGNIFICAND_END,
            e <= 1022,
        decreases e,
    {
        proof {
            lemma_pow2_unfold(e as nat);
            assert((2 * h) * pow2((e - 1) as nat) == h * pow2(e as nat)) by (nonlinear_arith)
                requires
                    pow2(e as nat) == 2 * pow2((e - 1) as nat),
            ;
        }
        h = h * 2;
        e = e - 1;
    }
    if h >= HIDDEN_BIT as u128 {
        proof {
            lemma_pow2_adds(52, 1022);
            lemma_significand_powers();
            lemma_pow2_pos(1022);
            if e == 1022 && h > HIDDEN_BIT {
                assert(h * pow2(1022) > pow2(52) * pow2(1022)) by (nonlinear_arith)
                    requires
                        h > pow2(52),
                        pow2(1022) > 0,
                ;
            }
            lemma_high_bits(h as u64, e);
        }
        (e + 1) * HIDDEN_BIT + (h as u64 - HIDDEN_BIT)
    } else {
        proof {
            lemma_low_bits(h as u64);
        }
        h as u64
    }
}

/// A value with its hidden bit at a greater scale is the greater value.
proof fn lemma_value_order(m_lo: nat, k_lo: nat, m_hi: nat, k_hi: nat)
    requires
        m_lo < SIGNIFICAND_END,
        m_hi >= HIDDEN_BIT,
        k_lo < k_hi,
    ensures
        m_lo * pow2(k_lo) < m_hi * pow2(k_hi),
{
    lemma_significand_powers();
    lemma_pow2_pos(k_lo);
    lemma_pow2_unfold(k_lo + 1);
    if k_lo + 1 < k_hi {
        lemma_pow2_strictly_increases(k_lo + 1, k_hi);
    }
    assert(m_lo * pow2(k_lo) < m_hi * pow2(k_hi)) by (nonlinear_arith)
        requires
            m_lo < 2 * 0x10_0000_0000_0000,
            m_hi >= 0x10_0000_0000_0000,
            pow2(k_hi) >= 2 * pow2(k_lo),
            pow2(k_lo) > 0,
    ;
}

/// At the scale zero a significand is the value.
proof fn lemma_low_scale(m: nat)
    ensures
        m * pow2(0) == m,
{
    lemma2_to64();
    assert(m * pow2(0) == m) by (nonlinear_arith)
        requires
            pow2(0) == 1,
    ;
}

/// The sum of two values whose significands lie at least 55 binary places
/// apart rounds to the greater of the two.
proof fn lemma_sum_far(m_hi: nat, m_lo: nat, d: nat, k_lo: nat)
    requires
        HIDDEN_BIT <= m_hi < SIGNIFICAND_END,
        m_lo < SIGNIFICAND_END,
        d >= 55,
    ensures
        rounded(m_hi * pow2(d + k_lo) + m_lo * pow2(k_lo), 1) == m_hi * pow2(d + k_lo),
{
    let p = pow2(d);
    let s = m_hi * p + m_lo;
    lemma_significand_powers();
    lemma2_to64_rest();
    lemma_pow2_adds(d, k_lo);
    lemma_pow2_adds(52, d);
    lemma_pow2_adds(53, d);
    lemma_pow2_strictly_increases(54, d);
    assert(m_hi * pow2(d + k_lo) + m_lo * pow2(k_lo) == s * pow2(k_lo)) by (nonlinear_arith)
        requires
            pow2(d + k_lo) == p * pow2(k_lo),
            s == m_hi * p + m_lo,
    ;
    lemma_rounded_scales(s, k_lo);
    assert(pow2(52) * p <= s < pow2(53) * p) by (nonlinear_arith)
        requires
            s == m_hi * p + m_lo,
            pow2(52) <= m_hi,
            m_hi + 1 <= pow2(53),
            m_lo < p,
    ;
    lemma_spacing_in_binade(s, d);
    lemma_fundamental_div_mod_converse(s as int, p as int, m_hi as int, m_lo as int);
    assert(s / 1 == s);
    assert(1 * p == p);
    assert(nearest(s, p) == m_hi);
    assert(rounded(s, 1) == m_hi * p);
    assert((m_hi * p) * pow2(k_lo) == m_hi * pow2(d + k_lo)) by (nonlinear_arith)
        requires
            pow2(d + k_lo) == p * pow2(k_lo),
    ;
}

/// The sum of two values rounds as the sum of their significands does,
/// brought to the scale of the smaller.
proof fn lemma_sum_near(m_hi: nat, m_lo: nat, d: nat, k_lo: nat)
    ensures
        rounded(m_hi * pow2(d + k_lo) + m_lo * pow2(k_lo), 1) == rounded(
            m_hi * pow2(d) + m_lo,
            1,
        ) * pow2(k_lo),
{
    let p = pow2(d);
    let s = m_hi * p + m_lo;
    lemma_pow2_adds(d, k_lo);
    assert(m_hi * pow2(d + k_lo) + m_lo * pow2(k_lo) == s * pow2(k_lo)) by (nonlinear_arith)
        requires
            pow2(d + k_lo) == p * pow2(k_lo),
            s == m_hi * p + m_lo,
    ;
    lemma_rounded_scales(s, k_lo);
}

/// Half of a representable value above the lowest binade is exact.
proof fn lemma_half(r: nat, k: nat)
    requires
        r % spacing(r) == 0,
        k >= 1,
    ensures
        rounded(r * pow2(k), 2) == r * pow2((k - 1) as nat),
{
    let n = r * pow2((k - 1) as nat);
    lemma_pow2_unfold(k);
    assert(r * pow2(k) == n * 2) by (nonlinear_arith)
        requires
            n == r * pow2((k - 1) as nat),
            pow2(k) == 2 * pow2((k - 1) as nat),
    ;
    assert(1nat * 2 == 2);
    lemma_rounded_cancel(n, 1, 2);
    lemma_rounded_scales(r, (k - 1) as nat);
    lemma_rounded_exact(r);
}

/// The mean of two values up to one is at most one.
proof fn lemma_mean_bound(a: nat, b: nat)
    requires
        a <= pow2(1074),
        b <= pow2(1074),
    ensures
        rounded(a + b, 1) <= pow2(1075),
        mean_of(a, b) <= pow2(1074),
{
    let n = a + b;
    let r = rounded(n, 1);
    lemma_pow2_unfold(1075);
    lemma_pow2_unfold(1076);
    lemma_pow2_adds(1023, 52);
    lemma_pow2_adds(1023, 51);
    lemma_pow2_pos(1023);
    lemma_pow2_pos(1074);
    lemma_mod_multiples_basic(pow2(52) as int, pow2(1023) as int);
    lemma_mod_multiples_basic(pow2(51) as int, pow2(1023) as int);
    lemma_mul_is_commutative(pow2(52) as int, pow2(1023) as int);
    lemma_mul_is_commutative(pow2(51) as int, pow2(1023) as int);
    assert(n / 1 == n);
    lemma_spacing_positive(n);
    lemma_spacing_divides(n, 1023);
    lemma_divides_passes_on(spacing(n), pow2(1023), pow2(1075));
    assert(pow2(1075) * 1 == pow2(1075));
    lemma_rounded_at_most(n, 1, pow2(1075));
    let q = r / 2;
    lemma_spacing_positive(q);
    lemma_spacing_divides(q, 1023);
    lemma_divides_passes_on(spacing(q), pow2(1023), pow2(1074));
    lemma_rounded_at_most(r, 2, pow2(1074));
}

/// The bit pattern of a value in the lowest binade is its count of units.
proof fn lemma_low_bits(h: u64)
    requires
        h < HIDDEN_BIT,
    ensures
        value_of(h) == h,
{
    lemma2_to64();
    assert(h as nat * pow2(0) == h) by (nonlinear_arith)
        requires
            pow2(0) == 1,
    ;
}

/// The bit pattern of a significand with its hidden bit, at a scale.
proof fn lemma_high_bits(h: u64, k: u64)
    requires
        HIDDEN_BIT <= h < SIGNIFICAND_END,
        k <= 1022,
    ensures
        (k + 1) * HIDDEN_BIT + (h - HIDDEN_BIT) <= u64::MAX,
        value_of(((k + 1) * HIDDEN_BIT + (h - HIDDEN_BIT)) as u64) == h * pow2(k as nat),
        k < 1022 || h == HIDDEN_BIT ==> (k + 1) * HIDDEN_BIT + (h - HIDDEN_BIT) <= OPAQUE_BITS,
{
    let bits = ((k + 1) * HIDDEN_BIT + (h - HIDDEN_BIT)) as u64;
    lemma_fundamental_div_mod_converse(
        bits as int,
        HIDDEN_BIT as int,
        (k + 1) as int,
        (h - HIDDEN_BIT) as int,
    );
}

} // verus!
