//! Rounding as binary64 (double precision) arithmetic rounds, carried out on
//! whole numbers.
//!
//! A value is a whole number of units. The unit is a power of two, chosen by
//! the user of this module so that every value at hand is a whole number of
//! units. A binary64 value has 53 significant bits: counted in units, the
//! representable values are the whole numbers below 2^53, every second one
//! from there to 2^54, every fourth one from there to 2^55, and so on.
//! Rounding yields the representable value nearest to the exact one, and the
//! one with an even significand where two are equally near, as the default
//! rounding of IEEE 754 does.
//!
//! With the smallest positive binary64 value as the unit this is all of
//! binary64 arithmetic short of overflow. With a greater unit it is exact
//! for the results that are zero or at least 2^52 units.

use vstd::prelude::*;
use vstd::arithmetic::div_mod::*;
use vstd::arithmetic::mul::*;
use vstd::arithmetic::power2::*;

verus! {

/// 2^53: a whole number below it has at most 53 significant bits.
pub const SIGNIFICAND_END: u128 = 0x20_0000_0000_0000;

/// The largest numerator that the rounding division takes: 2^126.
pub const NUMERATOR_MAX: u128 = 0x4000_0000_0000_0000_0000_0000_0000_0000;

/// The distance between neighbouring representable values at a value of
/// `q` units, and up to a unit more.
pub open spec fn spacing(q: nat) -> nat
    decreases q,
{
    if q < SIGNIFICAND_END {
        1
    } else {
        2 * spacing(q / 2)
    }
}

/// The whole number nearest to `num / den`; where two are equally near, the
/// even one.
pub open spec fn nearest(num: nat, den: nat) -> nat {
    let q = num / den;
    let r = num % den;
    if 2 * r < den || (2 * r == den && q % 2 == 0) {
        q
    } else {
        q + 1
    }
}

/// The representable value nearest to `num / den` units.
pub open spec fn rounded(num: nat, den: nat) -> nat {
    let step = spacing(num / den);
    nearest(num, den * step) * step
}

/// Rounds `num / den` units to the nearest representable value.
pub fn round_quotient(num: u128, den: u128) -> (r: u128)
    requires
        0 < den <= NUMERATOR_MAX,
        num <= NUMERATOR_MAX,
    ensures
        r == rounded(num as nat, den as nat),
{
    let q: u128 = num / den;
    let mut t: u128 = q;
    let mut step: u128 = 1;
    while t >= SIGNIFICAND_END
        invariant
            1 <= step,
            step * t <= q,
            q <= NUMERATOR_MAX,
            step == 1 || 2 * t >= SIGNIFICAND_END,
            spacing(q as nat) == step * spacing(t as nat),
        decreases t,
    {
        assert((2 * step) * (t / 2) <= step * t) by (nonlinear_arith)
            requires
                step >= 1,
        ;
        assert(step * t >= step) by (nonlinear_arith)
            requires
                t >= 1,
                step >= 1,
        ;
        assert((2 * step) * spacing((t / 2) as nat) == step * (2 * spacing((t / 2) as nat)))
            by (nonlinear_arith);
        t = t / 2;
        step = step * 2;
    }
    assert(spacing(t as nat) == 1);
    assert(spacing(q as nat) == step);
    assert(q * den <= num) by {
        lemma_fundamental_div_mod(num as int, den as int);
        lemma_mul_is_commutative(q as int, den as int);
    }
    assert(den * step <= num || step == 1) by {
        if step != 1 {
            assert(t >= 1);
            assert(den * step <= den * (step * t)) by (nonlinear_arith)
                requires
                    t >= 1,
                    step >= 1,
                    den >= 1,
            ;
            assert(den * (step * t) <= q * den) by (nonlinear_arith)
                requires
                    step * t <= q,
                    den >= 1,
            ;
        }
    }
    assert(den * step >= 1) by (nonlinear_arith)
        requires
            den >= 1,
            step >= 1,
    ;
    let unit: u128 = den * step;
    let count: u128 = num / unit;
    let rest: u128 = num % unit;
    assert(count * step <= num) by {
        lemma_fundamental_div_mod(num as int, unit as int);
        assert(count * step <= unit * count) by (nonlinear_arith)
            requires
                unit == den * step,
                den >= 1,
        ;
    }
    assert(step <= num || step == 1) by {
        if step != 1 {
            assert(step <= den * step) by (nonlinear_arith)
                requires
                    den >= 1,
            ;
        }
    }
    let m: u128 = if 2 * rest < unit || (2 * rest == unit && count % 2 == 0) {
        count
    } else {
        count + 1
    };
    assert(m * step <= count * step + step) by (nonlinear_arith)
        requires
            m <= count + 1,
    ;
    m * step
}

/// The powers of two that bound a significand.
pub proof fn lemma_significand_powers()
    ensures
        pow2(52) == 0x10_0000_0000_0000,
        pow2(53) == SIGNIFICAND_END,
{
    lemma2_to64_rest();
}

/// The spacing is never zero.
pub proof fn lemma_spacing_positive(q: nat)
    ensures
        spacing(q) >= 1,
    decreases q,
{
    if q >= SIGNIFICAND_END {
        lemma_spacing_positive(q / 2);
    }
}

/// Divisibility passes on: what `b` divides, each divisor of `b` divides.
pub proof fn lemma_divides_passes_on(a: nat, b: nat, c: nat)
    requires
        a > 0,
        b > 0,
        b % a == 0,
        c % b == 0,
    ensures
        c % a == 0,
{
    let j = b / a;
    let k = c / b;
    lemma_fundamental_div_mod(b as int, a as int);
    lemma_fundamental_div_mod(c as int, b as int);
    assert(c == (k * j) * a) by (nonlinear_arith)
        requires
            b == a * j,
            c == b * k,
    ;
    lemma_mod_multiples_basic((k * j) as int, a as int);
}

/// From 2^(52+k) units upward the spacing is a multiple of 2^k.
pub proof fn lemma_spacing_multiple(q: nat, k: nat)
    requires
        q >= pow2(52 + k),
    ensures
        spacing(q) % pow2(k) == 0,
    decreases k,
{
    lemma_significand_powers();
    lemma_pow2_pos(k);
    if k == 0 {
        lemma2_to64();
    } else {
        lemma_pow2_unfold(52 + k);
        lemma_pow2_unfold(k);
        lemma_pow2_pos((k - 1) as nat);
        if k > 1 {
            lemma_pow2_strictly_increases(53, 52 + k);
        }
        lemma_spacing_multiple(q / 2, (k - 1) as nat);
        lemma_truncate_middle(spacing(q / 2) as int, 2, pow2((k - 1) as nat) as int);
    }
}

/// Below 2^(53+k) units the spacing divides 2^k.
pub proof fn lemma_spacing_divides(q: nat, k: nat)
    requires
        q < pow2(53 + k),
    ensures
        pow2(k) % spacing(q) == 0,
    decreases k,
{
    lemma_significand_powers();
    lemma_pow2_pos(k);
    if q >= SIGNIFICAND_END {
        assert(k > 0);
        lemma_pow2_unfold(53 + k);
        lemma_pow2_unfold(k);
        lemma_spacing_positive(q / 2);
        lemma_spacing_divides(q / 2, (k - 1) as nat);
        lemma_truncate_middle(pow2((k - 1) as nat) as int, 2, spacing(q / 2) as int);
    }
}

/// Below 2^(53+k) units the spacing is at most 2^k.
pub proof fn lemma_spacing_at_most(q: nat, k: nat)
    requires
        q < pow2(53 + k),
    ensures
        spacing(q) <= pow2(k),
{
    lemma_spacing_divides(q, k);
    lemma_spacing_positive(q);
    lemma_pow2_pos(k);
    if spacing(q) > pow2(k) {
        lemma_small_mod(pow2(k), spacing(q));
    }
}

/// In the binade from 2^(52+k) units the spacing is 2^k.
pub proof fn lemma_spacing_in_binade(q: nat, k: nat)
    requires
        pow2(52 + k) <= q < pow2(53 + k),
    ensures
        spacing(q) == pow2(k),
{
    lemma_spacing_multiple(q, k);
    lemma_spacing_divides(q, k);
    lemma_spacing_positive(q);
    lemma_pow2_pos(k);
    if spacing(q) < pow2(k) {
        lemma_small_mod(spacing(q), pow2(k));
    }
    if pow2(k) < spacing(q) {
        lemma_small_mod(pow2(k), spacing(q));
    }
}

/// The binade of a value of at least 2^52 units.
pub proof fn binade_of(q: nat) -> (k: nat)
    requires
        q >= 0x10_0000_0000_0000,
    ensures
        pow2(52 + k) <= q < pow2(53 + k),
    decreases q,
{
    lemma_significand_powers();
    if q < SIGNIFICAND_END {
        0
    } else {
        let k = binade_of(q / 2);
        lemma_pow2_unfold(52 + k + 1);
        lemma_pow2_unfold(53 + k + 1);
        k + 1
    }
}

/// Rounding to a whole number is the same for `n / d` and `(n c) / (d c)`.
pub proof fn lemma_nearest_cancel(n: nat, d: nat, c: nat)
    requires
        d > 0,
        c > 0,
    ensures
        nearest(n * c, d * c) == nearest(n, d),
{
    lemma_div_multiples_vanish_quotient(c as int, n as int, d as int);
    lemma_truncate_middle(n as int, c as int, d as int);
    lemma_mul_is_commutative(n as int, c as int);
    lemma_mul_is_commutative(d as int, c as int);
    let r = n % d;
    assert((n * c) % (d * c) == c * r);
    assert(2 * (c * r) < d * c <==> 2 * r < d) by (nonlinear_arith)
        requires
            c > 0,
    ;
    assert(2 * (c * r) == d * c <==> 2 * r == d) by (nonlinear_arith)
        requires
            c > 0,
    ;
}

/// A factor common to numerator and denominator does not change the
/// rounded value.
pub proof fn lemma_rounded_cancel(n: nat, d: nat, c: nat)
    requires
        d > 0,
        c > 0,
    ensures
        rounded(n * c, d * c) == rounded(n, d),
{
    lemma_div_multiples_vanish_quotient(c as int, n as int, d as int);
    lemma_mul_is_commutative(n as int, c as int);
    lemma_mul_is_commutative(d as int, c as int);
    let step = spacing(n / d);
    lemma_spacing_positive(n / d);
    assert(d * step > 0) by (nonlinear_arith)
        requires
            d > 0,
            step > 0,
    ;
    assert((d * c) * step == (d * step) * c) by (nonlinear_arith);
    lemma_nearest_cancel(n, d * step, c);
}

/// Zero rounds to zero.
pub proof fn lemma_rounded_zero(d: nat)
    requires
        d > 0,
    ensures
        rounded(0, d) == 0,
{
    let step = spacing(0nat / d);
    assert(0nat / d == 0) by (nonlinear_arith)
        requires
            d > 0,
    ;
    assert(step == 1);
    assert(d * step == d) by (nonlinear_arith)
        requires
            step == 1,
    ;
    assert(0nat % d == 0) by (nonlinear_arith)
        requires
            d > 0,
    ;
    assert(nearest(0, d) == 0);
    assert(nearest(0, d) * step == 0) by (nonlinear_arith)
        requires
            nearest(0, d) == 0,
    ;
}

/// A representable value rounds to itself.
pub proof fn lemma_rounded_exact(n: nat)
    requires
        n % spacing(n) == 0,
    ensures
        rounded(n, 1) == n,
{
    let step = spacing(n);
    lemma_spacing_positive(n);
    lemma_fundamental_div_mod(n as int, step as int);
    assert(1 * step == step);
    assert(n / 1 == n);
    assert((n / step) * step == n) by (nonlinear_arith)
        requires
            n == step * (n / step),
    ;
}

/// What divides the spacing at the exact value divides the rounded value.
pub proof fn lemma_rounded_multiple(n: nat, d: nat, grain: nat)
    requires
        d > 0,
        grain > 0,
        spacing(n / d) % grain == 0,
    ensures
        rounded(n, d) % grain == 0,
{
    let step = spacing(n / d);
    lemma_spacing_positive(n / d);
    let m = nearest(n, d * step);
    lemma_mod_multiples_basic(m as int, step as int);
    if m * step > 0 {
        lemma_divides_passes_on(grain, step, m * step);
    } else {
        assert(m * step == 0);
    }
}

/// A representable bound above the exact value is above the rounded value.
pub proof fn lemma_rounded_at_most(n: nat, d: nat, bound: nat)
    requires
        d > 0,
        n <= bound * d,
        bound % spacing(n / d) == 0,
    ensures
        rounded(n, d) <= bound,
{
    let step = spacing(n / d);
    lemma_spacing_positive(n / d);
    let unit = d * step;
    let top = bound / step;
    assert(unit > 0) by (nonlinear_arith)
        requires
            unit == d * step,
            d > 0,
            step > 0,
    ;
    lemma_fundamental_div_mod(bound as int, step as int);
    assert(bound * d == unit * top) by (nonlinear_arith)
        requires
            bound == step * top,
            unit == d * step,
    ;
    lemma_div_is_ordered(n as int, (unit * top) as int, unit as int);
    lemma_div_multiples_vanish(top as int, unit as int);
    lemma_fundamental_div_mod(n as int, unit as int);
    let m = nearest(n, unit);
    if n / unit == top {
        assert(unit * (n / unit) == unit * top);
        assert(n % unit == 0);
    }
    assert(m <= top);
    assert(m * step <= top * step) by (nonlinear_arith)
        requires
            m <= top,
    ;
    assert(top * step == bound) by (nonlinear_arith)
        requires
            bound == step * top,
    ;
}

/// A representable bound below the exact value is below the rounded value.
pub proof fn lemma_rounded_at_least(n: nat, d: nat, bound: nat)
    requires
        d > 0,
        n >= bound * d,
        bound % spacing(n / d) == 0,
    ensures
        rounded(n, d) >= bound,
{
    let step = spacing(n / d);
    lemma_spacing_positive(n / d);
    let unit = d * step;
    let top = bound / step;
    assert(unit > 0) by (nonlinear_arith)
        requires
            unit == d * step,
            d > 0,
            step > 0,
    ;
    lemma_fundamental_div_mod(bound as int, step as int);
    assert(bound * d == unit * top) by (nonlinear_arith)
        requires
            bound == step * top,
            unit == d * step,
    ;
    lemma_div_is_ordered((unit * top) as int, n as int, unit as int);
    lemma_div_multiples_vanish(top as int, unit as int);
    let m = nearest(n, unit);
    assert(m >= top);
    assert(m * step >= top * step) by (nonlinear_arith)
        requires
            m >= top,
    ;
    assert(top * step == bound) by (nonlinear_arith)
        requires
            bound == step * top,
    ;
}

/// Rounding keeps the order, from below: a representable value up to the
/// exact value is up to the rounded value.
pub proof fn lemma_rounded_above(n: nat, d: nat, bound: nat)
    requires
        d > 0,
        bound * d <= n,
        bound % spacing(bound) == 0,
    ensures
        rounded(n, d) >= bound,
{
    let q = n / d;
    lemma_significand_powers();
    lemma_mul_is_commutative(bound as int, d as int);
    lemma_div_is_ordered((d * bound) as int, n as int, d as int);
    lemma_div_multiples_vanish(bound as int, d as int);
    assert(bound <= q);
    if q < SIGNIFICAND_END {
        assert(spacing(q) == 1);
        lemma_rounded_at_least(n, d, bound);
    } else {
        let k = binade_of(q);
        lemma_spacing_in_binade(q, k);
        lemma_pow2_pos(k);
        if bound >= pow2(52 + k) {
            lemma_spacing_in_binade(bound, k);
            lemma_rounded_at_least(n, d, bound);
        } else {
            let edge = pow2(52 + k);
            lemma_pow2_adds(52, k);
            lemma_mod_multiples_basic(pow2(52) as int, pow2(k) as int);
            lemma_fundamental_div_mod(n as int, d as int);
            assert(edge * d <= q * d) by (nonlinear_arith)
                requires
                    edge <= q,
            ;
            lemma_mul_is_commutative(q as int, d as int);
            lemma_rounded_at_least(n, d, edge);
        }
    }
}

/// Rounding keeps the order, from above: a representable value from the
/// exact value upward is at least the rounded value.
pub proof fn lemma_rounded_below(n: nat, d: nat, bound: nat)
    requires
        d > 0,
        n <= bound * d,
        bound % spacing(bound) == 0,
    ensures
        rounded(n, d) <= bound,
{
    let q = n / d;
    lemma_significand_powers();
    lemma_mul_is_commutative(bound as int, d as int);
    lemma_div_is_ordered(n as int, (d * bound) as int, d as int);
    lemma_div_multiples_vanish(bound as int, d as int);
    assert(q <= bound);
    if q < SIGNIFICAND_END {
        assert(spacing(q) == 1);
        lemma_rounded_at_most(n, d, bound);
    } else {
        let k = binade_of(q);
        lemma_spacing_in_binade(q, k);
        lemma_pow2_pos(k);
        if bound < pow2(53 + k) {
            lemma_spacing_in_binade(bound, k);
            lemma_rounded_at_most(n, d, bound);
        } else {
            let edge = pow2(53 + k);
            lemma_pow2_adds(53, k);
            lemma_mod_multiples_basic(pow2(53) as int, pow2(k) as int);
            lemma_fundamental_div_mod(n as int, d as int);
            lemma_mod_bound(n as int, d as int);
            assert(d * q + d <= edge * d) by (nonlinear_arith)
                requires
                    q + 1 <= edge,
                    d > 0,
            ;
            lemma_rounded_at_most(n, d, edge);
        }
    }
}

/// The rounded value is within half the spacing of the exact one.
pub proof fn lemma_rounded_near(n: nat, d: nat)
    requires
        d > 0,
    ensures
        2 * (rounded(n, d) * d) <= 2 * n + d * spacing(n / d),
        2 * n <= 2 * (rounded(n, d) * d) + d * spacing(n / d),
{
    let step = spacing(n / d);
    lemma_spacing_positive(n / d);
    let unit = d * step;
    assert(unit > 0) by (nonlinear_arith)
        requires
            unit == d * step,
            d > 0,
            step > 0,
    ;
    let m = nearest(n, unit);
    let q = n / unit;
    let r = n % unit;
    lemma_fundamental_div_mod(n as int, unit as int);
    lemma_mod_bound(n as int, unit as int);
    assert((m * step) * d == m * unit) by (nonlinear_arith)
        requires
            unit == d * step,
    ;
    if m == q {
        assert(m * unit == unit * q) by (nonlinear_arith)
            requires
                m == q,
        ;
    } else {
        assert(m * unit == unit * q + unit) by (nonlinear_arith)
            requires
                m == q + 1,
        ;
    }
}

/// A rounded value is representable: a multiple of the spacing at itself.
pub proof fn lemma_rounded_representable(n: nat, d: nat)
    requires
        d > 0,
    ensures
        rounded(n, d) % spacing(rounded(n, d)) == 0,
{
    let q = n / d;
    let step = spacing(q);
    let unit = d * step;
    let m = nearest(n, unit);
    let r = m * step;
    lemma_significand_powers();
    lemma_spacing_positive(q);
    assert(unit > 0) by (nonlinear_arith)
        requires
            unit == d * step,
            d > 0,
            step > 0,
    ;
    if q < SIGNIFICAND_END {
        assert(unit == d) by (nonlinear_arith)
            requires
                unit == d * step,
                step == 1,
        ;
        assert(r == m) by (nonlinear_arith)
            requires
                r == m * step,
                step == 1,
        ;
        lemma_fundamental_div_mod(n as int, d as int);
        assert(m <= q + 1);
        if m < SIGNIFICAND_END {
            assert(spacing(m) == 1);
        } else {
            assert(m == SIGNIFICAND_END);
            assert(m / 2 == 0x10_0000_0000_0000);
            assert(spacing(m / 2) == 1);
            assert(spacing(m) == 2);
        }
        assert(r % spacing(r) == 0);
    } else {
        let k = binade_of(q);
        lemma_spacing_in_binade(q, k);
        lemma_pow2_adds(52, k);
        lemma_pow2_adds(53, k);
        lemma_pow2_pos(k);
        lemma_div_denominator(n as int, d as int, step as int);
        let low: nat = 0x10_0000_0000_0000;
        let high: nat = 0x20_0000_0000_0000;
        lemma_mul_is_commutative(low as int, step as int);
        lemma_mul_is_commutative(high as int, step as int);
        lemma_div_is_ordered((step * low) as int, q as int, step as int);
        lemma_div_multiples_vanish(low as int, step as int);
        assert(q / step < high) by {
            lemma_fundamental_div_mod(q as int, step as int);
            lemma_mod_bound(q as int, step as int);
            if q / step >= high {
                assert(step * (q / step) >= step * high) by (nonlinear_arith)
                    requires
                        q / step >= high,
                        step > 0,
                ;
            }
        }
        assert(low <= m <= high);
        assert(low * step <= r <= high * step) by (nonlinear_arith)
            requires
                r == m * step,
                low <= m <= high,
                step > 0,
        ;
        lemma_mod_multiples_basic(m as int, step as int);
        assert(n / unit == q / step);
        assert(m == q / step || m == q / step + 1);
        if r < pow2(53 + k) {
            lemma_spacing_in_binade(r, k);
            assert(r % spacing(r) == 0);
        } else {
            lemma_pow2_unfold(53 + k + 1);
            lemma_pow2_unfold(k + 1);
            assert(52 + (k + 1) == 53 + k);
            lemma_spacing_in_binade(r, k + 1);
            assert(r == (2 * step) * low) by (nonlinear_arith)
                requires
                    r == high * step,
                    high == 2 * low,
            ;
            lemma_mul_is_commutative((2 * step) as int, low as int);
            lemma_mod_multiples_basic(low as int, (2 * step) as int);
            assert(r % spacing(r) == 0);
        }
    }
    assert(rounded(n, d) == r);
}

/// Twice a whole number of units rounds to twice what the number rounds to.
pub proof fn lemma_rounded_doubles(n: nat)
    ensures
        rounded(2 * n, 1) == 2 * rounded(n, 1),
{
    let s = spacing(n);
    let t = spacing(2 * n);
    lemma_spacing_positive(n);
    assert((2 * n) / 1 == 2 * n);
    assert(n / 1 == n);
    assert(1 * s == s);
    assert(1 * t == t);
    assert(rounded(n, 1) == nearest(n, s) * s);
    assert(rounded(2 * n, 1) == nearest(2 * n, t) * t);
    if 2 * n < SIGNIFICAND_END {
        assert(t == 1);
        assert(s == 1);
        assert(nearest(2 * n, 1) == 2 * n);
        assert(nearest(n, 1) == n);
        assert(nearest(2 * n, t) * t == 2 * n) by (nonlinear_arith)
            requires
                nearest(2 * n, t) == 2 * n,
                t == 1,
        ;
        assert(nearest(n, s) * s == n) by (nonlinear_arith)
            requires
                nearest(n, s) == n,
                s == 1,
        ;
    } else {
        assert((2 * n) / 2 == n);
        assert(t == 2 * s);
        lemma_nearest_cancel(n, s, 2);
        assert(n * 2 == 2 * n && s * 2 == 2 * s);
        assert(nearest(2 * n, t) == nearest(n, s));
        assert(nearest(n, s) * (2 * s) == 2 * (nearest(n, s) * s)) by (nonlinear_arith);
    }
}

/// A whole number of units taken 2^k times rounds to 2^k times what the
/// number rounds to.
pub proof fn lemma_rounded_scales(n: nat, k: nat)
    ensures
        rounded(n * pow2(k), 1) == rounded(n, 1) * pow2(k),
    decreases k,
{
    if k == 0 {
        lemma2_to64();
        assert(n * pow2(0) == n) by (nonlinear_arith)
            requires
                pow2(0) == 1,
        ;
        assert(rounded(n, 1) * pow2(0) == rounded(n, 1)) by (nonlinear_arith)
            requires
                pow2(0) == 1,
        ;
    } else {
        let half = pow2((k - 1) as nat);
        lemma_pow2_unfold(k);
        lemma_rounded_scales(n, (k - 1) as nat);
        lemma_rounded_doubles(n * half);
        assert(n * pow2(k) == 2 * (n * half)) by (nonlinear_arith)
            requires
                pow2(k) == 2 * half,
        ;
        assert(rounded(n, 1) * pow2(k) == 2 * (rounded(n, 1) * half)) by (nonlinear_arith)
            requires
                pow2(k) == 2 * half,
        ;
    }
}

} // verus!
