//! Blend modes: how a source color combines with the backdrop it overlaps.
//!
//! Multiply works on whole numbers. Screen and overlay are defined on the
//! channels as parts of the largest channel, in binary64 arithmetic, and are
//! computed here to the last bit without a floating-point number: each step
//! is rounded as binary64 arithmetic rounds it. The laws at the end say how
//! the results relate to the exact values of the formulas.

use vstd::prelude::*;
use vstd::arithmetic::power2::pow2;
use crate::binary64::{
    lemma_divides_passes_on, lemma_rounded_at_least, lemma_rounded_at_most, lemma_rounded_cancel,
    lemma_rounded_exact, lemma_rounded_multiple, lemma_rounded_near, lemma_rounded_zero,
    lemma_spacing_at_most, lemma_spacing_divides, lemma_spacing_multiple, lemma_spacing_positive,
    round_quotient, rounded, spacing, NUMERATOR_MAX,
};
use crate::scaled::{
    difference, lemma_complement, lemma_double, lemma_powers, lemma_product,
    lemma_product_of_grains, lemma_times_255, product, quotient, truncated, whole, HALF, ONE,
};
use crate::alpha::{mean_of, Alpha, OPAQUE_BITS};
use crate::color::Color;

verus! {

/// 2^60 units: no channel but zero is a smaller part of the largest.
pub const SMALLEST_PART: u128 = 0x1000_0000_0000_0000;

/// The backdrop channel scaled by the source channel: `b * s / 255`, rounded
/// down.
pub open spec fn multiply_channel(backdrop: u8, source: u8) -> int {
    (backdrop as int * source as int) / 255
}

/// The channel as a part of the largest channel: `c / 255.0`.
pub open spec fn normalized(channel: u8) -> nat {
    quotient(whole(channel as nat), whole(255))
}

/// The channel that is the whole part of `x * 255.0`.
pub open spec fn channel_of(x: nat) -> int {
    truncated(product(x, whole(255))) as int
}

/// What is left of the light when backdrop and source each hold back their
/// part: `(1.0 - (1.0 - b) * (1.0 - s)) * 255.0` with `b` and `s` the
/// normalized channels, each step rounded as binary64 arithmetic rounds it
/// and the result cut down to a whole number.
pub open spec fn screen_channel(backdrop: u8, source: u8) -> int {
    let b = normalized(backdrop);
    let s = normalized(source);
    channel_of(
        difference(ONE as nat, product(difference(ONE as nat, b), difference(ONE as nat, s))),
    )
}

/// Multiply for a dark backdrop and screen for a light one, each at twice
/// its strength: `(2.0 * b * s) * 255.0` where the normalized backdrop `b`
/// is below one half, `(1.0 - 2.0 * (1.0 - b) * (1.0 - s)) * 255.0`
/// elsewhere, each step rounded as binary64 arithmetic rounds it and the
/// result cut down to a whole number.
pub open spec fn overlay_channel(backdrop: u8, source: u8) -> int {
    let b = normalized(backdrop);
    let s = normalized(source);
    if b < HALF {
        channel_of(product(product(whole(2), b), s))
    } else {
        channel_of(
            difference(
                ONE as nat,
                product(
                    product(whole(2), difference(ONE as nat, b)),
                    difference(ONE as nat, s),
                ),
            ),
        )
    }
}

/// 255 times the exact value of screen, `b + s - b s / 255`.
pub open spec fn screen_scaled(backdrop: u8, source: u8) -> int {
    255 * (backdrop + source) - backdrop * source
}

/// 255 times the exact value of overlay: of `2 b s / 255` for the backdrop
/// channels up to 127, of `255 - 2 (255 - b) (255 - s) / 255` from 128 on.
pub open spec fn overlay_scaled(backdrop: u8, source: u8) -> int {
    if backdrop < 128 {
        2 * (backdrop * source)
    } else {
        255 * 255 - 2 * ((255 - backdrop) * (255 - source))
    }
}

/// A rule that combines a backdrop and a source color channel by channel.
pub trait BlendMode {
    /// The blended value of one channel.
    spec fn channel(backdrop: u8, source: u8) -> int;

    /// Blends one channel of the backdrop with the same channel of the source.
    fn blend_channel(backdrop: u8, source: u8) -> (blended: u8)
        ensures
            blended as int == Self::channel(backdrop, source),
    ;

    /// Blends the source onto the backdrop, each channel on its own. The
    /// alpha of the blend is the mean of the two alphas, whatever the mode.
    fn blend(backdrop: &Color, source: &Color) -> (blended: Color)
        ensures
            blended.r as int == Self::channel(backdrop.r, source.r),
            blended.g as int == Self::channel(backdrop.g, source.g),
            blended.b as int == Self::channel(backdrop.b, source.b),
            blended.alpha.bits() <= OPAQUE_BITS,
            blended.alpha.value() == mean_of(backdrop.alpha.value(), source.alpha.value()),
    {
        let r: u8 = Self::blend_channel(backdrop.r, source.r);
        let g: u8 = Self::blend_channel(backdrop.g, source.g);
        let b: u8 = Self::blend_channel(backdrop.b, source.b);
        let a: Alpha = backdrop.alpha.mean(&source.alpha);

        Color::from_rgba(r, g, b, a)
    }
}

/// Darkens: each channel of the backdrop is scaled by the source.
pub struct Multiply;

impl BlendMode for Multiply {
    open spec fn channel(backdrop: u8, source: u8) -> int {
        multiply_channel(backdrop, source)
    }

    fn blend_channel(backdrop: u8, source: u8) -> (blended: u8)
        ensures
            blended as int == (backdrop as int * source as int) / 255,
            blended <= backdrop,
            blended <= source,
    {
        proof {
            lemma_multiply_in_range(backdrop, source);
        }
        assert(backdrop as int * source as int <= 255 * 255) by (nonlinear_arith)
            requires
                backdrop <= 255,
                source <= 255,
        ;
        let product: u32 = backdrop as u32 * source as u32;
        (product / 255) as u8
    }
}

/// Brightens: the parts of the light that backdrop and source hold back are
/// multiplied.
pub struct Screen;

impl BlendMode for Screen {
    open spec fn channel(backdrop: u8, source: u8) -> int {
        screen_channel(backdrop, source)
    }

    fn blend_channel(backdrop: u8, source: u8) -> (blended: u8)
        ensures
            blended as int == screen_channel(backdrop, source),
            screen_scaled(backdrop, source) / 255 - 1 <= blended <= screen_scaled(backdrop, source)
                / 255,
            screen_scaled(backdrop, source) % 255 != 0 ==> blended == screen_scaled(
                backdrop,
                source,
            ) / 255,
    {
        proof {
            lemma_screen_near_exact(backdrop, source);
        }
        let b: u128 = normalize(backdrop);
        let s: u128 = normalize(source);
        let held_back: u128 = multiply(complement(b), complement(s), 32768);
        to_channel(complement(held_back))
    }
}

/// Multiplies where the backdrop is dark and screens where it is light.
pub struct Overlay;

impl BlendMode for Overlay {
    open spec fn channel(backdrop: u8, source: u8) -> int {
        overlay_channel(backdrop, source)
    }

    fn blend_channel(backdrop: u8, source: u8) -> (blended: u8)
        ensures
            blended as int == overlay_channel(backdrop, source),
            overlay_scaled(backdrop, source) / 255 - 1 <= blended <= overlay_scaled(
                backdrop,
                source,
            ) / 255,
            overlay_scaled(backdrop, source) % 255 != 0 ==> blended == overlay_scaled(
                backdrop,
                source,
            ) / 255,
    {
        proof {
            lemma_overlay_near_exact(backdrop, source);
        }
        let b: u128 = normalize(backdrop);
        let s: u128 = normalize(source);
        if backdrop < 128 {
            to_channel(multiply(double(b), s, 256))
        } else {
            let held_back: u128 = multiply(double(complement(b)), complement(s), 32768);
            to_channel(complement(held_back))
        }
    }
}

/// Multiply yields a channel: the scaled product never exceeds the smaller
/// of the two channels.
pub proof fn lemma_multiply_in_range(backdrop: u8, source: u8)
    ensures
        0 <= multiply_channel(backdrop, source) <= 255,
        multiply_channel(backdrop, source) <= backdrop,
        multiply_channel(backdrop, source) <= source,
{
    let b = backdrop as int;
    let s = source as int;
    assert(0 <= b * s <= 255 * b && b * s <= 255 * s) by (nonlinear_arith)
        requires
            0 <= b <= 255,
            0 <= s <= 255,
    ;
}

/// Multiply is the same in binary64 arithmetic: the whole part of
/// `(b * s) / 255.0` is the scaled product, since rounding never carries
/// the quotient across a whole number.
pub proof fn lemma_multiply_in_binary64(backdrop: u8, source: u8)
    ensures
        truncated(
            quotient(product(whole(backdrop as nat), whole(source as nat)), whole(255)),
        ) == multiply_channel(backdrop, source),
{
    let bs = backdrop as nat * source as nat;
    let n = bs * ONE as nat;
    lemma_powers();
    assert(bs <= 65025) by (nonlinear_arith)
        requires
            bs == backdrop as nat * source as nat,
            backdrop <= 255,
            source <= 255,
    ;
    // The product of two whole numbers is exact.
    assert(whole(backdrop as nat) * whole(source as nat) == n * ONE as nat) by (nonlinear_arith)
        requires
            whole(backdrop as nat) == backdrop as nat * ONE as nat,
            whole(source as nat) == source as nat * ONE as nat,
            n == (backdrop as nat * source as nat) * ONE as nat,
    ;
    assert(1 * ONE as nat == ONE as nat);
    lemma_rounded_cancel(n, 1, ONE as nat);
    assert(n / 1 == n);
    lemma_spacing_positive(n);
    if n > 0 {
        lemma_spacing_divides(n, 31);
        lemma_divides_passes_on(spacing(n), pow2(31), n);
    }
    lemma_rounded_exact(n);
    assert(product(whole(backdrop as nat), whole(source as nat)) == n);
    // The quotient stays between the whole numbers around it.
    assert(whole(255) == 255 * ONE as nat);
    lemma_rounded_cancel(n, 255, ONE as nat);
    let q = n / 255;
    let step = spacing(q);
    let k = bs / 255;
    lemma_spacing_positive(q);
    lemma_spacing_divides(q, 23);
    let below = k * ONE as nat;
    let above = ((k + 1) * ONE as nat - 0x80_0000) as nat;
    if below > 0 {
        lemma_divides_passes_on(step, pow2(23), below);
    } else {
        assert(0nat % step == 0) by (nonlinear_arith)
            requires
                step > 0,
        ;
    }
    lemma_divides_passes_on(step, pow2(23), above);
    lemma_rounded_at_least(n, 255, below);
    lemma_rounded_at_most(n, 255, above);
}

/// Screen does not tell the backdrop from the source.
pub proof fn lemma_screen_commutes(backdrop: u8, source: u8)
    ensures
        screen_channel(backdrop, source) == screen_channel(source, backdrop),
{
    let x = difference(ONE as nat, normalized(backdrop));
    let y = difference(ONE as nat, normalized(source));
    assert(x * y == y * x) by (nonlinear_arith);
}

/// Overlay multiplies for the backdrop channels up to 127 and screens from
/// 128 on: no channel is normalized to one half itself, and the choice
/// never depends on the source.
pub proof fn lemma_overlay_threshold(backdrop: u8, source: u8)
    ensures
        normalized(backdrop) < HALF <==> backdrop <= 127,
        backdrop <= 127 ==> overlay_channel(backdrop, source) == channel_of(
            product(product(whole(2), normalized(backdrop)), normalized(source)),
        ),
        backdrop >= 128 ==> overlay_channel(backdrop, source) == channel_of(
            difference(
                ONE as nat,
                product(
                    product(whole(2), difference(ONE as nat, normalized(backdrop))),
                    difference(ONE as nat, normalized(source)),
                ),
            ),
        ),
{
    lemma_normalized_bounds(backdrop);
}

/// Screen in binary64 arithmetic is the exact value `b + s - b s / 255`
/// rounded down, or one less: and one less only where the exact value is a
/// whole number, which rounding on the way may miss from below.
pub proof fn lemma_screen_near_exact(backdrop: u8, source: u8)
    ensures
        screen_scaled(backdrop, source) / 255 - 1 <= screen_channel(backdrop, source)
            <= screen_scaled(backdrop, source) / 255,
        screen_scaled(backdrop, source) % 255 != 0 ==> screen_channel(backdrop, source)
            == screen_scaled(backdrop, source) / 255,
{
    let one = ONE as int;
    let bn = normalized(backdrop);
    let sn = normalized(source);
    lemma_normalized_bounds(backdrop);
    lemma_normalized_bounds(source);
    let u = difference(ONE as nat, bn);
    let v = difference(ONE as nat, sn);
    lemma_complement(bn);
    lemma_complement(sn);
    let w = product(u, v);
    lemma_product(u, v);
    let x = difference(ONE as nat, w);
    lemma_complement(w);
    let y = product(x, whole(255));
    lemma_times_255(x);
    let a = 255 - backdrop as int;
    let c = 255 - source as int;
    let g: int = 0xff_0000;
    assert(-g <= 255 * u - a * one <= g);
    assert(-g <= 255 * v - c * one <= g);
    lemma_product_error(u as int, v as int, w as int, a, c, g, g);
    assert(c * g <= 255 * g && a * g <= 255 * g) by (nonlinear_arith)
        requires
            0 <= a <= 255,
            0 <= c <= 255,
            g >= 0,
    ;
    let n = 65025 - a * c;
    assert(n == screen_scaled(backdrop, source)) by (nonlinear_arith)
        requires
            n == 65025 - a * c,
            a == 255 - backdrop as int,
            c == 255 - source as int,
            screen_scaled(backdrop, source) == 255 * (backdrop + source) - backdrop * source,
    ;
    assert(0 <= a * c <= 65025) by (nonlinear_arith)
        requires
            0 <= a <= 255,
            0 <= c <= 255,
    ;
    assert(n * one == 65025 * one - (a * c) * one) by (nonlinear_arith)
        requires
            n == 65025 - a * c,
    ;
    lemma_channel_near(y, n);
}

/// Overlay in binary64 arithmetic is its exact value rounded down, or one
/// less: and one less only where the exact value is a whole number.
pub proof fn lemma_overlay_near_exact(backdrop: u8, source: u8)
    ensures
        overlay_scaled(backdrop, source) / 255 - 1 <= overlay_channel(backdrop, source)
            <= overlay_scaled(backdrop, source) / 255,
        overlay_scaled(backdrop, source) % 255 != 0 ==> overlay_channel(backdrop, source)
            == overlay_scaled(backdrop, source) / 255,
{
    let one = ONE as int;
    let b = backdrop as int;
    let s = source as int;
    let bn = normalized(backdrop);
    let sn = normalized(source);
    lemma_normalized_bounds(backdrop);
    lemma_normalized_bounds(source);
    if backdrop < 128 {
        let t = product(whole(2), bn);
        lemma_double(bn);
        let w = product(t, sn);
        lemma_product(t, sn);
        let y = product(w, whole(255));
        lemma_times_255(w);
        let gt: int = 0x1fe_0000;
        let gs: int = 0x7f_8000;
        assert(-gt <= 255 * t - (2 * b) * one <= gt);
        assert(-gs <= 255 * sn - s * one <= gs);
        lemma_product_error(t as int, sn as int, w as int, 2 * b, s, gt, gs);
        assert(s * gt <= 255 * gt && (2 * b) * gs <= 510 * gs) by (nonlinear_arith)
            requires
                0 <= b <= 255,
                0 <= s <= 255,
                gt >= 0,
                gs >= 0,
        ;
        let n = (2 * b) * s;
        assert(n == overlay_scaled(backdrop, source) && n >= 0) by (nonlinear_arith)
            requires
                n == (2 * b) * s,
                overlay_scaled(backdrop, source) == 2 * (b * s),
                b >= 0,
                s >= 0,
        ;
        lemma_channel_near(y, n);
    } else {
        let u = difference(ONE as nat, bn);
        let v = difference(ONE as nat, sn);
        lemma_complement(bn);
        lemma_complement(sn);
        let t = product(whole(2), u);
        lemma_double(u);
        let w = product(t, v);
        lemma_product(t, v);
        let x = difference(ONE as nat, w);
        lemma_complement(w);
        let y = product(x, whole(255));
        lemma_times_255(x);
        let a = 255 - b;
        let c = 255 - s;
        let gt: int = 0x1fe_0000;
        let gv: int = 0xff_0000;
        assert(-gt <= 255 * t - (2 * a) * one <= gt);
        assert(-gv <= 255 * v - c * one <= gv);
        lemma_product_error(t as int, v as int, w as int, 2 * a, c, gt, gv);
        assert(c * gt <= 255 * gt && (2 * a) * gv <= 510 * gv) by (nonlinear_arith)
            requires
                0 <= a <= 255,
                0 <= c <= 255,
                gt >= 0,
                gv >= 0,
        ;
        let m = (2 * a) * c;
        let n = 65025 - m;
        assert(n == overlay_scaled(backdrop, source) && 0 <= m <= 65025) by (nonlinear_arith)
            requires
                n == 65025 - m,
                m == (2 * a) * c,
                overlay_scaled(backdrop, source) == 255 * 255 - 2 * ((255 - backdrop) * (255
                    - source)),
                a == 255 - backdrop,
                c == 255 - source,
                0 <= a <= 127,
                0 <= c <= 255,
        ;
        assert(n * one == 65025 * one - m * one) by (nonlinear_arith)
            requires
                n == 65025 - m,
        ;
        lemma_channel_near(y, n);
    }
}

/// Where the normalized channels lie: zero for the channel zero, and for any
/// other a multiple of 256 units from 2^60 units to one; below one half for
/// the channels up to 127, and for the others a multiple of 2^15 units from
/// one half upward. Each is within 2^15 units of the exact quotient.
pub proof fn lemma_normalized_bounds(channel: u8)
    ensures
        normalized(channel) == rounded(channel as nat * ONE as nat, 255),
        normalized(channel) <= ONE,
        normalized(channel) % 256 == 0,
        normalized(channel) == 0 || normalized(channel) >= SMALLEST_PART,
        channel < 128 ==> normalized(channel) < HALF,
        channel >= 128 ==> normalized(channel) >= HALF && normalized(channel) % 32768 == 0,
        -(255 * 0x8000) <= 255 * normalized(channel) - channel * ONE <= 255 * 0x8000,
{
    let n = channel as nat * ONE as nat;
    let q = n / 255;
    let step = spacing(q);
    lemma_powers();
    lemma_spacing_positive(q);
    assert(whole(channel as nat) * ONE as nat == n * ONE as nat);
    assert(whole(255) == 255 * ONE as nat);
    lemma_rounded_cancel(n, 255, ONE as nat);
    lemma_spacing_divides(q, 16);
    lemma_spacing_at_most(q, 16);
    lemma_divides_passes_on(step, pow2(16), ONE as nat);
    lemma_rounded_at_most(n, 255, ONE as nat);
    lemma_rounded_near(n, 255);
    assert(255 * step <= 255 * 0x1_0000) by (nonlinear_arith)
        requires
            step <= 0x1_0000,
    ;
    if channel == 0 {
        lemma_rounded_zero(255);
    } else {
        lemma_divides_passes_on(step, pow2(16), SMALLEST_PART as nat);
        lemma_rounded_at_least(n, 255, SMALLEST_PART as nat);
        lemma_spacing_multiple(q, 8);
        lemma_rounded_multiple(n, 255, 256);
    }
    if channel < 128 {
        lemma_spacing_divides(q, 14);
        lemma_divides_passes_on(step, pow2(14), (HALF - 0x4000) as nat);
        lemma_rounded_at_most(n, 255, (HALF - 0x4000) as nat);
    } else {
        lemma_divides_passes_on(step, pow2(16), HALF as nat);
        lemma_rounded_at_least(n, 255, HALF as nat);
        lemma_spacing_multiple(q, 15);
        lemma_rounded_multiple(n, 255, 32768);
    }
}

/// The channel as a part of the largest channel: `c / 255.0`.
fn normalize(channel: u8) -> (x: u128)
    ensures
        x == normalized(channel),
        x <= ONE,
        x % 256 == 0,
        x == 0 || x >= SMALLEST_PART,
        channel < 128 ==> x < HALF,
        channel >= 128 ==> x >= HALF && x % 32768 == 0,
{
    proof {
        lemma_normalized_bounds(channel);
    }
    round_quotient(channel as u128 * ONE, 255)
}

/// What is left of one: `1.0 - x`.
fn complement(x: u128) -> (u: u128)
    requires
        x <= ONE,
    ensures
        u == difference(ONE as nat, x as nat),
        u <= ONE,
        x <= HALF || x % 32768 == 0 ==> u % 32768 == 0,
        x >= HALF && x % 32768 == 0 ==> u == ONE - x,
{
    proof {
        lemma_complement(x as nat);
    }
    round_quotient(ONE - x, 1)
}

/// Twice a value: `2.0 * x`.
fn double(x: u128) -> (t: u128)
    requires
        x <= HALF,
    ensures
        t == product(whole(2), x as nat),
        t <= ONE,
        x % 256 == 0 && (x == 0 || x >= SMALLEST_PART) ==> t % 256 == 0,
        x % 32768 == 0 ==> t % 32768 == 0,
{
    proof {
        lemma_double(x as nat);
    }
    round_quotient(2 * x, 1)
}

/// The product of two values that are multiples of `grain` units:
/// `x * y`.
fn multiply(x: u128, y: u128, grain: u128) -> (p: u128)
    requires
        grain == 256 || grain == 32768,
        x <= ONE,
        y <= ONE,
        x % grain == 0,
        y % grain == 0,
    ensures
        p == product(x as nat, y as nat),
        p <= ONE,
{
    let a: u128 = x / grain;
    let b: u128 = y / grain;
    proof {
        lemma_product(x as nat, y as nat);
        lemma_product_of_grains(x as nat, y as nat, grain as nat);
        assert(a * b <= NUMERATOR_MAX) by (nonlinear_arith)
            requires
                a <= 0x1000_0000_0000_0000,
                b <= 0x1000_0000_0000_0000,
                NUMERATOR_MAX == 0x4000_0000_0000_0000_0000_0000_0000_0000,
        ;
    }
    round_quotient(a * b, ONE / grain / grain)
}

/// The channel of a part of the largest channel: the whole part of
/// `x * 255.0`.
fn to_channel(x: u128) -> (channel: u8)
    requires
        x <= ONE,
    ensures
        channel as int == channel_of(x as nat),
{
    proof {
        lemma_times_255(x as nat);
    }
    (round_quotient(x * 255, 1) / ONE) as u8
}

/// How far the rounded product of two values up to one is from the product
/// of the whole numbers that 255 times the values are near.
proof fn lemma_product_error(x: int, y: int, w: int, xw: int, yw: int, gx: int, gy: int)
    requires
        0 <= xw <= 510,
        0 <= yw <= 255,
        0 <= gx <= 255 * 0x4_0000,
        0 <= gy <= 255 * 0x4_0000,
        -gx <= 255 * x - xw * ONE <= gx,
        -gy <= 255 * y - yw * ONE <= gy,
        -(ONE * 0x8000) <= w * ONE - x * y <= ONE * 0x8000,
    ensures
        -(65025 * 0x8000 + yw * gx + xw * gy + 1) <= 65025 * w - (xw * yw) * ONE <= 65025
            * 0x8000 + yw * gx + xw * gy + 1,
{
    let one = ONE as int;
    let ex = 255 * x - xw * one;
    let ey = 255 * y - yw * one;
    let dw = w * one - x * y;
    let t = 65025 * w - (xw * yw) * one;
    let x255 = 255 * x;
    let y255 = 255 * y;
    let xo = xw * one;
    let yo = yw * one;
    assert(x255 * y255 == 65025 * (x * y)) by (nonlinear_arith)
        requires
            x255 == 255 * x,
            y255 == 255 * y,
    ;
    assert(x255 * y255 == xo * yo + xo * ey + ex * yo + ex * ey) by (nonlinear_arith)
        requires
            x255 == xo + ex,
            y255 == yo + ey,
    ;
    assert(xo * yo == ((xw * yw) * one) * one) by (nonlinear_arith)
        requires
            xo == xw * one,
            yo == yw * one,
    ;
    assert(xo * ey == one * (xw * ey)) by (nonlinear_arith)
        requires
            xo == xw * one,
    ;
    assert(ex * yo == one * (yw * ex)) by (nonlinear_arith)
        requires
            yo == yw * one,
    ;
    assert(t * one == 65025 * (w * one) - ((xw * yw) * one) * one) by (nonlinear_arith)
        requires
            t == 65025 * w - (xw * yw) * one,
    ;
    assert(t * one == 65025 * dw + one * (xw * ey) + one * (yw * ex) + ex * ey);
    assert(-(gx * gy) <= ex * ey <= gx * gy) by (nonlinear_arith)
        requires
            -gx <= ex <= gx,
            -gy <= ey <= gy,
    ;
    assert(gx * gy <= 0x10_0000_0000_0000_0000) by (nonlinear_arith)
        requires
            0 <= gx <= 255 * 0x4_0000,
            0 <= gy <= 255 * 0x4_0000,
    ;
    assert(-(xw * gy) <= xw * ey <= xw * gy) by (nonlinear_arith)
        requires
            0 <= xw,
            -gy <= ey <= gy,
    ;
    assert(-(yw * gx) <= yw * ex <= yw * gx) by (nonlinear_arith)
        requires
            0 <= yw,
            -gx <= ex <= gx,
    ;
}

/// A value whose 255-fold is near a whole number of ones has, as its whole
/// part, the quotient of that number by 255, or one less where the quotient
/// leaves no remainder.
proof fn lemma_channel_near(y: nat, n: int)
    requires
        0 <= n,
        -0x40_0000_0000 <= 255 * y - n * ONE <= 0x40_0000_0000,
    ensures
        n / 255 - 1 <= truncated(y) <= n / 255,
        n % 255 != 0 ==> truncated(y) == n / 255,
{
}

} // verus!
