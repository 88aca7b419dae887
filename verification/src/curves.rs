//! The shapes that fields are made of: exponentials, bells, ramps and blends of
//! fixed-point numbers.

use crate::fixed::{saturated, squared_times, Fixed};
use crate::math::{bell, blend, hermite, lemma_ramp_rounding};
use crate::scalar::{clamped, larger, magnitude, Scalar};
use vstd::prelude::*;

verus! {

// --- arithmetic ------------------------------------------------------------
/// The fixed-point number with the given raw value.
pub open spec fn raw(n: int) -> Fixed {
    Fixed { raw: n as i64 }
}

/// A product that stays in range is that of the raw values, rounded down.
pub proof fn lemma_product(a: Fixed, b: Fixed)
    requires
        -0x1000_0000_0000 <= a.raw <= 0x1000_0000_0000,
        -0x1_0000_0000 <= b.raw <= 0x1_0000_0000,
    ensures
        a.mul(b).raw == (a.raw * b.raw) / 65536,
        b.mul(a).raw == (a.raw * b.raw) / 65536,
{
    assert(-0x1000_0000_0000_0000_0000 <= a.raw * b.raw <= 0x1000_0000_0000_0000_0000 && b.raw
        * a.raw == a.raw * b.raw) by (nonlinear_arith)
        requires
            -0x1000_0000_0000 <= a.raw <= 0x1000_0000_0000,
            -0x1_0000_0000 <= b.raw <= 0x1_0000_0000,
    ;
}

pub proof fn lemma_squares_stay_small(x: Fixed, n: nat)
    requires
        0 <= x.raw <= 65536,
    ensures
        0 <= squared_times(x, n).raw <= 65536,
    decreases n,
{
    if n > 0 {
        lemma_squares_stay_small(x, (n - 1) as nat);
        let y = squared_times(x, (n - 1) as nat).raw as int;
        assert(0 <= (y * y) / 65536 <= 65536) by (nonlinear_arith)
            requires
                0 <= y <= 65536,
        ;
    }
}

pub proof fn lemma_times_one(x: Fixed)
    ensures
        x.mul(Fixed::of_int(1)) == x,
{
    assert((x.raw * 65536) / 65536 == x.raw);
}

pub proof fn lemma_ones_squared(n: nat)
    ensures
        squared_times(Fixed { raw: 65536 }, n) == (Fixed { raw: 65536 }),
    decreases n,
{
    if n > 0 {
        lemma_ones_squared((n - 1) as nat);
        lemma_times_one(Fixed { raw: 65536 });
    }
}

pub proof fn lemma_squares_rise(x: Fixed, y: Fixed, n: nat)
    requires
        0 <= x.raw <= y.raw <= 65536,
    ensures
        0 <= squared_times(x, n).raw <= squared_times(y, n).raw <= 65536,
    decreases n,
{
    lemma_squares_stay_small(x, n);
    lemma_squares_stay_small(y, n);
    if n > 0 {
        lemma_squares_rise(x, y, (n - 1) as nat);
        lemma_squares_stay_small(x, (n - 1) as nat);
        lemma_squares_stay_small(y, (n - 1) as nat);
        let a = squared_times(x, (n - 1) as nat).raw as int;
        let b = squared_times(y, (n - 1) as nat).raw as int;
        assert(0 <= (a * a) / 65536 <= (b * b) / 65536 <= 65536) by (nonlinear_arith)
            requires
                0 <= a <= b <= 65536,
        ;
    }
}

// --- exponentials ----------------------------------------------------------
/// The exponential of what is not positive is a share, and never rises as its
/// argument falls.
pub proof fn exponentials_fall(x: Fixed, y: Fixed)
    requires
        y.raw <= x.raw <= 0,
    ensures
        0 <= y.exp().raw <= x.exp().raw <= 65536,
{
    let a = Fixed { raw: saturated(65536 + x.raw as int / 1024) };
    let b = Fixed { raw: saturated(65536 + y.raw as int / 1024) };
    if x.raw >= -1024 * 65536 {
        lemma_squares_stay_small(a, 10);
        if y.raw >= -1024 * 65536 {
            lemma_squares_rise(b, a, 10);
        }
    }
}

pub proof fn lemma_exponential_of_zero()
    ensures
        raw(0).exp().raw == 65536,
{
    lemma_ones_squared(10);
}

pub proof fn lemma_exponential_of_quarter()
    ensures
        raw(-16384).exp().raw == 50994,
{
    let x = Fixed { raw: 65520 };
    assert(squared_times(x, 0).raw == 65520);
    assert(squared_times(x, 1).raw == 65504) by {
        assert((65520 * 65520) / 65536 == 65504);
    }
    assert(squared_times(x, 2).raw == 65472) by {
        assert((65504 * 65504) / 65536 == 65472);
    }
    assert(squared_times(x, 3).raw == 65408) by {
        assert((65472 * 65472) / 65536 == 65408);
    }
    assert(squared_times(x, 4).raw == 65280) by {
        assert((65408 * 65408) / 65536 == 65280);
    }
    assert(squared_times(x, 5).raw == 65025) by {
        assert((65280 * 65280) / 65536 == 65025);
    }
    assert(squared_times(x, 6).raw == 64517) by {
        assert((65025 * 65025) / 65536 == 64517);
    }
    assert(squared_times(x, 7).raw == 63513) by {
        assert((64517 * 64517) / 65536 == 63513);
    }
    assert(squared_times(x, 8).raw == 61552) by {
        assert((63513 * 63513) / 65536 == 61552);
    }
    assert(squared_times(x, 9).raw == 57810) by {
        assert((61552 * 61552) / 65536 == 57810);
    }
    assert(squared_times(x, 10).raw == 50994) by {
        assert((57810 * 57810) / 65536 == 50994);
    }
}

pub proof fn lemma_exponential_of_four()
    ensures
        raw(-262144).exp().raw == 1182,
{
    let x = Fixed { raw: 65280 };
    assert(squared_times(x, 0).raw == 65280);
    assert(squared_times(x, 1).raw == 65025) by {
        assert((65280 * 65280) / 65536 == 65025);
    }
    assert(squared_times(x, 2).raw == 64517) by {
        assert((65025 * 65025) / 65536 == 64517);
    }
    assert(squared_times(x, 3).raw == 63513) by {
        assert((64517 * 64517) / 65536 == 63513);
    }
    assert(squared_times(x, 4).raw == 61552) by {
        assert((63513 * 63513) / 65536 == 61552);
    }
    assert(squared_times(x, 5).raw == 57810) by {
        assert((61552 * 61552) / 65536 == 57810);
    }
    assert(squared_times(x, 6).raw == 50994) by {
        assert((57810 * 57810) / 65536 == 50994);
    }
    assert(squared_times(x, 7).raw == 39678) by {
        assert((50994 * 50994) / 65536 == 39678);
    }
    assert(squared_times(x, 8).raw == 24022) by {
        assert((39678 * 39678) / 65536 == 24022);
    }
    assert(squared_times(x, 9).raw == 8805) by {
        assert((24022 * 24022) / 65536 == 8805);
    }
    assert(squared_times(x, 10).raw == 1182) by {
        assert((8805 * 8805) / 65536 == 1182);
    }
}

pub proof fn lemma_exponential_of_half()
    ensures
        raw(-32768).exp().raw == 39678,
{
    let x = Fixed { raw: 65504 };
    assert(squared_times(x, 0).raw == 65504);
    assert(squared_times(x, 1).raw == 65472) by {
        assert((65504 * 65504) / 65536 == 65472);
    }
    assert(squared_times(x, 2).raw == 65408) by {
        assert((65472 * 65472) / 65536 == 65408);
    }
    assert(squared_times(x, 3).raw == 65280) by {
        assert((65408 * 65408) / 65536 == 65280);
    }
    assert(squared_times(x, 4).raw == 65025) by {
        assert((65280 * 65280) / 65536 == 65025);
    }
    assert(squared_times(x, 5).raw == 64517) by {
        assert((65025 * 65025) / 65536 == 64517);
    }
    assert(squared_times(x, 6).raw == 63513) by {
        assert((64517 * 64517) / 65536 == 63513);
    }
    assert(squared_times(x, 7).raw == 61552) by {
        assert((63513 * 63513) / 65536 == 61552);
    }
    assert(squared_times(x, 8).raw == 57810) by {
        assert((61552 * 61552) / 65536 == 57810);
    }
    assert(squared_times(x, 9).raw == 50994) by {
        assert((57810 * 57810) / 65536 == 50994);
    }
    assert(squared_times(x, 10).raw == 39678) by {
        assert((50994 * 50994) / 65536 == 39678);
    }
}

pub proof fn lemma_exponential_of_one()
    ensures
        raw(-65536).exp().raw == 24022,
{
    let x = Fixed { raw: 65472 };
    assert(squared_times(x, 0).raw == 65472);
    assert(squared_times(x, 1).raw == 65408) by {
        assert((65472 * 65472) / 65536 == 65408);
    }
    assert(squared_times(x, 2).raw == 65280) by {
        assert((65408 * 65408) / 65536 == 65280);
    }
    assert(squared_times(x, 3).raw == 65025) by {
        assert((65280 * 65280) / 65536 == 65025);
    }
    assert(squared_times(x, 4).raw == 64517) by {
        assert((65025 * 65025) / 65536 == 64517);
    }
    assert(squared_times(x, 5).raw == 63513) by {
        assert((64517 * 64517) / 65536 == 63513);
    }
    assert(squared_times(x, 6).raw == 61552) by {
        assert((63513 * 63513) / 65536 == 61552);
    }
    assert(squared_times(x, 7).raw == 57810) by {
        assert((61552 * 61552) / 65536 == 57810);
    }
    assert(squared_times(x, 8).raw == 50994) by {
        assert((57810 * 57810) / 65536 == 50994);
    }
    assert(squared_times(x, 9).raw == 39678) by {
        assert((50994 * 50994) / 65536 == 39678);
    }
    assert(squared_times(x, 10).raw == 24022) by {
        assert((39678 * 39678) / 65536 == 24022);
    }
}

pub proof fn lemma_exponential_of_two()
    ensures
        raw(-131072).exp().raw == 8805,
{
    let x = Fixed { raw: 65408 };
    assert(squared_times(x, 0).raw == 65408);
    assert(squared_times(x, 1).raw == 65280) by {
        assert((65408 * 65408) / 65536 == 65280);
    }
    assert(squared_times(x, 2).raw == 65025) by {
        assert((65280 * 65280) / 65536 == 65025);
    }
    assert(squared_times(x, 3).raw == 64517) by {
        assert((65025 * 65025) / 65536 == 64517);
    }
    assert(squared_times(x, 4).raw == 63513) by {
        assert((64517 * 64517) / 65536 == 63513);
    }
    assert(squared_times(x, 5).raw == 61552) by {
        assert((63513 * 63513) / 65536 == 61552);
    }
    assert(squared_times(x, 6).raw == 57810) by {
        assert((61552 * 61552) / 65536 == 57810);
    }
    assert(squared_times(x, 7).raw == 50994) by {
        assert((57810 * 57810) / 65536 == 50994);
    }
    assert(squared_times(x, 8).raw == 39678) by {
        assert((50994 * 50994) / 65536 == 39678);
    }
    assert(squared_times(x, 9).raw == 24022) by {
        assert((39678 * 39678) / 65536 == 24022);
    }
    assert(squared_times(x, 10).raw == 8805) by {
        assert((24022 * 24022) / 65536 == 8805);
    }
}

/// At two and an eighth.
pub proof fn lemma_exponential_past_two()
    ensures
        raw(-139264).exp().raw == 7771,
{
    let x = Fixed { raw: 65400 };
    assert(squared_times(x, 0).raw == 65400);
    assert(squared_times(x, 1).raw == 65264) by {
        assert((65400 * 65400) / 65536 == 65264);
    }
    assert(squared_times(x, 2).raw == 64993) by {
        assert((65264 * 65264) / 65536 == 64993);
    }
    assert(squared_times(x, 3).raw == 64454) by {
        assert((64993 * 64993) / 65536 == 64454);
    }
    assert(squared_times(x, 4).raw == 63389) by {
        assert((64454 * 64454) / 65536 == 63389);
    }
    assert(squared_times(x, 5).raw == 61312) by {
        assert((63389 * 63389) / 65536 == 61312);
    }
    assert(squared_times(x, 6).raw == 57360) by {
        assert((61312 * 61312) / 65536 == 57360);
    }
    assert(squared_times(x, 7).raw == 50204) by {
        assert((57360 * 57360) / 65536 == 50204);
    }
    assert(squared_times(x, 8).raw == 38458) by {
        assert((50204 * 50204) / 65536 == 38458);
    }
    assert(squared_times(x, 9).raw == 22568) by {
        assert((38458 * 38458) / 65536 == 22568);
    }
    assert(squared_times(x, 10).raw == 7771) by {
        assert((22568 * 22568) / 65536 == 7771);
    }
}

pub proof fn lemma_exponential_of_seven()
    ensures
        raw(-458752).exp().raw == 58,
{
    let x = Fixed { raw: 65088 };
    assert(squared_times(x, 0).raw == 65088);
    assert(squared_times(x, 1).raw == 64643) by {
        assert((65088 * 65088) / 65536 == 64643);
    }
    assert(squared_times(x, 2).raw == 63762) by {
        assert((64643 * 64643) / 65536 == 63762);
    }
    assert(squared_times(x, 3).raw == 62036) by {
        assert((63762 * 63762) / 65536 == 62036);
    }
    assert(squared_times(x, 4).raw == 58722) by {
        assert((62036 * 62036) / 65536 == 58722);
    }
    assert(squared_times(x, 5).raw == 52616) by {
        assert((58722 * 58722) / 65536 == 52616);
    }
    assert(squared_times(x, 6).raw == 42243) by {
        assert((52616 * 52616) / 65536 == 42243);
    }
    assert(squared_times(x, 7).raw == 27228) by {
        assert((42243 * 42243) / 65536 == 27228);
    }
    assert(squared_times(x, 8).raw == 11312) by {
        assert((27228 * 27228) / 65536 == 11312);
    }
    assert(squared_times(x, 9).raw == 1952) by {
        assert((11312 * 11312) / 65536 == 1952);
    }
    assert(squared_times(x, 10).raw == 58) by {
        assert((1952 * 1952) / 65536 == 58);
    }
}

// --- bells -----------------------------------------------------------------
/// What the exponential of a bell is taken of, where the offset is `t` widths.
proof fn lemma_bell_exponent(t: Fixed)
    ensures
        Fixed::ratio(-1, 2).mul(t).mul(t).raw <= 0,
        t.raw == 0 ==> Fixed::ratio(-1, 2).mul(t).mul(t).raw == 0,
{
    let h = Fixed::ratio(-1, 2);
    assert(h.raw == -32768);
    let u = h.mul(t);
    assert((t.raw >= 0 ==> u.raw <= 0) && (t.raw <= 0 ==> u.raw >= 0)) by {
        assert((t.raw >= 0 ==> (-32768 * t.raw) / 65536 <= 0) && (t.raw <= 0 ==> (-32768 * t.raw)
            / 65536 >= 0));
    }
    assert((u.raw * t.raw) / 65536 <= 0) by (nonlinear_arith)
        requires
            (t.raw >= 0 && u.raw <= 0) || (t.raw <= 0 && u.raw >= 0),
    ;
    if t.raw == 0 {
        assert(u.raw * 0 == 0);
    }
}

/// A bell is a share everywhere and 1 at its centre.
pub proof fn bells_peak_at_their_center(x: Fixed, center: Fixed, sigma: Fixed)
    ensures
        0 <= bell(x, center, sigma).raw <= 65536,
        0 < sigma.raw ==> bell(center, center, sigma).raw == 65536,
{
    let width = larger(sigma, Fixed::ratio(1, 1_000_000));
    let t = x.sub(center).div(width);
    lemma_bell_exponent(t);
    exponentials_fall(Fixed { raw: 0 }, Fixed::ratio(-1, 2).mul(t).mul(t));
    lemma_exponential_of_zero();
    if sigma.raw > 0 {
        let t0 = center.sub(center).div(width);
        assert(t0.raw == 0) by {
            assert((0 * 65536int) / (width.raw as int) == 0) by (nonlinear_arith)
                requires
                    width.raw > 0,
            ;
        }
        lemma_bell_exponent(t0);
    }
}
/// A bell falls away from its centre, on either side.
pub proof fn bells_fall_away(near: Fixed, far: Fixed, center: Fixed, sigma: Fixed)
    requires
        0 < sigma.raw,
        (center.raw <= near.raw <= far.raw) || (far.raw <= near.raw <= center.raw),
    ensures
        bell(far, center, sigma).le(bell(near, center, sigma)),
{
    let width = larger(sigma, Fixed::ratio(1, 1_000_000));
    assert(width == sigma);
    let m = sigma.raw as int;
    let a = near.sub(center).raw as int;
    let b = far.sub(center).raw as int;
    let s = near.sub(center).div(width);
    let t = far.sub(center).div(width);
    assert((0 <= a <= b ==> 0 <= (a * 65536) / m <= (b * 65536) / m) && (b <= a <= 0 ==> (b
        * 65536) / m <= (a * 65536) / m <= 0)) by (nonlinear_arith)
        requires
            m > 0,
    ;
    let h = Fixed::ratio(-1, 2);
    assert(h.raw == -32768);
    let u = h.mul(s);
    let v = h.mul(t);
    assert((v.raw * t.raw) / 65536 <= (u.raw * s.raw) / 65536) by {
        if center.raw <= near.raw && near.raw <= far.raw {
            assert(0 <= s.raw <= t.raw);
            assert(v.raw <= u.raw <= 0 <= s.raw <= t.raw);
            assert(v.raw * t.raw <= u.raw * s.raw) by (nonlinear_arith)
                requires
                    v.raw <= u.raw <= 0 <= s.raw <= t.raw,
            ;
        } else {
            assert(t.raw <= s.raw <= 0);
            assert(t.raw <= s.raw <= 0 <= u.raw <= v.raw);
            assert(v.raw * t.raw <= u.raw * s.raw) by (nonlinear_arith)
                requires
                    t.raw <= s.raw <= 0 <= u.raw <= v.raw,
            ;
        }
    }
    lemma_bell_exponent(s);
    exponentials_fall(u.mul(s), v.mul(t));
}

/// A bell is as wide as asked: one width from its centre, on either side, it is
/// down to about six tenths, and two widths away to less than a seventh.
pub proof fn bells_are_as_wide_as_asked(x: Fixed, center: Fixed, sigma: Fixed)
    requires
        0 < sigma.raw,
        i64::MIN <= x.raw - center.raw <= i64::MAX,
    ensures
        x.raw - center.raw == sigma.raw || x.raw - center.raw == -sigma.raw ==> 39670 <= bell(
            x,
            center,
            sigma,
        ).raw <= 39690,
        x.raw - center.raw == 2 * sigma.raw || x.raw - center.raw == -2 * sigma.raw ==> bell(
            x,
            center,
            sigma,
        ).raw <= 9362,
{
    let width = larger(sigma, Fixed::ratio(1, 1_000_000));
    assert(width == sigma);
    let m = sigma.raw as int;
    let d = x.raw - center.raw;
    let t = x.sub(center).div(width);
    let h = Fixed::ratio(-1, 2);
    assert(h.raw == -32768);
    assert((m * 65536) / m == 65536 && ((-m) * 65536) / m == -65536 && (2 * m * 65536) / m == 131072
        && ((-2 * m) * 65536) / m == -131072) by (nonlinear_arith)
        requires
            m > 0,
    ;
    lemma_exponential_of_half();
    lemma_exponential_of_two();
    assert(x.sub(center).raw == d);
    if d == m || d == -m {
        if d == m {
            assert(t == raw(65536));
            assert(h.mul(t) == raw(-32768));
            lemma_product(raw(-32768), raw(65536));
            assert((-32768 * 65536) / 65536 == -32768);
        } else {
            assert(t == raw(-65536));
            assert(h.mul(t) == raw(32768));
            lemma_product(raw(32768), raw(-65536));
            assert((32768 * -65536) / 65536 == -32768);
        }
    }
    if d == 2 * m || d == -2 * m {
        if d == 2 * m {
            assert(t == raw(131072));
            assert(h.mul(t) == raw(-65536));
            lemma_product(raw(-65536), raw(131072));
            assert((-65536 * 131072) / 65536 == -131072);
        } else {
            assert(t == raw(-131072));
            assert(h.mul(t) == raw(65536));
            lemma_product(raw(65536), raw(-131072));
            assert((65536 * -131072) / 65536 == -131072);
        }
    }
}

// --- blends and ramps ------------------------------------------------------
/// A blend runs from its first value to its second: with a share of nothing it
/// is the first, with all of it the second, and in between it lies between them
/// and never turns back.
pub proof fn blends_run_from_first_to_second(a: Fixed, b: Fixed, s: Fixed, t: Fixed)
    requires
        i64::MIN <= b.raw - a.raw <= i64::MAX,
        0 <= s.raw <= t.raw <= 65536,
    ensures
        blend(a, b, Fixed::of_int(0)) == a,
        blend(a, b, Fixed::of_int(1)) == b,
        a.raw <= b.raw ==> a.raw <= blend(a, b, s).raw <= blend(a, b, t).raw <= b.raw,
        b.raw <= a.raw ==> b.raw <= blend(a, b, t).raw <= blend(a, b, s).raw <= a.raw,
{
    let d = b.raw - a.raw;
    let x = s.raw as int;
    let y = t.raw as int;
    assert((d * 0) / 65536 == 0 && (d * 65536) / 65536 == d);
    assert((d >= 0 ==> 0 <= (d * x) / 65536 <= (d * y) / 65536 <= d) && (d <= 0 ==> d <= (d * y)
        / 65536 <= (d * x) / 65536 <= 0)) by (nonlinear_arith)
        requires
            0 <= x <= y <= 65536,
    ;
    assert(b.sub(a).raw == d);
}

/// The ramp is eased at both ends: it stays below the straight line in its
/// first half and above it in its second, clearly so a quarter of the way in.
pub proof fn ramps_are_eased(edge0: Fixed, edge1: Fixed, x: Fixed)
    requires
        edge0.raw <= x.raw <= edge1.raw,
        edge0.raw < edge1.raw,
        edge1.raw - edge0.raw <= i64::MAX,
    ensures
        ({
            let t = ((x.raw - edge0.raw) * 65536) / (edge1.raw - edge0.raw);
            let r = hermite(edge0, edge1, x).raw;
            &&& t <= 32768 ==> r <= t
            &&& t >= 32768 ==> r >= t - 4
            &&& 8192 <= t <= 24576 ==> r <= t - 3000
            &&& 40960 <= t <= 57344 ==> r >= t + 3000
        }),
{
    let w = edge1.raw - edge0.raw;
    let d = x.raw - edge0.raw;
    let a = (d * 65536) / w;
    assert(0 <= a <= 65536) by (nonlinear_arith)
        requires
            0 <= d <= w,
            0 < w,
            a == (d * 65536) / w,
    ;
    let t = clamped(x.sub(edge0).div(edge1.sub(edge0)), Fixed::of_int(0), Fixed::of_int(1));
    assert(t.raw == a);
    assert(Fixed::ratio(1, 1_000_000_000).raw == 0);
    assert(!magnitude(edge1.sub(edge0)).lt(Fixed::ratio(1, 1_000_000_000)));
    let b = (a * a) / 65536;
    assert(0 <= b <= 65536) by (nonlinear_arith)
        requires
            0 <= a <= 65536,
            b == (a * a) / 65536,
    ;
    assert(t.mul(t).raw == b);
    assert(Fixed::of_int(2).mul(t).raw == 2 * a) by {
        assert((131072 * a) / 65536 == 2 * a);
    }
    let u = 196608 - 2 * a;
    let r = (b * u) / 65536;
    assert(0 <= b * u <= 65536 * 196608) by (nonlinear_arith)
        requires
            0 <= b <= 65536,
            0 <= u <= 196608,
    ;
    assert(hermite(edge0, edge1, x).raw == r);
    lemma_ramp_rounding(a, b, r);
    let cube = (a * a) * u;
    // The straight line less the ramp, to the same scale.
    let gap = a * ((65536 - a) * (65536 - 2 * a));
    assert(cube == a * 4294967296 - gap) by (nonlinear_arith)
        requires
            cube == (a * a) * u,
            u == 196608 - 2 * a,
            gap == a * ((65536 - a) * (65536 - 2 * a)),
    ;
    if a <= 32768 {
        assert(gap >= 0) by (nonlinear_arith)
            requires
                0 <= a <= 32768,
                gap == a * ((65536 - a) * (65536 - 2 * a)),
        ;
    }
    if a >= 32768 {
        assert(gap <= 0) by (nonlinear_arith)
            requires
                32768 <= a <= 65536,
                gap == a * ((65536 - a) * (65536 - 2 * a)),
        ;
    }
    if 8192 <= a <= 24576 {
        lemma_eased(a);
    }
    if 40960 <= a <= 57344 {
        let c = 65536 - a;
        lemma_eased(c);
        assert(gap == -(c * ((65536 - c) * (65536 - 2 * c)))) by (nonlinear_arith)
            requires
                c == 65536 - a,
                gap == a * ((65536 - a) * (65536 - 2 * a)),
        ;
    }
}

proof fn lemma_eased(a: int)
    requires
        8192 <= a <= 24576,
    ensures
        a * ((65536 - a) * (65536 - 2 * a)) >= 3005 * 4294967296,
{
    if a <= 16384 {
        assert((65536 - a) * (65536 - 2 * a) >= 49152 * 32768) by (nonlinear_arith)
            requires
                8192 <= a <= 16384,
        ;
        let q = (65536 - a) * (65536 - 2 * a);
        assert(a * q >= 8192 * (49152 * 32768)) by (nonlinear_arith)
            requires
                a >= 8192,
                q >= 49152 * 32768,
        ;
    } else {
        assert((65536 - a) * (65536 - 2 * a) >= 40960 * 16384) by (nonlinear_arith)
            requires
                16384 <= a <= 24576,
        ;
        let q = (65536 - a) * (65536 - 2 * a);
        if a <= 20480 {
            assert(q >= 45056 * 24576) by (nonlinear_arith)
                requires
                    16384 <= a <= 20480,
                    q == (65536 - a) * (65536 - 2 * a),
            ;
            assert(a * q >= 16384 * (45056 * 24576)) by (nonlinear_arith)
                requires
                    a >= 16384,
                    q >= 45056 * 24576,
            ;
        } else {
            assert(a * q >= 20480 * (40960 * 16384)) by (nonlinear_arith)
                requires
                    a >= 20480,
                    q >= 40960 * 16384,
            ;
        }
    }
}

} // verus!
