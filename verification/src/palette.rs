//! What the colours of a picture tell: mixtures, ramps, light and boundaries.

use crate::boundary::{Boundary, BoundaryKind};
use crate::curves::lemma_product;
use crate::fixed::Fixed;
use crate::ramp::{
    fraction_of, hsv_color, mixed, mixed_channel, plate_tint, shaded, shaded_channel, ColorRamp,
};
use crate::render::{boundary_color, kind_hue, scaled_color};
use crate::scalar::{clamped, Scalar};
use vstd::prelude::*;

verus! {

// --- mixing ----------------------------------------------------------------
/// A channel is a mixture of two: as much of the second as the share says, cut
/// down to a whole number.
pub open spec fn blends_channels(c: u8, a: u8, b: u8, share: int) -> bool {
    let fair = (65536 - share) * a + share * b;
    fair - 65536 < 65536 * c <= fair
}

proof fn lemma_mixed_channel(a: u8, b: u8, t: Fixed)
    requires
        0 <= t.raw <= 65536,
    ensures
        blends_channels(mixed_channel(a, b, t), a, b, t.raw as int),
        t.raw == 0 ==> mixed_channel(a, b, t) == a,
        t.raw == 65536 ==> mixed_channel(a, b, t) == b,
{
    let d = b - a;
    let from = Fixed::of_int(a as int);
    let span = Fixed::of_int(b as int).sub(from);
    assert(span.raw == d * 65536);
    lemma_product(span, t);
    let s = t.raw as int;
    let m = d * s;
    assert(((d * 65536) * s) / 65536 == m) by (nonlinear_arith)
        requires
            m == d * s,
    ;
    assert(span.mul(t).raw == m);
    assert((65536 - s) * a + s * b == 65536 * a + m) by (nonlinear_arith)
        requires
            m == (b - a) * s,
    ;
    assert(0 <= 65536 * a + m <= 65536 * 255) by (nonlinear_arith)
        requires
            m == (b - a) * s,
            0 <= s <= 65536,
            0 <= a <= 255,
            0 <= b <= 255,
    ;
    if s == 65536 {
        assert(m == d * 65536);
    }
    if s == 0 {
        assert(m == 0) by (nonlinear_arith)
            requires
                m == d * s,
                s == 0,
        ;
    }
}

/// Mixtures run from the first colour to the second: the first up to a share of
/// zero, the second from a share of one on, and in between each channel by itself
/// as much of the second as the share says.
pub proof fn mixtures_run_from_first_to_second(a: (u8, u8, u8), b: (u8, u8, u8), t: Fixed)
    ensures
        ({
            let c = mixed(a, b, t);
            let share = t.raw as int;
            &&& t.raw <= 0 ==> c == a
            &&& t.raw >= 65536 ==> c == b
            &&& 0 <= t.raw <= 65536 ==> {
                &&& blends_channels(c.0, a.0, b.0, share)
                &&& blends_channels(c.1, a.1, b.1, share)
                &&& blends_channels(c.2, a.2, b.2, share)
            }
        }),
{
    let s = clamped(t, Fixed::of_int(0), Fixed::of_int(1));
    lemma_mixed_channel(a.0, b.0, s);
    lemma_mixed_channel(a.1, b.1, s);
    lemma_mixed_channel(a.2, b.2, s);
}

/// Shading scales every channel by its factor, and stops at white.
pub proof fn shades_scale_every_channel(c: (u8, u8, u8), factor: Fixed)
    requires
        0 <= factor.raw <= 0x1_0000_0000,
    ensures
        ({
            let d = shaded(c, factor);
            let scaled = |x: u8|
                if x * factor.raw >= 255 * 65536 {
                    255int
                } else {
                    (x * factor.raw) / 65536
                };
            d.0 == scaled(c.0) && d.1 == scaled(c.1) && d.2 == scaled(c.2)
        }),
{
    lemma_shaded(c.0, factor);
    lemma_shaded(c.1, factor);
    lemma_shaded(c.2, factor);
}

proof fn lemma_shaded(c: u8, factor: Fixed)
    requires
        0 <= factor.raw <= 0x1_0000_0000,
    ensures
        shaded_channel(c, factor) == if c * factor.raw >= 255 * 65536 {
            255
        } else {
            (c * factor.raw) / 65536
        },
{
    let x = Fixed::of_int(c as int);
    lemma_product(x, factor);
    let f = factor.raw as int;
    let m = c * f;
    assert(((c * 65536) * f) / 65536 == m && 0 <= m) by (nonlinear_arith)
        requires
            m == c * f,
            0 <= f,
            0 <= c,
    ;
    assert(x.mul(factor).raw == m);
}

// --- ramps -----------------------------------------------------------------
/// The value of a stop, in raw units.
pub open spec fn stop_value(ramp: ColorRamp, i: int) -> int {
    (ramp.stop(i).0 * 65536) / 100
}

proof fn lemma_stops_rise(ramp: ColorRamp, i: int)
    requires
        0 <= i,
        i + 1 < ramp.count(),
    ensures
        ramp.value_at::<Fixed>(i).raw == stop_value(ramp, i),
        ramp.value_at::<Fixed>(i + 1).raw == stop_value(ramp, i + 1),
        stop_value(ramp, i) + 10000 < stop_value(ramp, i + 1),
        -0x100_0000 <= stop_value(ramp, i) <= 0x100_0000,
        -0x100_0000 <= stop_value(ramp, i + 1) <= 0x100_0000,
{
}

/// Between two stops a ramp mixes their colours by how far the value has come from
/// the one to the other; at a stop it has the stop's own colour.
pub proof fn ramps_mix_the_stops_around(ramp: ColorRamp, v: Fixed, i: int)
    requires
        0 <= i,
        i + 1 < ramp.count(),
        stop_value(ramp, i) <= v.raw <= stop_value(ramp, i + 1),
    ensures
        ({
            let (_, r0, g0, b0) = ramp.stop(i);
            let (_, r1, g1, b1) = ramp.stop(i + 1);
            let width = stop_value(ramp, i + 1) - stop_value(ramp, i);
            let share = ((v.raw - stop_value(ramp, i)) * 65536) / width;
            let c = ramp.color_of(v);
            &&& 0 <= share <= 65536
            &&& blends_channels(c.0, r0, r1, share)
            &&& blends_channels(c.1, g0, g1, share)
            &&& blends_channels(c.2, b0, b1, share)
            &&& v.raw == stop_value(ramp, i) ==> c == (r0, g0, b0)
            &&& v.raw == stop_value(ramp, i + 1) ==> c == (r1, g1, b1)
        }),
{
    lemma_stops_rise(ramp, i);
    let t = share_between(v, ramp.value_at::<Fixed>(i), ramp.value_at::<Fixed>(i + 1));
    lemma_share(v, ramp.value_at::<Fixed>(i), ramp.value_at::<Fixed>(i + 1));
    mixtures_run_from_first_to_second(ramp.color_at(i), ramp.color_at(i + 1), t);
    if v.raw > stop_value(ramp, i) {
        lemma_climb(ramp, v, 0, i);
        lemma_below(ramp, 0, i);
        lemma_segment(ramp, v, i);
    } else if i > 0 {
        lemma_stops_rise(ramp, i - 1);
        lemma_share(v, ramp.value_at::<Fixed>(i - 1), ramp.value_at::<Fixed>(i));
        mixtures_run_from_first_to_second(
            ramp.color_at(i - 1),
            ramp.color_at(i),
            share_between(v, ramp.value_at::<Fixed>(i - 1), ramp.value_at::<Fixed>(i)),
        );
        lemma_climb(ramp, v, 0, i - 1);
        lemma_below(ramp, 0, i - 1);
        lemma_segment(ramp, v, i - 1);
    }
}

spec fn share_between(v: Fixed, v0: Fixed, v1: Fixed) -> Fixed {
    v.sub(v0).div(v1.sub(v0))
}

proof fn lemma_share(v: Fixed, v0: Fixed, v1: Fixed)
    requires
        -0x100_0000 <= v0.raw <= v.raw <= v1.raw <= 0x100_0000,
        v0.raw < v1.raw,
    ensures
        ({
            let t = share_between(v, v0, v1).raw;
            &&& t == ((v.raw - v0.raw) * 65536) / (v1.raw - v0.raw)
            &&& 0 <= t <= 65536
            &&& v == v0 ==> t == 0
            &&& v == v1 ==> t == 65536
        }),
{
    let rise = v.raw - v0.raw;
    let width = v1.raw - v0.raw;
    let share = (rise * 65536) / width;
    assert(0 <= share <= 65536 && (rise == 0 ==> share == 0) && (rise == width ==> share == 65536))
        by (nonlinear_arith)
        requires
            share == (rise * 65536) / width,
            0 <= rise <= width,
            0 < width,
    ;
}

/// Between two stops the colour is mixed from them.
proof fn lemma_segment(ramp: ColorRamp, v: Fixed, i: int)
    requires
        0 <= i,
        i + 1 < ramp.count(),
        stop_value(ramp, i) <= v.raw <= stop_value(ramp, i + 1),
    ensures
        ramp.color_above(v, i) == mixed(
            ramp.color_at(i),
            ramp.color_at(i + 1),
            share_between(v, ramp.value_at::<Fixed>(i), ramp.value_at::<Fixed>(i + 1)),
        ),
{
    lemma_stops_rise(ramp, i);
    assert(Fixed::ratio(1, 1_000_000_000).raw == 0);
}

/// A ramp passes the stops below a value one by one.
proof fn lemma_climb(ramp: ColorRamp, v: Fixed, from: int, i: int)
    requires
        0 <= from <= i,
        i + 1 < ramp.count(),
        from == 0 || stop_value(ramp, from) < v.raw,
        i == 0 || stop_value(ramp, i) < v.raw,
        v.raw <= stop_value(ramp, i + 1),
    ensures
        stop_value(ramp, i) < v.raw ==> ramp.color_above(v, from) == ramp.color_above(v, i),
        from == 0 && stop_value(ramp, 0) < v.raw ==> ramp.color_of(v) == ramp.color_above(v, i),
    decreases i - from,
{
    lemma_stops_rise(ramp, from);
    if from < i {
        lemma_stops_rise(ramp, from);
        lemma_below(ramp, from + 1, i);
        assert(stop_value(ramp, from + 1) < v.raw);
        lemma_climb(ramp, v, from + 1, i);
        lemma_below(ramp, 0, from + 1);
    }
}

proof fn lemma_below(ramp: ColorRamp, i: int, j: int)
    requires
        0 <= i <= j,
        j < ramp.count(),
    ensures
        stop_value(ramp, i) <= stop_value(ramp, j),
    decreases j - i,
{
    if i < j {
        lemma_stops_rise(ramp, i);
        lemma_below(ramp, i + 1, j);
    }
}

/// A layer spans its ramp: what is at or below the low end has the colour of the
/// first stop, what is at or above the high end that of the last.
pub proof fn layers_span_their_ramp(ramp: ColorRamp, value: Fixed, lo: Fixed, hi: Fixed)
    requires
        !(ramp is Hypsometric),
        lo.raw < hi.raw,
        hi.raw - lo.raw <= i64::MAX,
        i64::MIN <= value.raw - lo.raw <= i64::MAX,
    ensures
        ({
            let (_, r0, g0, b0) = ramp.stop(0);
            let (_, r1, g1, b1) = ramp.stop(ramp.count() - 1);
            let c = scaled_color(ramp, value, lo, hi);
            &&& value.raw <= lo.raw ==> c == (r0, g0, b0)
            &&& value.raw >= hi.raw ==> c == (r1, g1, b1)
            &&& lo.raw <= value.raw <= hi.raw ==> c == ramp.color_of(
                (Fixed { raw: (((value.raw - lo.raw) * 65536) / (hi.raw - lo.raw)) as i64 }),
            )
        }),
{
    assert(Fixed::ratio(1, 1_000_000).raw == 0);
    let span = hi.raw - lo.raw;
    let rise = value.raw - lo.raw;
    let q = (rise * 65536) / span;
    assert((rise <= 0 ==> q <= 0) && (rise >= span ==> q >= 65536) && (0 <= rise <= span ==> 0 <= q
        <= 65536)) by (nonlinear_arith)
        requires
            q == (rise * 65536) / span,
            0 < span,
    ;
    let t = clamped(value.sub(lo).div(hi.sub(lo)), Fixed::of_int(0), Fixed::of_int(1));
    let last = ramp.count() - 2;
    assert(stop_value(ramp, 0) == 0);
    assert(stop_value(ramp, last + 1) == 65536);
    if value.raw <= lo.raw {
        assert(t.raw == 0);
        lemma_stops_rise(ramp, 0);
        ramps_mix_the_stops_around(ramp, t, 0);
    }
    if value.raw >= hi.raw {
        assert(t.raw == 65536);
        lemma_stops_rise(ramp, last);
        ramps_mix_the_stops_around(ramp, t, last);
    }
}

/// The stop at or below a value, with another one above it.
proof fn stop_below(ramp: ColorRamp, v: Fixed, last: int) -> (i: int)
    requires
        0 <= last,
        last + 1 < ramp.count(),
        stop_value(ramp, 0) <= v.raw <= stop_value(ramp, last + 1),
    ensures
        0 <= i <= last,
        stop_value(ramp, i) <= v.raw <= stop_value(ramp, i + 1),
    decreases last,
{
    if stop_value(ramp, last) <= v.raw {
        last
    } else {
        stop_below(ramp, v, last - 1)
    }
}

/// A mixture of channels that are in order is in order.
proof fn lemma_channels_keep_order(c: u8, a0: u8, a1: u8, d: u8, b0: u8, b1: u8, s: int, t: int)
    requires
        0 <= s <= 65536,
        0 <= t <= 65536,
        blends_channels(c, a0, a1, s),
        blends_channels(d, b0, b1, t),
        (65536 - s) * a0 + s * a1 <= (65536 - t) * b0 + t * b1,
    ensures
        c <= d,
{
}

/// The elevation tint tells sea from land: from a quarter below the sea level down
/// blue outweighs green, and green red; on land below the snow line red outweighs
/// blue.
pub proof fn the_sea_is_blue(v: Fixed)
    requires
        -9 * 65536 <= v.raw <= 7 * 65536,
    ensures
        ({
            let c = ColorRamp::Hypsometric.color_of(v);
            &&& 4 * v.raw <= -65536 ==> c.0 < c.2 && c.0 <= c.1 <= c.2
            &&& 0 <= v.raw && 10 * v.raw <= 64 * 65536 ==> c.2 <= c.0
        }),
{
    let ramp = ColorRamp::Hypsometric;
    assert(stop_value(ramp, 0) == -9 * 65536 && stop_value(ramp, 3) == -16384 && stop_value(ramp, 4)
        == 0 && stop_value(ramp, 9) == 419430 && stop_value(ramp, 10) == 498073);
    let i = stop_below(ramp, v, 9);
    lemma_sea_and_land(v, i);
}

proof fn lemma_sea_and_land(v: Fixed, i: int)
    requires
        0 <= i <= 9,
        stop_value(ColorRamp::Hypsometric, i) <= v.raw <= stop_value(ColorRamp::Hypsometric, i + 1),
    ensures
        ({
            let c = ColorRamp::Hypsometric.color_of(v);
            &&& v.raw <= -16384 ==> c.0 < c.2 && c.0 <= c.1 <= c.2
            &&& 0 <= v.raw <= 419430 ==> c.2 <= c.0
        }),
{
    let ramp = ColorRamp::Hypsometric;
    ramps_mix_the_stops_around(ramp, v, i);
    let (_, r0, g0, b0) = ramp.stop(i);
    let (_, r1, g1, b1) = ramp.stop(i + 1);
    let c = ramp.color_of(v);
    let width = stop_value(ramp, i + 1) - stop_value(ramp, i);
    let s = ((v.raw - stop_value(ramp, i)) * 65536) / width;
    if i <= 2 {
        assert(r0 + 2 <= b0 && r1 + 2 <= b1 && r0 <= g0 <= b0 && r1 <= g1 <= b1);
        assert((65536 - s) * (r0 + 2) + s * (r1 + 2) <= (65536 - s) * b0 + s * b1)
            by (nonlinear_arith)
            requires
                0 <= s <= 65536,
                r0 + 2 <= b0,
                r1 + 2 <= b1,
        ;
        assert((65536 - s) * (r0 + 2) + s * (r1 + 2) == (65536 - s) * r0 + s * r1 + 131072)
            by (nonlinear_arith);
        assert((65536 - s) * r0 + s * r1 <= (65536 - s) * g0 + s * g1 && (65536 - s) * g0 + s * g1
            <= (65536 - s) * b0 + s * b1) by (nonlinear_arith)
            requires
                0 <= s <= 65536,
                r0 <= g0 <= b0,
                r1 <= g1 <= b1,
        ;
    } else if 4 <= i <= 8 {
        assert(b0 <= r0 && b1 <= r1);
        assert((65536 - s) * b0 + s * b1 <= (65536 - s) * r0 + s * r1) by (nonlinear_arith)
            requires
                0 <= s <= 65536,
                b0 <= r0,
                b1 <= r1,
        ;
    } else if i == 3 {
        assert(v.raw <= -16384 ==> c == (r0, g0, b0));
        assert(v.raw >= 0 ==> c == (r1, g1, b1));
    } else {
        assert(stop_value(ramp, 9) == 419430);
        assert(v.raw <= 419430 ==> c == (r0, g0, b0));
    }
}

/// The red of a layer's ramp only rises with the value, or only falls.
pub open spec fn red_rises(ramp: ColorRamp) -> bool {
    ramp is Inferno || ramp is Flow
}

/// Layers read as one scale: red rises with the value where it shows strength or
/// flow, and falls where it shows age or rain.
pub proof fn layers_read_as_one_scale(ramp: ColorRamp, v: Fixed, more: Fixed)
    requires
        !(ramp is Hypsometric),
        0 <= v.raw <= more.raw <= 65536,
    ensures
        red_rises(ramp) ==> ramp.color_of(v).0 <= ramp.color_of(more).0,
        !red_rises(ramp) ==> ramp.color_of(v).0 >= ramp.color_of(more).0,
{
    let last = ramp.count() - 2;
    assert(stop_value(ramp, 0) == 0 && stop_value(ramp, last + 1) == 65536);
    let i = stop_below(ramp, v, last);
    let j = stop_below(ramp, more, last);
    ramps_mix_the_stops_around(ramp, v, i);
    ramps_mix_the_stops_around(ramp, more, j);
    lemma_reds_in_order(ramp, i);
    lemma_reds_in_order(ramp, j);
    let s = ((v.raw - stop_value(ramp, i)) * 65536) / (stop_value(ramp, i + 1) - stop_value(
        ramp,
        i,
    ));
    let t = ((more.raw - stop_value(ramp, j)) * 65536) / (stop_value(ramp, j + 1) - stop_value(
        ramp,
        j,
    ));
    let a = ramp.stop(i).1;
    let b = ramp.stop(i + 1).1;
    let c = ramp.stop(j).1;
    let d = ramp.stop(j + 1).1;
    lemma_between(a, b, s);
    lemma_between(c, d, t);
    if i == j {
        let low = stop_value(ramp, i);
        let width = stop_value(ramp, i + 1) - low;
        lemma_stops_rise(ramp, i);
        assert(s <= t) by (nonlinear_arith)
            requires
                s == ((v.raw - low) * 65536) / width,
                t == ((more.raw - low) * 65536) / width,
                v.raw <= more.raw,
                0 < width,
        ;
        assert(a <= b ==> (65536 - s) * a + s * b <= (65536 - t) * a + t * b) by (nonlinear_arith)
            requires
                s <= t,
        ;
        assert(a >= b ==> (65536 - s) * a + s * b >= (65536 - t) * a + t * b) by (nonlinear_arith)
            requires
                s <= t,
        ;
    } else if i < j {
        lemma_reds_apart(ramp, i + 1, j);
    } else {
        lemma_below(ramp, j + 1, i);
        assert(v.raw == more.raw);
    }
}

proof fn lemma_between(a: u8, b: u8, s: int)
    requires
        0 <= s <= 65536,
    ensures
        a <= b ==> 65536 * a <= (65536 - s) * a + s * b <= 65536 * b,
        b <= a ==> 65536 * b <= (65536 - s) * a + s * b <= 65536 * a,
{
    assert((a <= b ==> 65536 * a <= (65536 - s) * a + s * b <= 65536 * b) && (b <= a ==> 65536 * b
        <= (65536 - s) * a + s * b <= 65536 * a)) by (nonlinear_arith)
        requires
            0 <= s <= 65536,
    ;
}

proof fn lemma_reds_in_order(ramp: ColorRamp, i: int)
    requires
        !(ramp is Hypsometric),
        0 <= i,
        i + 1 < ramp.count(),
    ensures
        red_rises(ramp) ==> ramp.stop(i).1 <= ramp.stop(i + 1).1,
        !red_rises(ramp) ==> ramp.stop(i).1 >= ramp.stop(i + 1).1,
{
}

proof fn lemma_reds_apart(ramp: ColorRamp, i: int, j: int)
    requires
        !(ramp is Hypsometric),
        0 <= i <= j < ramp.count(),
    ensures
        red_rises(ramp) ==> ramp.stop(i).1 <= ramp.stop(j).1,
        !red_rises(ramp) ==> ramp.stop(i).1 >= ramp.stop(j).1,
    decreases j - i,
{
    if i < j {
        lemma_reds_in_order(ramp, i);
        lemma_reds_apart(ramp, i + 1, j);
    }
}

// --- boundaries ------------------------------------------------------------
/// Boundaries are told apart by their colour, however strong they are: red where
/// plates converge, blue where they part and green along transform faults. A
/// stronger boundary is never darker, the strongest is bright, and the weakest is
/// still seen.
pub proof fn boundaries_are_told_apart(b: Boundary<Fixed>, stronger: Boundary<Fixed>, peak: Fixed)
    requires
        0 < peak.raw,
        b.kind == stronger.kind,
        b.strength.raw <= stronger.strength.raw,
    ensures
        ({
            let c = boundary_color(b, peak);
            let d = boundary_color(stronger, peak);
            let lead = |c: (u8, u8, u8)|
                match b.kind {
                    BoundaryKind::Convergent => c.0,
                    BoundaryKind::Divergent => c.2,
                    BoundaryKind::Transform => c.1,
                };
            &&& b.kind is Convergent ==> c.0 > c.1 && c.0 > c.2
            &&& b.kind is Divergent ==> c.2 > c.1 && c.2 > c.0
            &&& b.kind is Transform ==> c.1 > c.0 && c.1 > c.2
            &&& c.0 <= d.0 && c.1 <= d.1 && c.2 <= d.2
            &&& 70 <= lead(c)
            &&& b.strength.raw <= 0 ==> lead(c) <= 90
            &&& b.strength.raw >= peak.raw ==> lead(c) >= 200
        }),
{
    let s = glow(b.strength, peak);
    let t = glow(stronger.strength, peak);
    lemma_glow(b.strength, stronger.strength, peak);
    let black = (0u8, 0u8, 0u8);
    let hue = kind_hue(b.kind);
    mixtures_run_from_first_to_second(black, hue, s);
    mixtures_run_from_first_to_second(black, hue, t);
    let c = boundary_color(b, peak);
    let d = boundary_color(stronger, peak);
    let m = s.raw as int;
    let n = t.raw as int;
    lemma_lit_channel(c.0, d.0, hue.0, m, n);
    lemma_lit_channel(c.1, d.1, hue.1, m, n);
    lemma_lit_channel(c.2, d.2, hue.2, m, n);
}

proof fn lemma_lit_channel(c: u8, d: u8, hue: u8, m: int, n: int)
    requires
        22937 <= m <= n <= 65536,
        blends_channels(c, 0, hue, m),
        blends_channels(d, 0, hue, n),
    ensures
        m * hue - 65536 < 65536 * c <= m * hue,
        c <= d,
{
    assert((65536 - m) * 0 + m * hue == m * hue && (65536 - n) * 0 + n * hue == n * hue && m * hue
        <= n * hue) by (nonlinear_arith)
        requires
            m <= n,
            0 <= hue,
    ;
}

spec fn glow(strength: Fixed, peak: Fixed) -> Fixed {
    Fixed::ratio(35, 100).add(
        Fixed::ratio(65, 100).mul(
            clamped(strength.div(peak), Fixed::of_int(0), Fixed::of_int(1)),
        ),
    )
}

proof fn lemma_glow(weak: Fixed, strong: Fixed, peak: Fixed)
    requires
        0 < peak.raw,
        weak.raw <= strong.raw,
    ensures
        22937 <= glow(weak, peak).raw <= glow(strong, peak).raw <= 65535,
        weak.raw <= 0 ==> glow(weak, peak).raw == 22937,
        weak.raw >= peak.raw ==> glow(weak, peak).raw == 65535,
{
    let p = peak.raw as int;
    let a = weak.raw as int;
    let b = strong.raw as int;
    assert((a * 65536) / p <= (b * 65536) / p && (a <= 0 ==> (a * 65536) / p <= 0) && (a >= p ==> (a
        * 65536) / p >= 65536)) by (nonlinear_arith)
        requires
            0 < p,
            a <= b,
    ;
    assert(Fixed::ratio(35, 100).raw == 22937 && Fixed::ratio(65, 100).raw == 42598);
    let s = clamped(weak.div(peak), Fixed::of_int(0), Fixed::of_int(1));
    let t = clamped(strong.div(peak), Fixed::of_int(0), Fixed::of_int(1));
    assert(0 <= s.raw <= t.raw <= 65536);
    lemma_product(s, Fixed::ratio(65, 100));
    lemma_product(t, Fixed::ratio(65, 100));
}

// --- hues ------------------------------------------------------------------
/// Hues go around the wheel: from red over yellow, green, cyan, blue and magenta
/// back to red, with the brightest channel as bright as the value says and none
/// darker than the saturation leaves it.
pub proof fn hues_go_around_the_wheel(h: Fixed, s: Fixed, v: Fixed)
    requires
        0 <= h.raw < 65536,
        0 <= s.raw <= 65536,
        0 <= v.raw <= 65536,
    ensures
        ({
            let c = hsv_color(h, s, v);
            let top = (v.raw * 255) / 65536;
            let sixth = (h.raw * 6) / 65536;
            let low = (((v.raw * (65536 - s.raw)) / 65536) * 255) / 65536;
            &&& sixth == 0 ==> c.0 == top && c.0 >= c.1 >= c.2
            &&& sixth == 1 ==> c.1 == top && c.1 >= c.0 >= c.2
            &&& sixth == 2 ==> c.1 == top && c.1 >= c.2 >= c.0
            &&& sixth == 3 ==> c.2 == top && c.2 >= c.1 >= c.0
            &&& sixth == 4 ==> c.2 == top && c.2 >= c.0 >= c.1
            &&& sixth == 5 ==> c.0 == top && c.0 >= c.2 >= c.1
            &&& (c.0 == low || c.1 == low || c.2 == low) && low <= c.0 && low <= c.1 && low <= c.2
            &&& s.raw == 0 ==> c == (top as u8, top as u8, top as u8)
            &&& s.raw == 65536 ==> c.0 == 0 || c.1 == 0 || c.2 == 0
        }),
{
    let six = Fixed::of_int(6);
    let one = Fixed::of_int(1);
    assert(six.raw == 393216);
    lemma_product(h, six);
    let x = h.mul(six);
    assert((h.raw * 393216) / 65536 == h.raw * 6);
    assert(x.raw == h.raw * 6);
    let sector = x.floor() as int;
    assert(sector == (h.raw * 6) / 65536);
    let f = x.sub(Fixed::of_int(sector));
    assert(0 <= f.raw < 65536);
    let k = s.raw as int;
    let g = f.raw as int;
    let u = 65536 - g;
    lemma_product(f, s);
    lemma_product(one.sub(f), s);
    lemma_share_of(g, k);
    lemma_share_of(u, k);
    let dim = one.sub(s);
    let down = one.sub(f.mul(s));
    let up = one.sub(one.sub(f).mul(s));
    assert(dim.raw == 65536 - k);
    assert(down.raw == 65536 - (g * k) / 65536);
    assert(up.raw == 65536 - (u * k) / 65536);
    lemma_byte(v, dim, down);
    lemma_byte(v, dim, up);
    lemma_byte(v, down, one);
    lemma_byte(v, up, one);
    assert((v.raw * 65536) / 65536 == v.raw);
    lemma_product(v, one);
    assert(v.mul(one) == v);
    lemma_product(v, Fixed::of_int(255));
    assert(v.mul(Fixed::of_int(255)).raw == v.raw * 255) by {
        assert((v.raw * (255 * 65536)) / 65536 == v.raw * 255);
    }
    lemma_product(v, dim);
    let faint = (v.raw * (65536 - k)) / 65536;
    assert(0 <= faint <= 65536) by (nonlinear_arith)
        requires
            faint == (v.raw * (65536 - k)) / 65536,
            0 <= v.raw <= 65536,
            0 <= k <= 65536,
    ;
    assert(v.mul(dim).raw == faint);
    lemma_product(v.mul(dim), Fixed::of_int(255));
    assert((faint * (255 * 65536)) / 65536 == faint * 255);
    if k == 0 {
        assert(g * k == 0 && u * k == 0) by (nonlinear_arith)
            requires
                k == 0,
        ;
    }
    if k == 65536 {
        assert(v.mul(dim).raw == 0) by {
            assert(v.raw * 0 == 0);
        }
    }
}

proof fn lemma_share_of(g: int, k: int)
    requires
        0 <= g <= 65536,
        0 <= k <= 65536,
    ensures
        0 <= (g * k) / 65536 <= k,
{
    assert(0 <= g * k <= 65536 * k) by (nonlinear_arith)
        requires
            0 <= g <= 65536,
            0 <= k,
    ;
}

proof fn lemma_byte(v: Fixed, a: Fixed, b: Fixed)
    requires
        0 <= v.raw <= 65536,
        0 <= a.raw <= b.raw <= 65536,
    ensures
        v.mul(a).mul(Fixed::of_int(255)).byte() <= v.mul(b).mul(Fixed::of_int(255)).byte(),
{
    lemma_product(v, a);
    lemma_product(v, b);
    let p = (v.raw * a.raw) / 65536;
    let q = (v.raw * b.raw) / 65536;
    assert(0 <= p <= q <= 65536) by (nonlinear_arith)
        requires
            p == (v.raw * a.raw) / 65536,
            q == (v.raw * b.raw) / 65536,
            0 <= v.raw <= 65536,
            0 <= a.raw <= b.raw <= 65536,
    ;
    lemma_product(v.mul(a), Fixed::of_int(255));
    lemma_product(v.mul(b), Fixed::of_int(255));
    assert((p * (255 * 65536)) / 65536 == p * 255 && (q * (255 * 65536)) / 65536 == q * 255);
}

/// The colours of plates are neither pale nor glaring: the brightest channel of each
/// lies between half and seven eighths of full brightness, the darkest between a
/// sixth and a half.
pub proof fn plate_colours_are_muted(id: u16)
    ensures
        ({
            let c = plate_tint::<Fixed>(id);
            let top = if c.0 >= c.1 && c.0 >= c.2 {
                c.0
            } else if c.1 >= c.2 {
                c.1
            } else {
                c.2
            };
            let low = if c.0 <= c.1 && c.0 <= c.2 {
                c.0
            } else if c.1 <= c.2 {
                c.1
            } else {
                c.2
            };
            139 <= top <= 217 && 46 <= low <= 120
        }),
{
    let n = Fixed::of_int(id as int);
    let h = fraction_of(n.mul(Fixed::ratio(618_034, 1_000_000)));
    let a = fraction_of(n.mul(Fixed::ratio(37, 100)));
    let b = fraction_of(n.mul(Fixed::ratio(71, 100)));
    assert(n.raw == id * 65536);
    assert(Fixed::ratio(618_034, 1_000_000).raw == 40503 && Fixed::ratio(37, 100).raw == 24248
        && Fixed::ratio(71, 100).raw == 46530);
    lemma_product(n, Fixed::ratio(618_034, 1_000_000));
    lemma_product(n, Fixed::ratio(37, 100));
    lemma_product(n, Fixed::ratio(71, 100));
    lemma_fraction(n.mul(Fixed::ratio(618_034, 1_000_000)));
    lemma_fraction(n.mul(Fixed::ratio(37, 100)));
    lemma_fraction(n.mul(Fixed::ratio(71, 100)));
    assert(Fixed::ratio(45, 100).raw == 29491 && Fixed::ratio(2, 10).raw == 13107);
    assert(Fixed::ratio(55, 100).raw == 36044 && Fixed::ratio(3, 10).raw == 19660);
    lemma_product(a, Fixed::ratio(2, 10));
    lemma_product(b, Fixed::ratio(3, 10));
    let s = Fixed::ratio(45, 100).add(Fixed::ratio(2, 10).mul(a));
    let v = Fixed::ratio(55, 100).add(Fixed::ratio(3, 10).mul(b));
    assert(29491 <= s.raw <= 42598 && 36044 <= v.raw <= 55704);
    hues_go_around_the_wheel(h, s, v);
    let k = s.raw as int;
    let m = v.raw as int;
    assert(36044 * (65536 - 42598) <= m * (65536 - k) <= 55704 * (65536 - 29491))
        by (nonlinear_arith)
        requires
            29491 <= k <= 42598,
            36044 <= m <= 55704,
    ;
}

proof fn lemma_fraction(x: Fixed)
    requires
        0 <= x.raw <= 0x1000_0000_0000,
    ensures
        fraction_of(x).raw == x.raw as int % 65536,
{
}

} // verus!
