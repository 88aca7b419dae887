//! Colours: mixing, shading, and the ramps that values are tinted with.

use crate::canvas::channels;
use crate::scalar::{abs_of, clamp_to, clamped, magnitude, Scalar};
use vstd::prelude::*;

verus! {

/// A colour ramp: stops in ascending order, with colours mixed in between.
#[derive(Clone, Copy, Debug, PartialEq, Eq, Structural)]
pub enum ColorRamp {
    Hypsometric,
    Inferno,
    Age,
    Rain,
    Flow,
}

/// Elevation tint. Stops are in the simulation's elevation units, with sea
/// level at 0.
pub const HYPSOMETRIC: ColorRamp = ColorRamp::Hypsometric;

pub const INFERNO: ColorRamp = ColorRamp::Inferno;

pub const AGE: ColorRamp = ColorRamp::Age;

pub const RAIN: ColorRamp = ColorRamp::Rain;

pub const FLOW: ColorRamp = ColorRamp::Flow;

/// Stops: a value in hundredths, and its colour.
pub const HYPSOMETRIC_STOPS: [(i64, u8, u8, u8); 11] = [
    (-900, 8, 24, 58),
    (-500, 14, 52, 104),
    (-150, 32, 96, 158),
    (-25, 86, 148, 194),
    (0, 206, 194, 148),
    (35, 104, 148, 84),
    (160, 142, 158, 92),
    (300, 152, 130, 88),
    (480, 124, 106, 90),
    (640, 170, 162, 156),
    (760, 246, 246, 248),
];

pub const INFERNO_STOPS: [(i64, u8, u8, u8); 5] = [
    (0, 8, 8, 20),
    (25, 72, 20, 92),
    (50, 176, 48, 78),
    (75, 238, 122, 32),
    (100, 252, 252, 190),
];

pub const AGE_STOPS: [(i64, u8, u8, u8); 4] = [
    (0, 250, 248, 168),
    (35, 228, 128, 70),
    (70, 150, 52, 96),
    (100, 34, 24, 72),
];

pub const RAIN_STOPS: [(i64, u8, u8, u8); 4] = [
    (0, 246, 238, 208),
    (30, 162, 206, 156),
    (60, 58, 150, 168),
    (100, 24, 52, 128),
];

pub const FLOW_STOPS: [(i64, u8, u8, u8); 4] = [
    (0, 12, 16, 26),
    (40, 30, 70, 110),
    (75, 86, 162, 206),
    (100, 232, 248, 255),
];

// --- mixing ----------------------------------------------------------------
pub open spec fn mixed_channel<S: Scalar>(a: u8, b: u8, t: S) -> u8 {
    S::of_int(a as int).add(S::of_int(b as int).sub(S::of_int(a as int)).mul(t)).byte()
}

/// Two colours mixed: the first at 0, the second at 1.
pub open spec fn mixed<S: Scalar>(a: (u8, u8, u8), b: (u8, u8, u8), t: S) -> (u8, u8, u8) {
    let t = clamped(t, S::of_int(0), S::of_int(1));
    (mixed_channel(a.0, b.0, t), mixed_channel(a.1, b.1, t), mixed_channel(a.2, b.2, t))
}

fn mix_channel<S: Scalar>(a: u8, b: u8, t: S) -> (r: u8)
    ensures
        r == mixed_channel(a, b, t),
{
    let from = S::whole(a as i64);
    from.plus(S::whole(b as i64).minus(from).times(t)).to_byte()
}

pub fn mix<S: Scalar>(a: [u8; 3], b: [u8; 3], t: S) -> (r: [u8; 3])
    ensures
        channels(r) == mixed(channels(a), channels(b), t),
{
    let t = clamp_to(t, S::whole(0), S::whole(1));
    [mix_channel(a[0], b[0], t), mix_channel(a[1], b[1], t), mix_channel(a[2], b[2], t)]
}

pub open spec fn shaded_channel<S: Scalar>(c: u8, factor: S) -> u8 {
    clamped(S::of_int(c as int).mul(factor), S::of_int(0), S::of_int(255)).byte()
}

pub open spec fn shaded<S: Scalar>(c: (u8, u8, u8), factor: S) -> (u8, u8, u8) {
    (shaded_channel(c.0, factor), shaded_channel(c.1, factor), shaded_channel(c.2, factor))
}

fn shade_channel<S: Scalar>(c: u8, factor: S) -> (r: u8)
    ensures
        r == shaded_channel(c, factor),
{
    clamp_to(S::whole(c as i64).times(factor), S::whole(0), S::whole(255)).to_byte()
}

pub fn shade<S: Scalar>(c: [u8; 3], factor: S) -> (r: [u8; 3])
    ensures
        channels(r) == shaded(channels(c), factor),
{
    [shade_channel(c[0], factor), shade_channel(c[1], factor), shade_channel(c[2], factor)]
}

// --- ramps -----------------------------------------------------------------
impl ColorRamp {
    pub open spec fn count(self) -> int {
        match self {
            ColorRamp::Hypsometric => 11,
            ColorRamp::Inferno => 5,
            ColorRamp::Age => 4,
            ColorRamp::Rain => 4,
            ColorRamp::Flow => 4,
        }
    }

    pub open spec fn stop(self, i: int) -> (i64, u8, u8, u8) {
        match self {
            ColorRamp::Hypsometric => HYPSOMETRIC_STOPS[i],
            ColorRamp::Inferno => INFERNO_STOPS[i],
            ColorRamp::Age => AGE_STOPS[i],
            ColorRamp::Rain => RAIN_STOPS[i],
            ColorRamp::Flow => FLOW_STOPS[i],
        }
    }

    pub open spec fn value_at<S: Scalar>(self, i: int) -> S {
        S::ratio(self.stop(i).0 as int, 100)
    }

    pub open spec fn color_at(self, i: int) -> (u8, u8, u8) {
        (self.stop(i).1, self.stop(i).2, self.stop(i).3)
    }

    /// The colour of a value above stop `i`: mixed from the two stops around
    /// it, or that of the last stop.
    pub open spec fn color_above<S: Scalar>(self, v: S, i: int) -> (u8, u8, u8)
        decreases self.count() - i,
    {
        if i + 1 >= self.count() {
            self.color_at(self.count() - 1)
        } else if v.le(self.value_at(i + 1)) {
            let v0: S = self.value_at(i);
            let v1: S = self.value_at(i + 1);
            let t = if magnitude(v1.sub(v0)).lt(S::ratio(1, 1_000_000_000)) {
                S::of_int(0)
            } else {
                v.sub(v0).div(v1.sub(v0))
            };
            mixed(self.color_at(i), self.color_at(i + 1), t)
        } else {
            self.color_above(v, i + 1)
        }
    }

    pub open spec fn color_of<S: Scalar>(self, v: S) -> (u8, u8, u8) {
        if v.le(self.value_at(0)) {
            self.color_at(0)
        } else {
            self.color_above(v, 0)
        }
    }

    fn stop_count(self) -> (r: usize)
        ensures
            r == self.count(),
            r > 0,
    {
        match self {
            ColorRamp::Hypsometric => 11,
            ColorRamp::Inferno => 5,
            ColorRamp::Age => 4,
            ColorRamp::Rain => 4,
            ColorRamp::Flow => 4,
        }
    }

    fn read_stop(self, i: usize) -> (r: (i64, u8, u8, u8))
        requires
            i < self.count(),
        ensures
            r == self.stop(i as int),
    {
        match self {
            ColorRamp::Hypsometric => HYPSOMETRIC_STOPS[i],
            ColorRamp::Inferno => INFERNO_STOPS[i],
            ColorRamp::Age => AGE_STOPS[i],
            ColorRamp::Rain => RAIN_STOPS[i],
            ColorRamp::Flow => FLOW_STOPS[i],
        }
    }

    fn stop_value<S: Scalar>(self, i: usize) -> (r: S)
        requires
            i < self.count(),
        ensures
            r == self.value_at::<S>(i as int),
    {
        S::fraction(self.read_stop(i).0, 100)
    }

    fn stop_color(self, i: usize) -> (r: [u8; 3])
        requires
            i < self.count(),
        ensures
            channels(r) == self.color_at(i as int),
    {
        let (_, red, green, blue) = self.read_stop(i);
        [red, green, blue]
    }

    /// Colour at `v`, interpolating between the surrounding stops.
    pub fn sample<S: Scalar>(self, v: S) -> (r: [u8; 3])
        ensures
            channels(r) == self.color_of(v),
    {
        let n: usize = self.stop_count();
        if v.at_most(self.stop_value(0)) {
            return self.stop_color(0);
        }
        let mut i: usize = 0;
        while i + 1 < n
            invariant
                i < n,
                n == self.count(),
                self.color_of(v) == self.color_above(v, i as int),
            decreases n - i,
        {
            let v1: S = self.stop_value(i + 1);
            if v.at_most(v1) {
                let v0: S = self.stop_value(i);
                let t = if abs_of(v1.minus(v0)).less(S::fraction(1, 1_000_000_000)) {
                    S::whole(0)
                } else {
                    v.minus(v0).over(v1.minus(v0))
                };
                return mix(self.stop_color(i), self.stop_color(i + 1), t);
            }
            i += 1;
        }
        self.stop_color(n - 1)
    }
}

// --- plate colours ---------------------------------------------------------
/// The part of a number behind the point.
pub open spec fn fraction_of<S: Scalar>(x: S) -> S {
    x.sub(S::of_int(x.floor() as int))
}

fn fract<S: Scalar>(x: S) -> (r: S)
    ensures
        r == fraction_of(x),
{
    x.minus(S::whole(x.round_down()))
}

pub open spec fn hsv_color<S: Scalar>(h: S, s: S, v: S) -> (u8, u8, u8) {
    let one = S::of_int(1);
    let sector = h.mul(S::of_int(6)).floor() as int;
    let f = h.mul(S::of_int(6)).sub(S::of_int(sector));
    let p = v.mul(one.sub(s)).mul(S::of_int(255)).byte();
    let q = v.mul(one.sub(f.mul(s))).mul(S::of_int(255)).byte();
    let t = v.mul(one.sub(one.sub(f).mul(s))).mul(S::of_int(255)).byte();
    let v = v.mul(S::of_int(255)).byte();
    if sector % 6 == 0 {
        (v, t, p)
    } else if sector % 6 == 1 {
        (q, v, p)
    } else if sector % 6 == 2 {
        (p, v, t)
    } else if sector % 6 == 3 {
        (p, q, v)
    } else if sector % 6 == 4 {
        (t, p, v)
    } else {
        (v, p, q)
    }
}

fn hsv<S: Scalar>(h: S, s: S, v: S) -> (r: [u8; 3])
    ensures
        channels(r) == hsv_color(h, s, v),
{
    let one = S::whole(1);
    let full = S::whole(255);
    let scaled = h.times(S::whole(6));
    let sector: i64 = scaled.round_down();
    let f = scaled.minus(S::whole(sector));
    let p: u8 = v.times(one.minus(s)).times(full).to_byte();
    let q: u8 = v.times(one.minus(f.times(s))).times(full).to_byte();
    let t: u8 = v.times(one.minus(one.minus(f).times(s))).times(full).to_byte();
    let v: u8 = v.times(full).to_byte();
    match sector.checked_rem_euclid(6).unwrap() {
        0 => [v, t, p],
        1 => [q, v, p],
        2 => [p, v, t],
        3 => [p, q, v],
        4 => [t, p, v],
        _ => [v, p, q],
    }
}

/// The colour of plate `id`.
pub open spec fn plate_tint<S: Scalar>(id: u16) -> (u8, u8, u8) {
    let n = S::of_int(id as int);
    hsv_color(
        fraction_of(n.mul(S::ratio(618_034, 1_000_000))),
        S::ratio(45, 100).add(S::ratio(2, 10).mul(fraction_of(n.mul(S::ratio(37, 100))))),
        S::ratio(55, 100).add(S::ratio(3, 10).mul(fraction_of(n.mul(S::ratio(71, 100))))),
    )
}

/// Distinct, evenly spread plate colours from the golden-ratio hue sequence.
pub fn plate_color<S: Scalar>(id: u16) -> (r: [u8; 3])
    ensures
        channels(r) == plate_tint::<S>(id),
{
    let n = S::whole(id as i64);
    let hue = fract(n.times(S::fraction(618_034, 1_000_000)));
    let sat = S::fraction(45, 100).plus(
        S::fraction(2, 10).times(fract(n.times(S::fraction(37, 100)))),
    );
    let val = S::fraction(55, 100).plus(
        S::fraction(3, 10).times(fract(n.times(S::fraction(71, 100)))),
    );
    hsv(hue, sat, val)
}

// --- laws ------------------------------------------------------------------
proof fn lemma_past_the_stops<S: Scalar>(ramp: ColorRamp, v: S, i: int)
    requires
        0 <= i < ramp.count(),
        forall|j: int|
            0 <= j < ramp.count() ==> !v.le(#[trigger] ramp.value_at::<S>(j)),
    ensures
        ramp.color_above(v, i) == ramp.color_at(ramp.count() - 1),
    decreases ramp.count() - i,
{
    if i + 1 < ramp.count() {
        assert(!v.le(ramp.value_at::<S>(i + 1)));
        lemma_past_the_stops(ramp, v, i + 1);
    }
}

/// Ramps are clamped at both ends: up to the first stop they have its colour,
/// and past all stops they have that of the last.
pub proof fn ramps_are_clamped<S: Scalar>(ramp: ColorRamp, v: S)
    ensures
        v.le(ramp.value_at::<S>(0)) ==> ramp.color_of(v) == ramp.color_at(0),
        (forall|j: int| 0 <= j < ramp.count() ==> !v.le(#[trigger] ramp.value_at::<S>(j)))
            ==> ramp.color_of(v) == ramp.color_at(ramp.count() - 1),
{
    if forall|j: int| 0 <= j < ramp.count() ==> !v.le(#[trigger] ramp.value_at::<S>(j)) {
        assert(!v.le(ramp.value_at::<S>(0)));
        lemma_past_the_stops(ramp, v, 0);
    }
}

} // verus!
