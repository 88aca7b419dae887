//! How crust is made, how it sinks as it ages, and what keeps it in bounds.

use crate::boundary::Boundary;
use crate::curves::{bells_peak_at_their_center, lemma_product, lemma_times_one};
use crate::fixed::{saturated, Fixed};
use crate::landforms::{is_rate, lemma_faded_rate};
use crate::math::{bell, blend, hermite, lemma_ramp_rounding};
use crate::plate::{Plate, PlateId};
use crate::scalar::{clamped, Scalar};
use crate::tectonics::{
    age_gathered, cells_held, deformed, effect_of, faded, mean_age, reach_of, rise_along_a_rift,
    settled, softened, worked, Effect, TectonicParams,
};
use vstd::prelude::*;

verus! {

// --- where plates part -----------------------------------------------------
/// What is left of a rate at a distance: all of it on the boundary, a ninth of it
/// at least up to seven tenths of the radius, nothing from the radius on.
pub open spec fn fades(left: int, rate: Fixed, d: Fixed, radius: Fixed) -> bool {
    &&& 0 <= left <= rate.raw
    &&& d.raw == 0 ==> left == rate.raw
    &&& d.le(radius.mul(Fixed::ratio(7, 10))) ==> 9 * left + 9 >= rate.raw
    &&& radius.le(d) ==> left == 0
}

proof fn lemma_fades(rate: Fixed, d: Fixed, radius: Fixed)
    requires
        is_rate(rate),
        0x1_0000 <= radius.raw <= 0x1000_0000_0000,
        0 <= d.raw,
    ensures
        fades(rate.mul(faded(d, radius)).raw as int, rate, d, radius),
{
    let one = Fixed::of_int(1);
    lemma_times_one(rate);
    lemma_faded_rate(rate, one, d, radius);
}

/// Parameters of a spreading boundary that stay far from the ends of the range.
pub open spec fn spreads(p: TectonicParams<Fixed>, b: Boundary<Fixed>) -> bool {
    &&& b.kind is Divergent
    &&& is_rate(b.strength)
    &&& is_rate(p.ridge_rate)
    &&& is_rate(p.rift_rate)
    &&& is_rate(p.shoulder_rate)
    &&& 0x1_0000 <= p.ridge_radius.raw <= 0x1000_0000_0000
    &&& 0x1_0000 <= p.rift_radius.raw <= 0x1000_0000_0000
    &&& 0x1_0000 <= p.new_crust_radius.raw <= 0x1000_0000_0000
}

/// A mid-ocean ridge: the ridge lifts the ocean floor by seven fifths of its rate
/// at the axis, the wider basin takes half of the rift rate away, and fresh crust
/// comes up as strongly as the plates part, each of them less with the distance
/// and nothing outside its own radius. Gives what is left of the ridge and of
/// the basin, and what they make together per strength.
pub proof fn ridges_rise_from_the_ocean_floor(
    p: TectonicParams<Fixed>,
    b: Boundary<Fixed>,
    plates: Seq<Plate<Fixed>>,
    plate_age: Seq<Fixed>,
    own: PlateId,
    d: Fixed,
    texture: Fixed,
) -> (parts: (int, int, int))
    requires
        spreads(p, b),
        plates[own as int].crust_type is Oceanic,
        0 <= d.raw,
    ensures
        ({
            let (ridge, basin, rise) = parts;
            let e = effect_of(p, b, plates, plate_age, own, d, texture);
            &&& fades(ridge, p.ridge_rate, d, p.ridge_radius)
            &&& fades(basin, p.rift_rate, d, p.rift_radius)
            &&& 14 * ridge - 5 * basin - 11 - ridge / 10_000 <= 10 * rise <= 14 * ridge - 5 * basin
                + 10
            &&& e.delta.raw == (b.strength.raw * rise) / 65536
            &&& fades(e.new_crust.raw as int, b.strength, d, p.new_crust_radius)
        }),
{
    lemma_fades(p.ridge_rate, d, p.ridge_radius);
    lemma_fades(p.rift_rate, d, p.rift_radius);
    lemma_fades(b.strength, d, p.new_crust_radius);
    let ridge = p.ridge_rate.mul(faded(d, p.ridge_radius));
    let basin = p.rift_rate.mul(faded(d, p.rift_radius));
    let much = Fixed::ratio(14, 10);
    let half = Fixed::ratio(1, 2);
    assert(much.raw == 91750 && half.raw == 32768);
    lemma_product(ridge, much);
    lemma_product(basin, half);
    let rise = rise_along_a_rift(p, plates[own as int].crust_type, d);
    assert(ridge.mul(much).raw == (ridge.raw * 91750) / 65536);
    assert(basin.mul(half).raw == (basin.raw * 32768) / 65536);
    assert(rise.raw == (ridge.raw * 91750) / 65536 - (basin.raw * 32768) / 65536);
    lemma_product(b.strength, rise);
    (ridge.raw as int, basin.raw as int, rise.raw as int)
}

/// A continental rift: the axis is lifted by half of the ridge rate, the wider
/// valley sinks by the rift rate, and the shoulders rise at their offset from it;
/// no fresh crust comes up. Gives what is left of the ridge, of the valley and of
/// the shoulders, and what they make together per strength.
pub proof fn rifts_sink_between_their_shoulders(
    p: TectonicParams<Fixed>,
    b: Boundary<Fixed>,
    plates: Seq<Plate<Fixed>>,
    plate_age: Seq<Fixed>,
    own: PlateId,
    d: Fixed,
    texture: Fixed,
) -> (parts: (int, int, int, int))
    requires
        spreads(p, b),
        plates[own as int].crust_type is Continental,
        0 <= d.raw,
    ensures
        ({
            let (ridge, valley, shoulder, rise) = parts;
            let e = effect_of(p, b, plates, plate_age, own, d, texture);
            &&& fades(ridge, p.ridge_rate, d, p.ridge_radius)
            &&& fades(valley, p.rift_rate, d, p.rift_radius)
            &&& 0 <= shoulder <= p.shoulder_rate.raw
            &&& shoulder == (p.shoulder_rate.raw * bell(
                d,
                p.shoulder_offset,
                p.shoulder_sigma,
            ).raw) / 65536
            &&& d == p.shoulder_offset && 0 < p.shoulder_sigma.raw ==> shoulder
                == p.shoulder_rate.raw
            &&& rise == ridge / 2 - valley + shoulder
            &&& e.delta.raw == (b.strength.raw * rise) / 65536
            &&& e.new_crust.raw == 0
        }),
{
    lemma_fades(p.ridge_rate, d, p.ridge_radius);
    lemma_fades(p.rift_rate, d, p.rift_radius);
    let ridge = p.ridge_rate.mul(faded(d, p.ridge_radius));
    let valley = p.rift_rate.mul(faded(d, p.rift_radius));
    let g = bell(d, p.shoulder_offset, p.shoulder_sigma);
    bells_peak_at_their_center(d, p.shoulder_offset, p.shoulder_sigma);
    lemma_product(p.shoulder_rate, g);
    lemma_times_one(p.shoulder_rate);
    let shoulder = p.shoulder_rate.mul(g);
    assert(0 <= (p.shoulder_rate.raw * g.raw) / 65536 <= p.shoulder_rate.raw) by (nonlinear_arith)
        requires
            0 <= p.shoulder_rate.raw,
            0 <= g.raw <= 65536,
    ;
    let half = Fixed::ratio(1, 2);
    assert(half.raw == 32768);
    lemma_product(ridge, half);
    assert(ridge.mul(half).raw == (ridge.raw * 32768) / 65536);
    let rise = rise_along_a_rift(p, plates[own as int].crust_type, d);
    lemma_product(b.strength, rise);
    if d == p.shoulder_offset && 0 < p.shoulder_sigma.raw {
        assert(g == Fixed::of_int(1));
    }
    (ridge.raw as int, valley.raw as int, shoulder.raw as int, rise.raw as int)
}

// --- what keeps it in bounds -----------------------------------------------
/// Crust is free to rise and to sink well inside of its limits: below three
/// fifths of the highest elevation an uplift is not held back, above three fifths
/// of the lowest a subsidence is not; and neither is ever turned around or made
/// more than it was.
pub proof fn crust_moves_freely_far_from_its_limits(
    p: TectonicParams<Fixed>,
    elevation: Fixed,
    delta: Fixed,
)
    requires
        0x10 <= p.max_elevation.raw <= 0x1000_0000_0000,
        -0x1000_0000_0000 <= p.min_elevation.raw <= -0x10,
        -0x1000_0000_0000 <= elevation.raw <= 0x1000_0000_0000,
    ensures
        ({
            let moved = softened(p, elevation, delta).raw;
            &&& 0 <= delta.raw ==> 0 <= moved <= delta.raw
            &&& delta.raw <= 0 ==> delta.raw <= moved <= 0
            &&& 0 <= delta.raw && 5 * elevation.raw <= 3 * p.max_elevation.raw - p.max_elevation.raw
                / 1000 - 5 ==> moved == delta.raw
            &&& 0 <= delta.raw && p.max_elevation.raw <= elevation.raw ==> moved == 0
            &&& delta.raw <= 0 && 5 * elevation.raw >= 3 * p.min_elevation.raw - p.min_elevation.raw
                / 1000 + 5 ==> moved == delta.raw
            &&& delta.raw <= 0 && elevation.raw <= p.min_elevation.raw ==> moved == 0
        }),
{
    let share = Fixed::ratio(6, 10);
    assert(share.raw == 39321);
    let limit = if 0 < delta.raw {
        p.max_elevation
    } else {
        p.min_elevation
    };
    lemma_product(limit, share);
    let near = limit.mul(share);
    assert(near.raw == (limit.raw * 39321) / 65536);
    lemma_ramp_toward(near, limit, elevation);
    let ramp = hermite(near, limit, elevation);
    let rest = Fixed::of_int(1).sub(ramp);
    assert(rest.raw == 65536 - ramp.raw);
    let x = delta.raw as int;
    let y = rest.raw as int;
    assert((0 <= x ==> 0 <= (x * y) / 65536 <= x) && (x <= 0 ==> x <= (x * y) / 65536 <= 0))
        by (nonlinear_arith)
        requires
            0 <= y <= 65536,
    ;
    assert((x * 65536) / 65536 == x && (x * 0) / 65536 == 0);
}

/// A ramp runs from its first edge to its second in either direction.
proof fn lemma_ramp_toward(near: Fixed, limit: Fixed, x: Fixed)
    requires
        near.raw != limit.raw,
        -0x1000_0000_0000 <= near.raw <= 0x1000_0000_0000,
        -0x1000_0000_0000 <= limit.raw <= 0x1000_0000_0000,
        -0x1000_0000_0000 <= x.raw <= 0x1000_0000_0000,
    ensures
        ({
            let r = hermite(near, limit, x).raw;
            &&& 0 <= r <= 65536
            &&& near.raw < limit.raw && x.raw <= near.raw ==> r == 0
            &&& near.raw < limit.raw && limit.raw <= x.raw ==> r == 65536
            &&& limit.raw < near.raw && near.raw <= x.raw ==> r == 0
            &&& limit.raw < near.raw && x.raw <= limit.raw ==> r == 65536
        }),
{
    let width = limit.raw - near.raw;
    let rise = x.raw - near.raw;
    assert(Fixed::ratio(1, 1_000_000_000).raw == 0);
    let ratio = x.sub(near).div(limit.sub(near));
    let t = clamped(ratio, Fixed::of_int(0), Fixed::of_int(1));
    let a = t.raw as int;
    assert(0 <= a <= 65536);
    if near.raw < limit.raw {
        let q = (rise * 65536) / width;
        assert((rise <= 0 ==> q <= 0) && (rise >= width ==> q >= 65536)) by (nonlinear_arith)
            requires
                width > 0,
                q == (rise * 65536) / width,
        ;
        assert(ratio.raw == saturated(q));
    } else {
        let q = (-(rise * 65536)) / (-width);
        assert((rise >= 0 ==> q <= 0) && (rise <= width ==> q >= 65536)) by (nonlinear_arith)
            requires
                width < 0,
                q == (-(rise * 65536)) / (-width),
        ;
        assert(ratio.raw == saturated(q));
    }
    let b = (a * a) / 65536;
    assert(0 <= b <= 65536 && (a == 0 ==> b == 0) && (a == 65536 ==> b == 65536))
        by (nonlinear_arith)
        requires
            b == (a * a) / 65536,
            0 <= a <= 65536,
    ;
    let square = t.mul(t);
    assert(square.raw == b);
    let rest = Fixed::of_int(3).sub(Fixed::of_int(2).mul(t));
    assert(Fixed::of_int(2).mul(t).raw == 2 * a) by {
        assert((131072 * a) / 65536 == 2 * a);
    }
    assert(rest.raw == 196608 - 2 * a);
    let r = (b * (196608 - 2 * a)) / 65536;
    assert(0 <= r <= 65536 && (a == 0 ==> r == 0) && (a == 65536 ==> r == 65536)) by {
        lemma_ramp_rounding(a, b, r);
        assert((a * a) * (196608 - 2 * a) <= 65536 * 4294967296 && 0 <= (a * a) * (196608 - 2 * a))
            by (nonlinear_arith)
            requires
                0 <= a <= 65536,
        ;
        assert(b * 196608 == 0 || a != 0);
    }
    lemma_product(square, rest);
}

// --- how it ages -----------------------------------------------------------
/// Old sea floor sinks, and nothing else does: land and floor that is down at the
/// subsidence limit stay. Fresh crust does not sink at all, crust of forty years
/// at half of the subsidence rate, older crust never more slowly than younger, and
/// none faster than the rate.
pub proof fn old_sea_floor_sinks(
    p: TectonicParams<Fixed>,
    elevation: Fixed,
    younger: Fixed,
    older: Fixed,
    dt: Fixed,
)
    requires
        is_rate(p.age_subsidence_rate),
        is_rate(dt),
        0 <= younger.raw <= older.raw <= 0x1000_0000_0000,
        -0x1000_0000_0000 <= elevation.raw,
    ensures
        ({
            let less = elevation.raw - settled(p, elevation, younger, dt).raw;
            let more = elevation.raw - settled(p, elevation, older, dt).raw;
            let full = (p.age_subsidence_rate.raw * dt.raw) / 65536;
            &&& 0 <= less <= more <= full
            &&& 0 <= elevation.raw || elevation.raw <= p.age_subsidence_max.raw ==> more == 0
            &&& younger.raw == 0 ==> less == 0
            &&& p.age_subsidence_max.raw < elevation.raw < 0 && older.raw == 40 * 65536 ==> more
                == full / 2
            &&& p.age_subsidence_max.raw < elevation.raw < 0 && older.raw >= 360 * 65536 ==> 10
                * more + 12 + full / 1000 >= 9 * full
        }),
{
    let k = p.age_subsidence_rate.raw as int;
    lemma_product(p.age_subsidence_rate, dt);
    let full = (k * dt.raw) / 65536;
    assert(0 <= full <= 0x1_0000_0000) by (nonlinear_arith)
        requires
            full == (k * dt.raw) / 65536,
            0 <= k <= 0x100_0000,
            0 <= dt.raw <= 0x100_0000,
    ;
    let m = younger.raw as int;
    let n = older.raw as int;
    let a = (m * 65536) / (m + 2_621_440);
    let b = (n * 65536) / (n + 2_621_440);
    assert(0 <= a <= 65536 && (m == 0 ==> a == 0)) by (nonlinear_arith)
        requires
            a == (m * 65536) / (m + 2_621_440),
            0 <= m,
    ;
    assert(0 <= b <= 65536 && (n == 2_621_440 ==> b == 32768) && (n >= 23_592_960 ==> b >= 58_982))
        by (nonlinear_arith)
        requires
            b == (n * 65536) / (n + 2_621_440),
            0 <= n,
    ;
    assert(a <= b) by {
        assert(a * (m + 2_621_440) <= m * 65536) by (nonlinear_arith)
            requires
                a == (m * 65536) / (m + 2_621_440),
                0 <= m,
        ;
        assert(a * (n + 2_621_440) <= n * 65536) by (nonlinear_arith)
            requires
                a * (m + 2_621_440) <= m * 65536,
                0 <= m <= n,
                0 <= a <= 65536,
        ;
        assert(a <= (n * 65536) / (n + 2_621_440)) by (nonlinear_arith)
            requires
                a * (n + 2_621_440) <= n * 65536,
                0 <= n,
        ;
    }
    assert(Fixed::of_int(40).raw == 2_621_440);
    let s = younger.div(younger.add(Fixed::of_int(40)));
    let t = older.div(older.add(Fixed::of_int(40)));
    assert(s.raw == a && t.raw == b);
    let rate = p.age_subsidence_rate.mul(dt);
    lemma_product(rate, s);
    lemma_product(rate, t);
    assert(0 <= (full * a) / 65536 <= (full * b) / 65536 <= full) by (nonlinear_arith)
        requires
            0 <= full,
            0 <= a <= b <= 65536,
    ;
    assert(a == 0 ==> (full * a) / 65536 == 0) by (nonlinear_arith);
    assert(b == 32768 ==> (full * b) / 65536 == full / 2) by (nonlinear_arith);
    assert(b >= 58_982 ==> full * b >= full * 58_982) by (nonlinear_arith)
        requires
            0 <= full,
    ;
}

/// Fresh crust at a ridge: the older surface moves toward the ridge elevation by
/// the share that comes up in the time, all of the way at most, and the clock of
/// the crust is turned back by twice the strength of the renewal. Where no crust
/// comes up neither changes, but for what the plates do.
pub proof fn fresh_crust_comes_up_at_the_ridge_elevation(
    p: TectonicParams<Fixed>,
    new_crust: Fixed,
    elevation: Fixed,
    age: Fixed,
    dt: Fixed,
)
    requires
        new_crust.raw <= 0x100_0000,
        is_rate(p.new_crust_rate),
        is_rate(dt),
        0 <= age.raw <= 0x1000_0000_0000,
        -0x1000_0000_0000 <= elevation.raw <= 0x1000_0000_0000,
        -0x1000_0000_0000 <= p.ridge_elevation.raw <= 0x1000_0000_0000,
    ensures
        ({
            let still = (Effect { delta: Fixed::of_int(0), new_crust });
            let (e, a) = worked(p, still, elevation, age, dt);
            let up = (((new_crust.raw * p.new_crust_rate.raw) / 65536) * dt.raw) / 65536;
            let share = if up > 65536 {
                65536
            } else {
                up
            };
            let way = p.ridge_elevation.raw - elevation.raw;
            &&& new_crust.raw <= 0 ==> e == elevation && a == age
            &&& new_crust.raw > 0 ==> e.raw == elevation.raw + (way * share) / 65536
            &&& new_crust.raw >= 32768 ==> a.raw == 0
            &&& 0 < new_crust.raw < 32768 ==> -65536 < 65536 * a.raw - age.raw * (65536 - 2
                * new_crust.raw) <= 0
            &&& 0 <= a.raw <= age.raw
        }),
{
    let zero = Fixed::of_int(0);
    let one = Fixed::of_int(1);
    assert(zero.mul(dt).raw == 0) by {
        assert(0 * dt.raw == 0);
    }
    if new_crust.raw > 0 {
        let c = new_crust.raw as int;
        lemma_product(new_crust, p.new_crust_rate);
        let k = p.new_crust_rate.raw as int;
        let first = (c * k) / 65536;
        assert(0 <= first <= 0x1_0000_0000) by (nonlinear_arith)
            requires
                first == (c * k) / 65536,
                0 <= c <= 0x100_0000,
                0 <= k <= 0x100_0000,
        ;
        lemma_product(new_crust.mul(p.new_crust_rate), dt);
        let up = (first * dt.raw) / 65536;
        assert(0 <= up) by (nonlinear_arith)
            requires
                up == (first * dt.raw) / 65536,
                0 <= first,
                0 <= dt.raw,
        ;
        let s = clamped(new_crust.mul(p.new_crust_rate).mul(dt), zero, one);
        let way = p.ridge_elevation.raw - elevation.raw;
        let part = (way * s.raw) / 65536;
        assert((way >= 0 ==> 0 <= part <= way) && (way <= 0 ==> way <= part <= 0))
            by (nonlinear_arith)
            requires
                part == (way * s.raw) / 65536,
                0 <= s.raw <= 65536,
        ;
        assert(blend(elevation, p.ridge_elevation, s).raw == elevation.raw + part);
        let two = Fixed::of_int(2);
        assert(two.raw == 131072);
        lemma_product(new_crust, two);
        assert((c * 131072) / 65536 == 2 * c);
        let t = clamped(new_crust.mul(two), zero, one);
        let n = -age.raw;
        let back = (n * t.raw) / 65536;
        assert(n <= back <= 0 && (t.raw == 65536 ==> back == n)) by (nonlinear_arith)
            requires
                back == (n * t.raw) / 65536,
                0 <= t.raw <= 65536,
                n <= 0,
        ;
        assert(blend(age, zero, t).raw == age.raw + back);
        if c < 32768 {
            assert(t.raw == 2 * c);
            assert(age.raw * (65536 - 2 * c) == 65536 * age.raw + n * t.raw) by (nonlinear_arith)
                requires
                    t.raw == 2 * c,
                    n == -age.raw,
            ;
        }
    }
}

/// What the plates do over a time is their rate times the time: far from the
/// limits all of it shows in the elevation, and the crust is as old as it was.
pub proof fn uplift_adds_up_over_time(
    p: TectonicParams<Fixed>,
    delta: Fixed,
    elevation: Fixed,
    age: Fixed,
    dt: Fixed,
)
    requires
        -0x1_0000_0000 <= delta.raw <= 0x1_0000_0000,
        is_rate(dt),
        0x10 <= p.max_elevation.raw <= 0x1000_0000_0000,
        -0x1000_0000_0000 <= p.min_elevation.raw <= -0x10,
        5 * elevation.raw <= 3 * p.max_elevation.raw - p.max_elevation.raw / 1000 - 5,
        5 * elevation.raw >= 3 * p.min_elevation.raw - p.min_elevation.raw / 1000 + 5,
    ensures
        ({
            let plain = (Effect { delta, new_crust: Fixed::of_int(0) });
            let (e, a) = worked(p, plain, elevation, age, dt);
            a == age && e.raw == elevation.raw + (delta.raw * dt.raw) / 65536
        }),
{
    lemma_product(delta, dt);
    let x = (delta.raw * dt.raw) / 65536;
    assert(-0x100_0000_0000 <= x <= 0x100_0000_0000) by (nonlinear_arith)
        requires
            x == (delta.raw * dt.raw) / 65536,
            -0x1_0000_0000 <= delta.raw <= 0x1_0000_0000,
            0 <= dt.raw <= 0x100_0000,
    ;
    crust_moves_freely_far_from_its_limits(p, elevation, delta.mul(dt));
}

/// How many of the first `n` cells a plate holds, and how old they are together.
pub open spec fn ages_held(
    plate_id: Seq<PlateId>,
    crust_age: Seq<Fixed>,
    id: int,
    n: nat,
) -> (int, int)
    decreases n,
{
    if n == 0 {
        (0, 0)
    } else {
        let (count, sum) = ages_held(plate_id, crust_age, id, (n - 1) as nat);
        if plate_id[n - 1] == id {
            (count + 1, sum + crust_age[n - 1].raw)
        } else {
            (count, sum)
        }
    }
}

proof fn lemma_ages_held(plate_id: Seq<PlateId>, crust_age: Seq<Fixed>, id: int, n: nat)
    requires
        n <= plate_id.len() <= u32::MAX,
    ensures
        ({
            let (count, sum) = ages_held(plate_id, crust_age, id, n);
            &&& count == cells_held(plate_id, id, n)
            &&& 0 <= count <= n
            &&& sum == age_gathered(plate_id, crust_age, id, n)
            &&& -0x8000_0000_0000_0000 * n <= sum <= 0x8000_0000_0000_0000 * n
        }),
    decreases n,
{
    if n > 0 {
        lemma_ages_held(plate_id, crust_age, id, (n - 1) as nat);
    }
}

/// The age of a plate is the mean over the cells that it holds, and zero where it
/// holds none.
pub proof fn plates_are_as_old_as_their_crust(
    plate_id: Seq<PlateId>,
    crust_age: Seq<Fixed>,
    id: int,
)
    requires
        plate_id.len() <= u32::MAX,
    ensures
        ({
            let (count, sum) = ages_held(plate_id, crust_age, id, plate_id.len());
            let mean = mean_age(plate_id, crust_age, id).raw;
            &&& count == 0 ==> mean == 0
            &&& count > 0 ==> mean * count <= sum < mean * count + count
        }),
{
    let n = plate_id.len();
    lemma_ages_held(plate_id, crust_age, id, n);
    let (count, sum) = ages_held(plate_id, crust_age, id, n);
    if count > 0 {
        let q = sum / count;
        assert(q * count <= sum < q * count + count) by (nonlinear_arith)
            requires
                q == sum / count,
                0 < count,
        ;
        lemma_mean_in_range(plate_id, crust_age, id, n);
    }
}

proof fn lemma_mean_in_range(plate_id: Seq<PlateId>, crust_age: Seq<Fixed>, id: int, n: nat)
    ensures
        ({
            let (count, sum) = ages_held(plate_id, crust_age, id, n);
            &&& 0 <= count
            &&& i64::MIN * count <= sum <= i64::MAX * count
            &&& count > 0 ==> i64::MIN <= sum / count <= i64::MAX
        }),
    decreases n,
{
    let (count, sum) = ages_held(plate_id, crust_age, id, n);
    if n > 0 {
        lemma_mean_in_range(plate_id, crust_age, id, (n - 1) as nat);
    }
    if count > 0 {
        assert(i64::MIN <= sum / count <= i64::MAX) by (nonlinear_arith)
            requires
                i64::MIN * count <= sum <= i64::MAX * count,
                0 < count,
        ;
    }
}

/// Crust is as old as it has become when it sinks: away from any boundary the floor
/// goes down by half of the full subsidence in the step in which it turns forty.
pub proof fn sea_floor_sinks_at_its_new_age(
    p: TectonicParams<Fixed>,
    plates: Seq<Plate<Fixed>>,
    boundaries: Seq<Boundary<Fixed>>,
    plate_age: Seq<Fixed>,
    own: PlateId,
    texture: Fixed,
    elevation: Fixed,
    age: Fixed,
    dt: Fixed,
)
    requires
        is_rate(p.age_subsidence_rate),
        is_rate(dt),
        0 <= age.raw,
        age.raw + dt.raw == 40 * 65536,
        -0x1000_0000_0000 <= elevation.raw,
        p.age_subsidence_max.raw < elevation.raw < 0,
    ensures
        ({
            let (e, a) = deformed(
                p,
                plates,
                boundaries,
                None,
                plate_age,
                own,
                texture,
                elevation,
                age,
                dt,
            );
            let full = (p.age_subsidence_rate.raw * dt.raw) / 65536;
            e.raw == elevation.raw - full / 2 && a.raw == age.raw + dt.raw
        }),
{
    let older = age.add(dt);
    old_sea_floor_sinks(p, elevation, older, older, dt);
}

/// Rules reach as far as the furthest of them: no further than its radius, or than
/// three widths of the arc or of the shoulders beyond their offset.
pub proof fn rules_reach_as_far_as_the_furthest(p: TectonicParams<Fixed>)
    requires
        0 <= p.arc_offset.raw <= 0x1000_0000_0000,
        0 <= p.arc_sigma.raw <= 0x1000_0000_0000,
        0 <= p.shoulder_offset.raw <= 0x1000_0000_0000,
        0 <= p.shoulder_sigma.raw <= 0x1000_0000_0000,
    ensures
        ({
            let r = reach_of(p).raw;
            let arc = p.arc_offset.raw + 3 * p.arc_sigma.raw;
            let shoulder = p.shoulder_offset.raw + 3 * p.shoulder_sigma.raw;
            &&& p.collision_radius.raw <= r && p.orogeny_radius.raw <= r
            &&& p.trench_radius.raw <= r && arc <= r
            &&& p.rift_radius.raw <= r && p.ridge_radius.raw <= r
            &&& p.new_crust_radius.raw <= r && shoulder <= r
            &&& p.transform_radius.raw <= r
            &&& {
                ||| r == p.collision_radius.raw
                ||| r == p.orogeny_radius.raw
                ||| r == p.trench_radius.raw
                ||| r == arc
                ||| r == p.rift_radius.raw
                ||| r == p.ridge_radius.raw
                ||| r == p.new_crust_radius.raw
                ||| r == shoulder
                ||| r == p.transform_radius.raw
            }
        }),
{
    let three = Fixed::of_int(3);
    assert(three.raw == 196608);
    lemma_product(p.arc_sigma, three);
    lemma_product(p.shoulder_sigma, three);
    assert((p.arc_sigma.raw * 196608) / 65536 == 3 * p.arc_sigma.raw);
    assert((p.shoulder_sigma.raw * 196608) / 65536 == 3 * p.shoulder_sigma.raw);
}

} // verus!
