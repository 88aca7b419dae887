//! How a world starts out: where land and sea lie, how rough they are, and how
//! old their crust is.

use crate::curves::{blends_run_from_first_to_second, lemma_product};
use crate::fixed::Fixed;
use crate::math::{
    blend, hermite, smoothstep_is_flat_outside_its_edges, smoothstep_nearly_rises,
    smoothstep_stays_between_zero_and_one,
};
use crate::plate::CrustField;
use crate::scalar::{clamped, Scalar};
use crate::simulation::{first_age, first_elevation, land_share, SimulationParams};
use vstd::prelude::*;

verus! {

/// How far a cell lies above the coast: its crust over the threshold, with the
/// shape of the land roughening the line.
pub open spec fn coast_height(
    p: SimulationParams<Fixed>,
    crust: CrustField<Fixed>,
    crust_noise: Fixed,
    shape: Fixed,
) -> int {
    crust_noise.raw - crust.threshold.raw + (p.coast_roughness.raw * shape.raw) / 65536
}

/// Parameters that stay far from the ends of the range.
pub open spec fn is_moderate_start(p: SimulationParams<Fixed>, crust: CrustField<Fixed>) -> bool {
    &&& -0x100_0000 <= p.coast_roughness.raw <= 0x100_0000
    &&& -0x100_0000 <= crust.threshold.raw <= 0x100_0000
    &&& -0x100_0000 <= p.oceanic_elevation.raw <= p.continental_elevation.raw <= 0x100_0000
    &&& 0 <= p.terrain_noise.raw <= 0x100_0000
}

pub open spec fn is_moderate_noise(x: Fixed) -> bool {
    -0x100_0000 <= x.raw <= 0x100_0000
}

proof fn lemma_land_share(
    p: SimulationParams<Fixed>,
    crust: CrustField<Fixed>,
    crust_noise: Fixed,
    shape: Fixed,
)
    requires
        is_moderate_start(p, crust),
        is_moderate_noise(crust_noise),
        is_moderate_noise(shape),
    ensures
        ({
            let coast = coast_height(p, crust, crust_noise, shape);
            let land = land_share(p, crust, crust_noise, shape);
            &&& 0 <= land.raw <= 65536
            &&& coast >= 6553 ==> land.raw == 65536
            &&& coast <= -2622 ==> land.raw == 0
            &&& -0x4_0000_0000 <= coast <= 0x4_0000_0000
            &&& land == hermite(
                Fixed::ratio(-4, 100),
                Fixed::ratio(10, 100),
                (Fixed { raw: coast as i64 }),
            )
        }),
{
    lemma_product(p.coast_roughness, shape);
    let k = p.coast_roughness.raw as int;
    let a = shape.raw as int;
    assert(-0x1_0000_0000_0000 <= k * a <= 0x1_0000_0000_0000) by (nonlinear_arith)
        requires
            -0x100_0000 <= k <= 0x100_0000,
            -0x100_0000 <= a <= 0x100_0000,
    ;
    let coast = crust.height_above(crust_noise).add(p.coast_roughness.mul(shape));
    assert(coast.raw == coast_height(p, crust, crust_noise, shape));
    let lo = Fixed::ratio(-4, 100);
    let hi = Fixed::ratio(10, 100);
    assert(lo.raw == -2622 && hi.raw == 6553);
    smoothstep_is_flat_outside_its_edges(lo, hi, coast);
    smoothstep_stays_between_zero_and_one(lo, hi, coast);
}

/// Continents start as land and oceans as sea floor: without texture a cell
/// starts at the continental elevation from a tenth above the coast on, at the
/// oceanic elevation from four hundredths below it on, between the two in
/// between, and never lower than one that lies further out, but for what rounding
/// takes away.
pub proof fn continents_start_as_land(
    p: SimulationParams<Fixed>,
    crust: CrustField<Fixed>,
    inner_noise: Fixed,
    inner_shape: Fixed,
    outer_noise: Fixed,
    outer_shape: Fixed,
    relief: Fixed,
)
    requires
        is_moderate_start(p, crust),
        p.terrain_noise.raw == 0,
        is_moderate_noise(inner_noise),
        is_moderate_noise(inner_shape),
        is_moderate_noise(outer_noise),
        is_moderate_noise(outer_shape),
        coast_height(p, crust, outer_noise, outer_shape) <= coast_height(
            p,
            crust,
            inner_noise,
            inner_shape,
        ),
    ensures
        ({
            let inner = first_elevation(p, crust, inner_noise, inner_shape, relief).raw;
            let outer = first_elevation(p, crust, outer_noise, outer_shape, relief).raw;
            let low = p.oceanic_elevation.raw;
            let high = p.continental_elevation.raw;
            &&& low <= inner <= high
            &&& coast_height(p, crust, inner_noise, inner_shape) >= 6553 ==> inner == high
            &&& coast_height(p, crust, inner_noise, inner_shape) <= -2622 ==> inner == low
            &&& outer <= inner + (3 * (high - low)) / 65536 + 1
        }),
{
    lemma_land_share(p, crust, inner_noise, inner_shape);
    lemma_land_share(p, crust, outer_noise, outer_shape);
    let a = coast_height(p, crust, inner_noise, inner_shape);
    let b = coast_height(p, crust, outer_noise, outer_shape);
    let s = land_share(p, crust, inner_noise, inner_shape);
    let t = land_share(p, crust, outer_noise, outer_shape);
    smoothstep_nearly_rises(
        Fixed::ratio(-4, 100),
        Fixed::ratio(10, 100),
        Fixed { raw: b as i64 },
        Fixed { raw: a as i64 },
    );
    assert(t.raw <= s.raw + 3);
    blends_run_from_first_to_second(p.oceanic_elevation, p.continental_elevation, s, s);
    blends_run_from_first_to_second(p.oceanic_elevation, p.continental_elevation, t, t);
    lemma_no_texture(p, s, inner_shape, relief);
    lemma_no_texture(p, t, outer_shape, relief);
    let d = p.continental_elevation.raw - p.oceanic_elevation.raw;
    assert((d * t.raw) / 65536 <= (d * s.raw) / 65536 + (3 * d) / 65536 + 1) by {
        assert(d * t.raw <= d * s.raw + 3 * d) by (nonlinear_arith)
            requires
                d >= 0,
                t.raw <= s.raw + 3,
        ;
    }
    let low = p.oceanic_elevation;
    assert(blend(low, p.continental_elevation, s).raw == low.raw + (d * s.raw) / 65536);
    assert(blend(low, p.continental_elevation, t).raw == low.raw + (d * t.raw) / 65536);
}

proof fn lemma_no_texture(p: SimulationParams<Fixed>, land: Fixed, shape: Fixed, relief: Fixed)
    requires
        p.terrain_noise.raw == 0,
    ensures
        ({
            let texture = Fixed::ratio(6, 10).mul(shape).add(Fixed::ratio(4, 10).mul(relief));
            let rough = Fixed::ratio(35, 100).add(Fixed::ratio(65, 100).mul(land));
            texture.mul(p.terrain_noise).mul(rough).raw == 0
        }),
{
    let texture = Fixed::ratio(6, 10).mul(shape).add(Fixed::ratio(4, 10).mul(relief));
    let rough = Fixed::ratio(35, 100).add(Fixed::ratio(65, 100).mul(land));
    assert(texture.raw * 0 == 0);
    assert(texture.mul(p.terrain_noise).raw == 0);
    assert(0 * rough.raw == 0);
}

/// The texture of a start: three parts of the shape of the land to two of its
/// relief, times the terrain noise, in full on land and at seven twentieths out
/// at sea, but for a trace lost to rounding.
pub proof fn land_starts_rougher_than_the_sea(
    p: SimulationParams<Fixed>,
    crust: CrustField<Fixed>,
    crust_noise: Fixed,
    shape: Fixed,
    relief: Fixed,
)
    requires
        is_moderate_start(p, crust),
        p.terrain_noise.raw <= 0x2_0000,
        is_moderate_noise(crust_noise),
        -0x2_0000 <= shape.raw <= 0x2_0000,
        -0x2_0000 <= relief.raw <= 0x2_0000,
    ensures
        ({
            let flat = (SimulationParams { terrain_noise: Fixed::of_int(0), ..p });
            let texture = first_elevation(p, crust, crust_noise, shape, relief).raw
                - first_elevation(flat, crust, crust_noise, shape, relief).raw;
            let coast = coast_height(p, crust, crust_noise, shape);
            let full = p.terrain_noise.raw * (3 * shape.raw + 2 * relief.raw);
            &&& coast >= 6553 ==> full - 20 * 327_680 <= texture * 327_680 <= full + 20 * 327_680
            &&& coast <= -2622 ==> 7 * full - 600 * 327_680 <= texture * 6_553_600 <= 7 * full + 600
                * 327_680
            &&& shape.raw >= 0 && relief.raw >= 0 ==> texture >= 0
            &&& shape.raw <= 0 && relief.raw <= 0 ==> texture <= 0
        }),
{
    let flat = SimulationParams { terrain_noise: Fixed::of_int(0), ..p };
    lemma_land_share(p, crust, crust_noise, shape);
    let land = land_share(p, crust, crust_noise, shape);
    assert(land_share(flat, crust, crust_noise, shape) == land);
    lemma_no_texture(flat, land, shape, relief);
    blends_run_from_first_to_second(p.oceanic_elevation, p.continental_elevation, land, land);
    let base = blend(p.oceanic_elevation, p.continental_elevation, land);
    assert(-0x100_0000 <= base.raw <= 0x100_0000);
    let a = Fixed::ratio(6, 10);
    let b = Fixed::ratio(4, 10);
    let c = Fixed::ratio(35, 100);
    let d = Fixed::ratio(65, 100);
    assert(a.raw == 39321 && b.raw == 26214 && c.raw == 22937 && d.raw == 42598);
    lemma_product(shape, a);
    lemma_product(relief, b);
    let mixed = a.mul(shape).add(b.mul(relief));
    let t = mixed.raw as int;
    assert(t == (39321 * shape.raw) / 65536 + (26214 * relief.raw) / 65536) by {
        assert(a.mul(shape).raw == (39321 * shape.raw) / 65536);
        assert(b.mul(relief).raw == (26214 * relief.raw) / 65536);
    }
    let s = 3 * shape.raw + 2 * relief.raw;
    assert(s - 20 <= 5 * t <= s + 20);
    let n = p.terrain_noise.raw as int;
    lemma_product(mixed, p.terrain_noise);
    let u = (t * n) / 65536;
    assert(n * s - 20 * n <= 5 * (t * n) <= n * s + 20 * n) by (nonlinear_arith)
        requires
            s - 20 <= 5 * t <= s + 20,
            0 <= n,
    ;
    assert(-0x4_1000 <= u <= 0x4_1000 && (t >= 0 ==> u >= 0) && (t <= 0 ==> u <= 0))
        by (nonlinear_arith)
        requires
            u == (t * n) / 65536,
            -0x2_0800 <= t <= 0x2_0800,
            0 <= n <= 0x2_0000,
    ;
    lemma_product(land, d);
    let rough = c.add(d.mul(land));
    let k = rough.raw as int;
    assert(0 <= (42598 * land.raw) / 65536 <= 42598);
    assert(k == 22937 + (42598 * land.raw) / 65536);
    lemma_product(mixed.mul(p.terrain_noise), rough);
    let e = (u * k) / 65536;
    assert(-0x4_1000 <= e <= 0x4_1000 && (u >= 0 ==> e >= 0) && (u <= 0 ==> e <= 0))
        by (nonlinear_arith)
        requires
            e == (u * k) / 65536,
            -0x4_1000 <= u <= 0x4_1000,
            0 <= k <= 65536,
    ;
    assert(mixed.mul(p.terrain_noise).mul(rough).raw == e);
    assert(first_elevation(p, crust, crust_noise, shape, relief).raw == base.raw + e);
    assert(first_elevation(flat, crust, crust_noise, shape, relief).raw == base.raw);
    let coast = coast_height(p, crust, crust_noise, shape);
    if coast >= 6553 {
        assert(k == 65535);
        assert(u - 6 <= e <= u + 6) by {
            assert(u * k == u * 65535);
        }
        assert(n * s - 20 * 327_680 <= e * 327_680 <= n * s + 20 * 327_680);
    }
    if coast <= -2622 {
        assert(k == 22937);
        assert(7 * u - 400 <= 20 * e <= 7 * u + 400) by {
            assert(u * k == u * 22937);
        }
        assert(7 * (n * s) - 600 * 327_680 <= e * 6_553_600 <= 7 * (n * s) + 600 * 327_680);
    }
}

/// Crust starts out up to the given spread old: brand new where the noise is at
/// its lowest, as old as the spread where it is at its highest, half of it where
/// there is no noise, and never younger where there is more.
pub proof fn crust_starts_at_all_ages(p: SimulationParams<Fixed>, less: Fixed, more: Fixed)
    requires
        less.raw <= more.raw,
        0 <= p.initial_age_spread.raw <= 0x1_0000_0000,
    ensures
        ({
            let young = first_age(p, less).raw;
            let old_age = first_age(p, more).raw;
            let spread = p.initial_age_spread.raw;
            &&& 0 <= young <= old_age <= spread
            &&& less.raw <= -65536 ==> young == 0
            &&& more.raw >= 65536 ==> old_age == spread
            &&& less.raw == 0 ==> young == spread / 2
        }),
{
    let half = Fixed::ratio(1, 2);
    let zero = Fixed::of_int(0);
    let one = Fixed::of_int(1);
    assert(half.raw == 32768);
    assert(half.mul(less).raw == (32768 * less.raw) / 65536);
    assert(half.mul(more).raw == (32768 * more.raw) / 65536);
    let s = clamped(half.add(half.mul(less)), zero, one);
    let t = clamped(half.add(half.mul(more)), zero, one);
    assert(0 <= s.raw <= t.raw <= 65536);
    let m = p.initial_age_spread.raw as int;
    lemma_product(p.initial_age_spread, s);
    lemma_product(p.initial_age_spread, t);
    assert(0 <= (m * s.raw) / 65536 <= (m * t.raw) / 65536 <= m && (m * 65536) / 65536 == m)
        by (nonlinear_arith)
        requires
            0 <= m,
            0 <= s.raw <= t.raw <= 65536,
    ;
    assert(first_age(p, less).raw == (m * s.raw) / 65536);
    assert(first_age(p, more).raw == (m * t.raw) / 65536);
    if less.raw <= -65536 {
        assert(s.raw == 0);
        assert(m * s.raw == 0) by (nonlinear_arith)
            requires
                s.raw == 0,
        ;
    }
    if more.raw >= 65536 {
        assert(t.raw == 65536);
        assert(m * t.raw == m * 65536) by (nonlinear_arith)
            requires
                t.raw == 65536,
        ;
    }
    if less.raw == 0 {
        assert(s.raw == 32768);
        assert(m * s.raw == m * 32768) by (nonlinear_arith)
            requires
                s.raw == 32768,
        ;
        assert((m * 32768) / 65536 == m / 2) by (nonlinear_arith);
    }
}

} // verus!
