//! Turning classified boundaries into terrain.
//!
//! Two stages run here:
//!
//! 1. [`Tectonics::apply`] - continuous deformation. Every cell looks up its
//!    nearest boundary, and the boundary's kind plus the crust types on either
//!    side selects a rule. Everything is multiplied by a falloff that is zero
//!    past a hard radius, so plate interiors stay untouched.
//! 2. [`Tectonics::apply_volcanism`] - discrete volcanic cones, placed by a
//!    deterministic hash so the same seed gives the same volcanoes.
//!
//! Per-step magnitudes are deliberately tiny. Mountains are supposed to be the
//! result of a few hundred steps of history, not one dramatic event.

use crate::boundary::{Boundary, BoundaryKind, NearestBoundary};
use crate::curves::{
    lemma_ones_squared, lemma_squares_rise, lemma_squares_stay_small, lemma_times_one,
};
use crate::fixed::{saturated, squared_times, Fixed};
use crate::math::{
    bell, blend, bump, hermite, lerp, smoothstep, smoothstep_is_flat_outside_its_edges,
    smoothstep_nearly_rises, smoothstep_stays_between_zero_and_one,
};
use crate::noise::{hash_fraction, hash_unit};
use crate::plate::{CrustType, Plate, PlateId};
use crate::scalar::{
    clamp_to, clamped, larger, lemma_larger, linearly_ordered, max_of, repeated, Scalar,
};
use crate::world::{cell_index, lemma_cell_in_grid, World};
use vstd::multiset::Multiset;
use vstd::prelude::*;

verus! {

#[derive(Clone, Copy, Debug)]
pub struct TectonicParams<S> {
    // --- convergent ---
    /// Continent/continent collision: broad, strong.
    pub collision_radius: S,
    pub collision_rate: S,
    /// Uplift on the overriding plate of a subduction zone.
    pub orogeny_radius: S,
    pub orogeny_rate: S,
    /// Trench on the downgoing plate: narrow and deep.
    pub trench_radius: S,
    pub trench_rate: S,
    /// Volcanic arc, offset from the trench onto the overriding plate.
    pub arc_offset: S,
    pub arc_sigma: S,
    pub arc_rate: S,
    // --- divergent ---
    /// Rift/ridge axis: the raised spreading centre itself.
    pub ridge_radius: S,
    pub ridge_rate: S,
    /// The wider subsiding rift around it.
    pub rift_radius: S,
    pub rift_rate: S,
    /// Rift shoulders (uplifted flanks of a continental rift).
    pub shoulder_offset: S,
    pub shoulder_sigma: S,
    pub shoulder_rate: S,
    /// Within this radius of a spreading centre, crust is brand new: its age
    /// resets and its elevation relaxes toward the ridge baseline.
    pub new_crust_radius: S,
    pub new_crust_rate: S,
    pub ridge_elevation: S,
    // --- transform ---
    pub transform_radius: S,
    pub transform_rate: S,
    // --- global ---
    /// Soft isostatic limits: uplift slows as terrain approaches these, so
    /// long-lived boundaries do not grow without bound.
    pub max_elevation: S,
    pub min_elevation: S,
    /// Ocean floor sinks slowly as it ages.
    pub age_subsidence_rate: S,
    pub age_subsidence_max: S,
    // --- volcanism ---
    pub volcano_chance: S,
    pub volcano_radius: S,
    pub volcano_height: S,
}

pub open spec fn default_tectonics<S: Scalar>() -> TectonicParams<S> {
    TectonicParams {
        collision_radius: S::of_int(24),
        collision_rate: S::ratio(55, 1000),
        orogeny_radius: S::of_int(18),
        orogeny_rate: S::ratio(50, 1000),
        trench_radius: S::of_int(7),
        trench_rate: S::ratio(45, 1000),
        arc_offset: S::of_int(7),
        arc_sigma: S::of_int(3),
        arc_rate: S::ratio(30, 1000),
        ridge_radius: S::of_int(4),
        ridge_rate: S::ratio(30, 1000),
        rift_radius: S::of_int(14),
        rift_rate: S::ratio(30, 1000),
        shoulder_offset: S::of_int(9),
        shoulder_sigma: S::of_int(4),
        shoulder_rate: S::ratio(22, 1000),
        new_crust_radius: S::of_int(5),
        new_crust_rate: S::ratio(50, 1000),
        ridge_elevation: S::ratio(-24, 10),
        transform_radius: S::of_int(6),
        transform_rate: S::ratio(20, 1000),
        max_elevation: S::of_int(8),
        min_elevation: S::of_int(-9),
        age_subsidence_rate: S::ratio(16, 10_000),
        age_subsidence_max: S::ratio(-56, 10),
        volcano_chance: S::ratio(20, 1000),
        volcano_radius: S::of_int(3),
        volcano_height: S::ratio(55, 100),
    }
}

impl<S: Scalar> Default for TectonicParams<S> {
    fn default() -> (r: Self)
        ensures
            r == default_tectonics::<S>(),
            r.collision_radius == S::of_int(24),
            r.collision_rate == S::ratio(55, 1000),
            r.orogeny_radius == S::of_int(18),
            r.orogeny_rate == S::ratio(50, 1000),
            r.trench_radius == S::of_int(7),
            r.trench_rate == S::ratio(45, 1000),
            r.arc_offset == S::of_int(7),
            r.arc_sigma == S::of_int(3),
            r.arc_rate == S::ratio(30, 1000),
            r.ridge_radius == S::of_int(4),
            r.ridge_rate == S::ratio(30, 1000),
            r.rift_radius == S::of_int(14),
            r.rift_rate == S::ratio(30, 1000),
            r.shoulder_offset == S::of_int(9),
            r.shoulder_sigma == S::of_int(4),
            r.shoulder_rate == S::ratio(22, 1000),
            r.new_crust_radius == S::of_int(5),
            r.new_crust_rate == S::ratio(50, 1000),
            r.ridge_elevation == S::ratio(-24, 10),
            r.transform_radius == S::of_int(6),
            r.transform_rate == S::ratio(20, 1000),
            r.max_elevation == S::of_int(8),
            r.min_elevation == S::of_int(-9),
            r.age_subsidence_rate == S::ratio(16, 10_000),
            r.age_subsidence_max == S::ratio(-56, 10),
            r.volcano_chance == S::ratio(20, 1000),
            r.volcano_radius == S::of_int(3),
            r.volcano_height == S::ratio(55, 100),
    {
        TectonicParams {
            collision_radius: S::whole(24),
            collision_rate: S::fraction(55, 1000),
            orogeny_radius: S::whole(18),
            orogeny_rate: S::fraction(50, 1000),
            trench_radius: S::whole(7),
            trench_rate: S::fraction(45, 1000),
            arc_offset: S::whole(7),
            arc_sigma: S::whole(3),
            arc_rate: S::fraction(30, 1000),
            ridge_radius: S::whole(4),
            ridge_rate: S::fraction(30, 1000),
            rift_radius: S::whole(14),
            rift_rate: S::fraction(30, 1000),
            shoulder_offset: S::whole(9),
            shoulder_sigma: S::whole(4),
            shoulder_rate: S::fraction(22, 1000),
            new_crust_radius: S::whole(5),
            new_crust_rate: S::fraction(50, 1000),
            ridge_elevation: S::fraction(-24, 10),
            transform_radius: S::whole(6),
            transform_rate: S::fraction(20, 1000),
            max_elevation: S::whole(8),
            min_elevation: S::whole(-9),
            age_subsidence_rate: S::fraction(16, 10_000),
            age_subsidence_max: S::fraction(-56, 10),
            volcano_chance: S::fraction(20, 1000),
            volcano_radius: S::whole(3),
            volcano_height: S::fraction(55, 100),
        }
    }
}

pub struct Tectonics<S> {
    pub params: TectonicParams<S>,
    pub seed: u64,
    /// Fine-grained field that gives transform zones their broken-up texture,
    /// one value per cell.
    pub stress_noise: Vec<S>,
}

/// What one rule decided for one cell.
pub struct Effect<S> {
    /// Elevation change per unit time.
    pub delta: S,
    /// How strongly this cell is being resurfaced (0 = not at all).
    pub new_crust: S,
}

impl<S: Scalar> Effect<S> {
    pub open spec fn lift(delta: S) -> Self {
        Effect { delta, new_crust: S::of_int(0) }
    }

    fn uplift(delta: S) -> (r: Self)
        ensures
            r == Self::lift(delta),
    {
        Effect { delta, new_crust: S::whole(0) }
    }
}

// --- rules -----------------------------------------------------------------
pub open spec fn faded<S: Scalar>(d: S, radius: S) -> S {
    if radius.le(d) {
        S::of_int(0)
    } else {
        let width = radius.mul(S::ratio(35, 100));
        d.neg().div(width).exp().mul(
            S::of_int(1).sub(hermite(radius.mul(S::ratio(7, 10)), radius, d)),
        )
    }
}

/// Distance falloff: exponential, with a hard cutoff.
///
/// The last 30% of the radius is tapered so the cutoff does not show up as a
/// visible circular edge in the terrain.
pub fn falloff<S: Scalar>(d: S, radius: S) -> (r: S)
    ensures
        r == faded(d, radius),
{
    if radius.at_most(d) {
        return S::whole(0);
    }
    let width = radius.times(S::fraction(35, 100));
    d.negated().over(width).exponential().times(
        S::whole(1).minus(smoothstep(radius.times(S::fraction(7, 10)), radius, d)),
    )
}

/// Both plates of a boundary are listed.
pub open spec fn plates_listed<S>(b: Boundary<S>, count: int) -> bool {
    b.plate_a < count && b.plate_b < count
}

/// Neither side of the boundary goes under for its crust type alone.
pub open spec fn same_crust<S>(b: Boundary<S>, plates: Seq<Plate<S>>) -> bool {
    plates[b.plate_a as int].crust_type == plates[b.plate_b as int].crust_type
}

/// The ages of both plates are given, where they decide which one goes under.
pub open spec fn ages_given<S>(b: Boundary<S>, plates: Seq<Plate<S>>, count: int) -> bool {
    same_crust(b, plates) ==> plates_listed(b, count)
}

/// Oceanic crust goes under continental; of two plates with the same crust the
/// older goes under, and the one with the lower number where they are as old
/// as each other.
pub open spec fn goes_under<S: Scalar>(
    b: Boundary<S>,
    plates: Seq<Plate<S>>,
    plate_age: Seq<S>,
) -> PlateId {
    let a = plates[b.plate_a as int].crust_type;
    let c = plates[b.plate_b as int].crust_type;
    if a is Oceanic && c is Continental {
        b.plate_a
    } else if a is Continental && c is Oceanic {
        b.plate_b
    } else {
        let age_a = plate_age[b.plate_a as int];
        let age_b = plate_age[b.plate_b as int];
        let as_old = age_a.le(age_b) && age_b.le(age_a);
        if age_b.lt(age_a) || (as_old && b.plate_a < b.plate_b) {
            b.plate_a
        } else {
            b.plate_b
        }
    }
}

/// Which of the two plates goes under.
///
/// Oceanic crust always subducts beneath continental. When both are oceanic
/// the older, colder, denser plate wins - which is exactly the geological
/// memory `crust_age` exists to provide.
pub fn subducting_plate<S: Scalar>(
    b: &Boundary<S>,
    plates: &Vec<Plate<S>>,
    plate_age: &Vec<S>,
) -> (r: PlateId)
    requires
        plates_listed(*b, plates@.len() as int),
        ages_given(*b, plates@, plate_age@.len() as int),
    ensures
        r == goes_under(*b, plates@, plate_age@),
{
    let a = plates[b.plate_a as usize].crust_type;
    let c = plates[b.plate_b as usize].crust_type;
    match (a, c) {
        (CrustType::Oceanic, CrustType::Continental) => b.plate_a,
        (CrustType::Continental, CrustType::Oceanic) => b.plate_b,
        _ => {
            let age_a = plate_age[b.plate_a as usize];
            let age_b = plate_age[b.plate_b as usize];
            let as_old = age_a.at_most(age_b) && age_b.at_most(age_a);
            if age_b.less(age_a) || (as_old && b.plate_a < b.plate_b) {
                b.plate_a
            } else {
                b.plate_b
            }
        },
    }
}

/// What lifts the plate that stays on top, per unit of strength.
pub open spec fn rise_above_subduction<S: Scalar>(
    p: TectonicParams<S>,
    own_crust: CrustType,
    d: S,
) -> S {
    let orogeny = if own_crust is Continental {
        p.orogeny_rate
    } else {
        p.orogeny_rate.mul(S::ratio(45, 100))
    };
    let arc = p.arc_rate.mul(bell(d, p.arc_offset, p.arc_sigma));
    orogeny.mul(faded(d, p.orogeny_radius)).add(arc)
}

/// What moves the ground along a spreading boundary, per unit of strength.
pub open spec fn rise_along_a_rift<S: Scalar>(
    p: TectonicParams<S>,
    own_crust: CrustType,
    d: S,
) -> S {
    let axis = p.ridge_rate.mul(faded(d, p.ridge_radius));
    let basin = p.rift_rate.mul(faded(d, p.rift_radius));
    if own_crust is Oceanic {
        axis.mul(S::ratio(14, 10)).sub(basin.mul(S::ratio(1, 2)))
    } else {
        let shoulders = p.shoulder_rate.mul(bell(d, p.shoulder_offset, p.shoulder_sigma));
        axis.mul(S::ratio(1, 2)).sub(basin).add(shoulders)
    }
}

/// Elevation change per unit time for one cell of plate `own` at distance `d`,
/// where the texture of the rock is `texture`.
pub open spec fn effect_of<S: Scalar>(
    p: TectonicParams<S>,
    b: Boundary<S>,
    plates: Seq<Plate<S>>,
    plate_age: Seq<S>,
    own: PlateId,
    d: S,
    texture: S,
) -> Effect<S> {
    let crust_a = plates[b.plate_a as int].crust_type;
    let crust_b = plates[b.plate_b as int].crust_type;
    let own_crust = plates[own as int].crust_type;
    let strength = b.strength;
    match b.kind {
        BoundaryKind::Convergent => if crust_a is Continental && crust_b is Continental {
            Effect::lift(p.collision_rate.mul(strength).mul(faded(d, p.collision_radius)))
        } else if own == goes_under(b, plates, plate_age) {
            Effect::lift(p.trench_rate.neg().mul(strength).mul(faded(d, p.trench_radius)))
        } else {
            Effect::lift(strength.mul(rise_above_subduction(p, own_crust, d)))
        },
        BoundaryKind::Divergent => {
            let delta = strength.mul(rise_along_a_rift(p, own_crust, d));
            if own_crust is Oceanic {
                Effect { delta, new_crust: strength.mul(faded(d, p.new_crust_radius)) }
            } else {
                Effect::lift(delta)
            }
        },
        BoundaryKind::Transform => Effect::lift(
            p.transform_rate.mul(strength).mul(texture).mul(faded(d, p.transform_radius)),
        ),
    }
}

/// Old oceanic crust cools and sinks.
pub open spec fn settled<S: Scalar>(p: TectonicParams<S>, elevation: S, age: S, dt: S) -> S {
    if elevation.lt(S::of_int(0)) && p.age_subsidence_max.lt(elevation) {
        elevation.sub(p.age_subsidence_rate.mul(dt).mul(age.div(age.add(S::of_int(40)))))
    } else {
        elevation
    }
}

/// Soft isostatic limit: a change slows down as the terrain nears the limit
/// that it moves toward.
pub open spec fn softened<S: Scalar>(p: TectonicParams<S>, elevation: S, delta: S) -> S {
    let zero = S::of_int(0);
    let limit = if zero.lt(delta) {
        p.max_elevation
    } else {
        p.min_elevation
    };
    if zero.lt(delta) || delta.lt(zero) {
        delta.mul(S::of_int(1).sub(hermite(limit.mul(S::ratio(6, 10)), limit, elevation)))
    } else {
        delta
    }
}

/// Elevation and crust age of a cell after a rule has had its effect on it.
/// Fresh crust starts its clock anew, and the surface relaxes toward the ridge
/// baseline.
pub open spec fn worked<S: Scalar>(
    p: TectonicParams<S>,
    outcome: Effect<S>,
    elevation: S,
    age: S,
    dt: S,
) -> (S, S) {
    let zero = S::of_int(0);
    let one = S::of_int(1);
    let renewed = zero.lt(outcome.new_crust);
    let age2 = if renewed {
        blend(age, zero, clamped(outcome.new_crust.mul(S::of_int(2)), zero, one))
    } else {
        age
    };
    let e2 = if renewed {
        blend(
            elevation,
            p.ridge_elevation,
            clamped(outcome.new_crust.mul(p.new_crust_rate).mul(dt), zero, one),
        )
    } else {
        elevation
    };
    (e2.add(softened(p, e2, outcome.delta.mul(dt))), age2)
}

/// Elevation and crust age of a cell after one step.
pub open spec fn deformed<S: Scalar>(
    p: TectonicParams<S>,
    plates: Seq<Plate<S>>,
    boundaries: Seq<Boundary<S>>,
    nearest: Option<(u32, S)>,
    plate_age: Seq<S>,
    own: PlateId,
    texture: S,
    elevation: S,
    age: S,
    dt: S,
) -> (S, S) {
    let older = age.add(dt);
    let sunk = settled(p, elevation, older, dt);
    match nearest {
        None => (sunk, older),
        Some((source, d)) => worked(
            p,
            effect_of(p, boundaries[source as int], plates, plate_age, own, d, texture),
            sunk,
            older,
            dt,
        ),
    }
}

/// Everything that the rules look up for a cell is listed.
pub open spec fn rules_apply<S: Scalar>(
    plates: Seq<Plate<S>>,
    boundaries: Seq<Boundary<S>>,
    nearest: Option<(u32, S)>,
    ages: int,
    own: PlateId,
) -> bool {
    match nearest {
        None => true,
        Some((source, d)) => {
            &&& source < boundaries.len()
            &&& own < plates.len()
            &&& plates_listed(boundaries[source as int], plates.len() as int)
            &&& boundaries[source as int].kind is Convergent
                && plates[boundaries[source as int].plate_a as int].crust_type is Oceanic
                ==> ages_given(boundaries[source as int], plates, ages)
        },
    }
}

/// How far the volcanic arc reaches.
pub open spec fn arc_reach<S: Scalar>(p: TectonicParams<S>) -> S {
    p.arc_offset.add(S::of_int(3).mul(p.arc_sigma))
}

/// How far the shoulders of a continental rift reach.
pub open spec fn shoulder_reach<S: Scalar>(p: TectonicParams<S>) -> S {
    p.shoulder_offset.add(S::of_int(3).mul(p.shoulder_sigma))
}

/// The largest radius any rule can reach.
pub open spec fn reach_of<S: Scalar>(p: TectonicParams<S>) -> S {
    let uplift = larger(larger(p.collision_radius, p.orogeny_radius), p.trench_radius);
    let rift = larger(larger(p.rift_radius, p.ridge_radius), p.new_crust_radius);
    larger(
        larger(larger(larger(uplift, arc_reach(p)), rift), shoulder_reach(p)),
        p.transform_radius,
    )
}

impl<S: Scalar> Tectonics<S> {
    pub fn new(params: TectonicParams<S>, seed: u64, stress_noise: Vec<S>) -> (r: Self)
        ensures
            r == (Tectonics { params, seed, stress_noise }),
    {
        Tectonics { params, seed, stress_noise }
    }

    /// The largest radius any rule can reach; the distance field only needs to
    /// be built out this far.
    pub fn max_radius(&self) -> (r: S)
        ensures
            r == reach_of(self.params),
    {
        let p = self.params;
        let mut r = max_of(p.collision_radius, p.orogeny_radius);
        r = max_of(r, p.trench_radius);
        r = max_of(r, p.arc_offset.plus(S::whole(3).times(p.arc_sigma)));
        let rift = max_of(max_of(p.rift_radius, p.ridge_radius), p.new_crust_radius);
        r = max_of(r, rift);
        r = max_of(r, p.shoulder_offset.plus(S::whole(3).times(p.shoulder_sigma)));
        max_of(r, p.transform_radius)
    }

    /// Continuous deformation plus crust ageing. One simulation step.
    pub fn apply(
        &self,
        world: &mut World<S>,
        plates: &Vec<Plate<S>>,
        boundaries: &Vec<Boundary<S>>,
        field: &NearestBoundary<S>,
        plate_age: &Vec<S>,
        dt: S,
    )
        requires
            old(world).wf(),
            self.stress_noise@.len() == old(world).cells(),
            field.source@.len() == old(world).cells(),
            field.dist@.len() == old(world).cells(),
            forall|c: int|
                0 <= c < old(world).cells() ==> rules_apply(
                    plates@,
                    boundaries@,
                    #[trigger] field.lookup(c),
                    plate_age@.len() as int,
                    old(world).plate_id@[c],
                ),
        ensures
            final(world).wf(),
            *final(world) == (World {
                elevation: final(world).elevation,
                crust_age: final(world).crust_age,
                ..*old(world)
            }),
            forall|c: int|
                #![trigger final(world).elevation@[c]]
                #![trigger final(world).crust_age@[c]]
                0 <= c < old(world).cells() ==> (
                    final(world).elevation@[c],
                    final(world).crust_age@[c],
                ) == deformed(
                    self.params,
                    plates@,
                    boundaries@,
                    field.lookup(c),
                    plate_age@,
                    old(world).plate_id@[c],
                    self.stress_noise@[c],
                    old(world).elevation@[c],
                    old(world).crust_age@[c],
                    dt,
                ),
    {
        let p = self.params;
        let zero = S::whole(0);
        let one = S::whole(1);
        let n: usize = world.len();
        let mut idx: usize = 0;
        while idx < n
            invariant
                idx <= n,
                n == world.cells(),
                old(world).wf(),
                world.wf(),
                p == self.params,
                zero == S::of_int(0),
                one == S::of_int(1),
                self.stress_noise@.len() == n,
                field.source@.len() == n,
                field.dist@.len() == n,
                *world == (World {
                    elevation: world.elevation,
                    crust_age: world.crust_age,
                    ..*old(world)
                }),
                forall|c: int|
                    0 <= c < n ==> rules_apply(
                        plates@,
                        boundaries@,
                        #[trigger] field.lookup(c),
                        plate_age@.len() as int,
                        old(world).plate_id@[c],
                    ),
                forall|c: int|
                    #![trigger world.elevation@[c]]
                    #![trigger world.crust_age@[c]]
                    0 <= c < idx ==> (world.elevation@[c], world.crust_age@[c]) == deformed(
                        p,
                        plates@,
                        boundaries@,
                        field.lookup(c),
                        plate_age@,
                        old(world).plate_id@[c],
                        self.stress_noise@[c],
                        old(world).elevation@[c],
                        old(world).crust_age@[c],
                        dt,
                    ),
                forall|c: int|
                    #![trigger world.elevation@[c]]
                    #![trigger world.crust_age@[c]]
                    idx <= c < n ==> world.elevation@[c] == old(world).elevation@[c]
                        && world.crust_age@[c] == old(world).crust_age@[c],
            decreases n - idx,
        {
            let mut age = world.crust_age[idx].plus(dt);
            let mut elev = world.elevation[idx];
            // Old oceanic crust cools and sinks. This is what makes young
            // ridges stand above the abyssal plain.
            if elev.less(zero) && p.age_subsidence_max.less(elev) {
                elev = elev.minus(
                    p.age_subsidence_rate.times(dt).times(age.over(age.plus(S::whole(40)))),
                );
            }
            assert(rules_apply(
                plates@,
                boundaries@,
                field.lookup(idx as int),
                plate_age@.len() as int,
                old(world).plate_id@[idx as int],
            ));
            if let Some((source, d)) = field.at(idx) {
                let b = &boundaries[source as usize];
                let own: PlateId = world.plate_id[idx];
                let outcome = self.effect(b, plates, plate_age, own, d, self.stress_noise[idx]);
                if zero.less(outcome.new_crust) {
                    // Fresh crust. The clock resets hard - this crust is new,
                    // not merely disturbed - which is what makes the crust-age
                    // layer read as a spreading pattern, with age increasing
                    // away from every ridge.
                    age = lerp(
                        age,
                        zero,
                        clamp_to(outcome.new_crust.times(S::whole(2)), zero, one),
                    );
                    // The surface only relaxes toward the ridge baseline
                    // gradually, so a ridge does not punch a hole in terrain
                    // it has just started spreading through.
                    let t = clamp_to(
                        outcome.new_crust.times(p.new_crust_rate).times(dt),
                        zero,
                        one,
                    );
                    elev = lerp(elev, p.ridge_elevation, t);
                }
                let mut delta = outcome.delta.times(dt);
                // Soft isostatic limit.
                if zero.less(delta) {
                    delta = delta.times(
                        one.minus(
                            smoothstep(
                                p.max_elevation.times(S::fraction(6, 10)),
                                p.max_elevation,
                                elev,
                            ),
                        ),
                    );
                } else if delta.less(zero) {
                    delta = delta.times(
                        one.minus(
                            smoothstep(
                                p.min_elevation.times(S::fraction(6, 10)),
                                p.min_elevation,
                                elev,
                            ),
                        ),
                    );
                }
                elev = elev.plus(delta);
            }
            world.elevation.set(idx, elev);
            world.crust_age.set(idx, age);
            idx += 1;
        }
    }

    /// Elevation change per unit time for one cell, and whether that cell is
    /// being resurfaced as new crust.
    fn effect(
        &self,
        b: &Boundary<S>,
        plates: &Vec<Plate<S>>,
        plate_age: &Vec<S>,
        own: PlateId,
        d: S,
        texture: S,
    ) -> (r: Effect<S>)
        requires
            plates_listed(*b, plates@.len() as int),
            own < plates@.len(),
            b.kind is Convergent && plates@[b.plate_a as int].crust_type is Oceanic ==> ages_given(
                *b,
                plates@,
                plate_age@.len() as int,
            ),
        ensures
            r == effect_of(self.params, *b, plates@, plate_age@, own, d, texture),
    {
        let p = self.params;
        let crust_a = plates[b.plate_a as usize].crust_type;
        let crust_b = plates[b.plate_b as usize].crust_type;
        // `own` is the plate that actually holds this cell, which is what the
        // rules key off - the cell may sit on either side of the boundary.
        let own_crust = plates[own as usize].crust_type;
        let strength = b.strength;
        match b.kind {
            BoundaryKind::Convergent => {
                if crust_a.is_continental() && crust_b.is_continental() {
                    // Continent meets continent: no subduction, just a broad
                    // mountain belt lifting both sides.
                    return Effect::uplift(
                        p.collision_rate.times(strength).times(falloff(d, p.collision_radius)),
                    );
                }
                let downgoing: PlateId = subducting_plate(b, plates, plate_age);
                if own == downgoing {
                    // Trench: narrow, deep, on the downgoing side.
                    return Effect::uplift(
                        p.trench_rate.negated().times(strength).times(falloff(d, p.trench_radius)),
                    );
                }
                // Overriding side: broad uplift, plus a volcanic arc set back
                // from the trench. Island arcs are lower and narrower than a
                // continental cordillera.
                let orogeny = if own_crust.is_continental() {
                    p.orogeny_rate
                } else {
                    p.orogeny_rate.times(S::fraction(45, 100))
                };
                let arc = p.arc_rate.times(bump(d, p.arc_offset, p.arc_sigma));
                Effect::uplift(
                    strength.times(orogeny.times(falloff(d, p.orogeny_radius)).plus(arc)),
                )
            },
            BoundaryKind::Divergent => {
                // The axis itself rises; the wider rift around it drops. For
                // ocean crust the axis wins (a mid-ocean ridge stands proud of
                // the abyssal plain); on a continent the rift valley wins.
                let axis = p.ridge_rate.times(falloff(d, p.ridge_radius));
                let basin = p.rift_rate.times(falloff(d, p.rift_radius));
                if !own_crust.is_continental() {
                    Effect {
                        delta: strength.times(
                            axis.times(S::fraction(14, 10)).minus(
                                basin.times(S::fraction(1, 2)),
                            ),
                        ),
                        new_crust: strength.times(falloff(d, p.new_crust_radius)),
                    }
                } else {
                    let shoulders = p.shoulder_rate.times(
                        bump(d, p.shoulder_offset, p.shoulder_sigma),
                    );
                    Effect::uplift(
                        strength.times(
                            axis.times(S::fraction(1, 2)).minus(basin).plus(shoulders),
                        ),
                    )
                }
            },
            // Small, irregular deformation: ridges and troughs shuffled along
            // the fault rather than a single clean feature.
            BoundaryKind::Transform => Effect::uplift(
                p.transform_rate.times(strength).times(texture).times(
                    falloff(d, p.transform_radius),
                ),
            ),
        }
    }
}

// --- volcanism -------------------------------------------------------------
pub open spec fn tendency_of<S: Scalar>(b: Boundary<S>, plates: Seq<Plate<S>>) -> S {
    let a = plates[b.plate_a as int].crust_type;
    let c = plates[b.plate_b as int].crust_type;
    match b.kind {
        BoundaryKind::Convergent => if a is Continental && c is Continental {
            S::ratio(15, 100)
        } else {
            S::of_int(1)
        },
        BoundaryKind::Divergent => if a is Oceanic && c is Oceanic {
            S::of_int(1)
        } else {
            S::ratio(6, 10)
        },
        BoundaryKind::Transform => S::ratio(5, 100),
    }
}

/// Relative volcanic activity per boundary type. These are game parameters, not
/// measurements.
fn volcanic_tendency<S: Scalar>(b: &Boundary<S>, plates: &Vec<Plate<S>>) -> (r: S)
    requires
        plates_listed(*b, plates@.len() as int),
    ensures
        r == tendency_of(*b, plates@),
{
    let a = plates[b.plate_a as usize].crust_type;
    let c = plates[b.plate_b as usize].crust_type;
    let both_oceanic = !a.is_continental() && !c.is_continental();
    let both_continental = a.is_continental() && c.is_continental();
    match b.kind {
        BoundaryKind::Convergent => {
            if both_continental {
                S::fraction(15, 100)  // collision: little melt reaches the surface
            } else {
                S::whole(1)  // subduction: the classic volcanic arc
            }
        },
        BoundaryKind::Divergent => {
            if both_oceanic {
                S::whole(1)  // mid-ocean ridge
            } else {
                S::fraction(6, 10)  // continental rift
            }
        },
        BoundaryKind::Transform => S::fraction(5, 100),
    }
}

/// What a cone adds at an offset from its axis; nothing outside its radius.
pub open spec fn cone_at<S: Scalar>(elevation: S, dx: int, dy: int, radius: S, height: S) -> S {
    let d = S::of_int(dx * dx + dy * dy).sqrt();
    if radius.lt(d) {
        elevation
    } else {
        let t = S::of_int(1).sub(d.div(radius));
        elevation.add(height.mul(t).mul(t))
    }
}

/// The terrain after the first `k` columns of one row of a cone, `dy` rows from
/// its axis, on row `y` of the world.
pub open spec fn cone_row<S: Scalar>(
    w: int,
    elevation: Seq<S>,
    x0: int,
    y: int,
    dy: int,
    r: int,
    radius: S,
    height: S,
    k: nat,
) -> Seq<S>
    decreases k,
{
    if k == 0 {
        elevation
    } else {
        let before = cone_row(w, elevation, x0, y, dy, r, radius, height, (k - 1) as nat);
        let dx = k - 1 - r;
        let c = cell_index(w, (x0 + dx) % w, y);
        before.update(c, cone_at(before[c], dx, dy, radius, height))
    }
}

/// The terrain after the first `k` rows of a cone, clipped at the walls.
pub open spec fn cone_rows<S: Scalar>(
    w: int,
    h: int,
    elevation: Seq<S>,
    x0: int,
    y0: int,
    r: int,
    radius: S,
    height: S,
    k: nat,
) -> Seq<S>
    decreases k,
{
    if k == 0 {
        elevation
    } else {
        let before = cone_rows(w, h, elevation, x0, y0, r, radius, height, (k - 1) as nat);
        let dy = k - 1 - r;
        if 0 <= y0 + dy < h {
            cone_row(w, before, x0, y0 + dy, dy, r, radius, height, (2 * r + 1) as nat)
        } else {
            before
        }
    }
}

/// The terrain with a cone on it.
pub open spec fn with_cone<S: Scalar>(
    w: int,
    h: int,
    elevation: Seq<S>,
    cx: S,
    cy: S,
    radius: S,
    height: S,
) -> Seq<S> {
    let r = radius.ceil() as int;
    if r < 0 {
        elevation
    } else {
        cone_rows(
            w,
            h,
            elevation,
            cx.round() as int,
            cy.round() as int,
            r,
            radius,
            height,
            (2 * r + 1) as nat,
        )
    }
}

/// The largest cone radius whose square distances fit the number type of the
/// offsets.
pub const MAX_CONE: i64 = 2_147_483_647;

/// Add a smooth cone. Radius is small (1-4 cells) by design.
fn stamp_cone<S: Scalar>(world: &mut World<S>, cx: S, cy: S, radius: S, height: S)
    requires
        old(world).wf(),
        radius.ceil() <= MAX_CONE,
    ensures
        final(world).wf(),
        *final(world) == (World { elevation: final(world).elevation, ..*old(world) }),
        final(world).elevation@ == with_cone(
            old(world).width as int,
            old(world).height as int,
            old(world).elevation@,
            cx,
            cy,
            radius,
            height,
        ),
{
    let r: i64 = radius.round_up();
    if r < 0 {
        return;
    }
    let x0: i64 = cx.round_near();
    let y0: i64 = cy.round_near();
    let ghost w = world.width as int;
    let ghost h = world.height as int;
    let ghost start = world.elevation@;
    let mut dy: i64 = -r;
    while dy <= r
        invariant
            0 <= r <= MAX_CONE,
            -r <= dy <= r + 1,
            old(world).wf(),
            world.wf(),
            w == world.width,
            h == world.height,
            *world == (World { elevation: world.elevation, ..*old(world) }),
            world.elevation@ == cone_rows(
                w,
                h,
                start,
                x0 as int,
                y0 as int,
                r as int,
                radius,
                height,
                (dy + r) as nat,
            ),
        decreases r + 1 - dy,
    {
        let y: i128 = y0 as i128 + dy as i128;
        if y >= 0 && y < world.height as i128 {
            let row: usize = y as usize;
            let ghost before = world.elevation@;
            let mut dx: i64 = -r;
            while dx <= r
                invariant
                    0 <= r <= MAX_CONE,
                    -r <= dx <= r + 1,
                    -r <= dy <= r,
                    row < world.height,
                    row == y0 + dy,
                    old(world).wf(),
                    world.wf(),
                    w == world.width,
                    h == world.height,
                    *world == (World { elevation: world.elevation, ..*old(world) }),
                    world.elevation@ == cone_row(
                        w,
                        before,
                        x0 as int,
                        row as int,
                        dy as int,
                        r as int,
                        radius,
                        height,
                        (dx + r) as nat,
                    ),
                decreases r + 1 - dx,
            {
                let x: i128 = (x0 as i128 + dx as i128).checked_rem_euclid(
                    world.width as i128,
                ).unwrap();
                let column: usize = x as usize;
                proof {
                    lemma_cell_in_grid(w, h, column as int, row as int);
                    lemma_squares_fit(dx as int, dy as int);
                }
                let d = S::whole(dx * dx + dy * dy).root();
                let idx: usize = world.idx(column, row);
                let ghost c = cell_index(w, (x0 + dx) % w, row as int);
                assert(idx == c);
                if !radius.less(d) {
                    let t = S::whole(1).minus(d.over(radius));
                    let e = world.elevation[idx].plus(height.times(t).times(t));
                    world.elevation.set(idx, e);
                } else {
                    assert(world.elevation@.update(idx as int, world.elevation@[idx as int])
                        =~= world.elevation@);
                }
                dx += 1;
            }
        }
        dy += 1;
    }
}

pub(crate) proof fn lemma_squares_fit(a: int, b: int)
    requires
        -MAX_CONE <= a <= MAX_CONE,
        -MAX_CONE <= b <= MAX_CONE,
    ensures
        0 <= a * a <= 4_611_686_014_132_420_609,
        0 <= b * b <= 4_611_686_014_132_420_609,
{
    assert(0 <= a * a <= 4_611_686_014_132_420_609) by (nonlinear_arith)
        requires
            -2_147_483_647 <= a <= 2_147_483_647,
    ;
    assert(0 <= b * b <= 4_611_686_014_132_420_609) by (nonlinear_arith)
        requires
            -2_147_483_647 <= b <= 2_147_483_647,
    ;
}

/// The volcano that a boundary brings forth in a step, if it brings one forth:
/// where it stands, and how high it is. Arc volcanoes sit back from the trench,
/// on the overriding plate; rift volcanoes sit on the axis itself.
pub open spec fn eruption_of<S: Scalar>(
    p: TectonicParams<S>,
    seed: u64,
    w: int,
    b: Boundary<S>,
    plates: Seq<Plate<S>>,
    plate_age: Seq<S>,
    step: i64,
    dt: S,
) -> Option<(S, S, S)> {
    let zero = S::of_int(0);
    let tendency = tendency_of(b, plates);
    let chance = clamped(
        p.volcano_chance.mul(tendency).mul(b.strength).mul(dt),
        zero,
        S::of_int(1),
    );
    let roll = hash_fraction::<S>(seed ^ 0xC0FF_EE01u64, b.cell as i64, step);
    let arc = b.kind is Convergent;
    if tendency.le(zero) || chance.le(roll) {
        None
    } else if arc && b.plate_a == goes_under(b, plates, plate_age) {
        None
    } else {
        let offset = if arc {
            p.arc_offset.neg()
        } else {
            zero
        };
        let jitter = hash_fraction::<S>(seed ^ 0xA11Eu64, b.cell as i64, step ^ 0x5F);
        Some(
            (
                S::of_int(b.cell as int % w).add(b.normal.x.mul(offset)),
                S::of_int(b.cell as int / w).add(b.normal.y.mul(offset)),
                p.volcano_height.mul(S::ratio(6, 10).add(S::ratio(8, 10).mul(jitter))),
            ),
        )
    }
}

/// The terrain after the first `k` boundaries have had their chance, and how
/// many of them erupted.
pub open spec fn erupted_before<S: Scalar>(
    p: TectonicParams<S>,
    seed: u64,
    w: int,
    h: int,
    elevation: Seq<S>,
    boundaries: Seq<Boundary<S>>,
    plates: Seq<Plate<S>>,
    plate_age: Seq<S>,
    step: i64,
    dt: S,
    k: nat,
) -> (Seq<S>, nat)
    decreases k,
{
    if k == 0 {
        (elevation, 0)
    } else {
        let (e, count) = erupted_before(
            p,
            seed,
            w,
            h,
            elevation,
            boundaries,
            plates,
            plate_age,
            step,
            dt,
            (k - 1) as nat,
        );
        match eruption_of(p, seed, w, boundaries[k - 1], plates, plate_age, step, dt) {
            Some((x, y, height)) => (
                with_cone(w, h, e, x, y, p.volcano_radius, height),
                count + 1,
            ),
            None => (e, count),
        }
    }
}

impl<S: Scalar> Tectonics<S> {
    /// Place volcanoes.
    ///
    /// Probability is `base x tendency x strength`, sampled from a stateless
    /// hash of the boundary cell and the step number - deterministic, and
    /// independent of the order boundaries happen to be visited in.
    pub fn apply_volcanism(
        &self,
        world: &mut World<S>,
        plates: &Vec<Plate<S>>,
        boundaries: &Vec<Boundary<S>>,
        plate_age: &Vec<S>,
        step: u64,
        dt: S,
    ) -> (erupted: usize)
        requires
            old(world).wf(),
            self.params.volcano_radius.ceil() <= MAX_CONE,
            forall|i: int|
                0 <= i < boundaries@.len() ==> plates_listed(
                    #[trigger] boundaries@[i],
                    plates@.len() as int,
                ) && (boundaries@[i].kind is Convergent ==> ages_given(
                    boundaries@[i],
                    plates@,
                    plate_age@.len() as int,
                )),
        ensures
            final(world).wf(),
            *final(world) == (World { elevation: final(world).elevation, ..*old(world) }),
            (final(world).elevation@, erupted as nat) == erupted_before(
                self.params,
                self.seed,
                old(world).width as int,
                old(world).height as int,
                old(world).elevation@,
                boundaries@,
                plates@,
                plate_age@,
                step as i64,
                dt,
                boundaries@.len(),
            ),
            erupted <= boundaries@.len(),
    {
        let p = self.params;
        let zero = S::whole(0);
        let ghost w = world.width as int;
        let ghost h = world.height as int;
        let step: i64 = step as i64;
        let mut erupted: usize = 0;
        let mut i: usize = 0;
        while i < boundaries.len()
            invariant
                i <= boundaries@.len(),
                erupted <= i,
                p == self.params,
                zero == S::of_int(0),
                p.volcano_radius.ceil() <= MAX_CONE,
                old(world).wf(),
                world.wf(),
                w == world.width,
                h == world.height,
                *world == (World { elevation: world.elevation, ..*old(world) }),
                forall|j: int|
                    0 <= j < boundaries@.len() ==> plates_listed(
                        #[trigger] boundaries@[j],
                        plates@.len() as int,
                    ) && (boundaries@[j].kind is Convergent ==> ages_given(
                        boundaries@[j],
                        plates@,
                        plate_age@.len() as int,
                    )),
                (world.elevation@, erupted as nat) == erupted_before(
                    p,
                    self.seed,
                    w,
                    h,
                    old(world).elevation@,
                    boundaries@,
                    plates@,
                    plate_age@,
                    step,
                    dt,
                    i as nat,
                ),
            decreases boundaries@.len() - i,
        {
            let b = &boundaries[i];
            if let Some((vx, vy, height)) = self.eruption(
                &*world,
                b,
                plates,
                plate_age,
                step,
                dt,
            ) {
                stamp_cone(world, vx, vy, p.volcano_radius, height);
                erupted += 1;
            }
            i += 1;
        }
        erupted
    }

    /// The volcano that one boundary brings forth in a step, if it brings one
    /// forth.
    fn eruption(
        &self,
        world: &World<S>,
        b: &Boundary<S>,
        plates: &Vec<Plate<S>>,
        plate_age: &Vec<S>,
        step: i64,
        dt: S,
    ) -> (r: Option<(S, S, S)>)
        requires
            world.wf(),
            plates_listed(*b, plates@.len() as int),
            b.kind is Convergent ==> ages_given(*b, plates@, plate_age@.len() as int),
        ensures
            r == eruption_of(
                self.params,
                self.seed,
                world.width as int,
                *b,
                plates@,
                plate_age@,
                step,
                dt,
            ),
    {
        let p = self.params;
        let zero = S::whole(0);
        let tendency = volcanic_tendency(b, plates);
        if tendency.at_most(zero) {
            return None;
        }
        let chance = clamp_to(
            p.volcano_chance.times(tendency).times(b.strength).times(dt),
            zero,
            S::whole(1),
        );
        let roll: S = hash_unit(self.seed ^ 0xC0FF_EE01, b.cell as i64, step);
        if chance.at_most(roll) {
            return None;
        }
        let offset = match b.kind {
            BoundaryKind::Convergent => {
                let downgoing: PlateId = subducting_plate(b, plates, plate_age);
                if b.plate_a == downgoing {
                    return None;  // the arc belongs to the other side
                }
                p.arc_offset.negated()
            },
            _ => zero,
        };
        let (cx, cy) = world.coords(b.cell as usize);
        let vx = S::whole(cx as i64).plus(b.normal.x.times(offset));
        let vy = S::whole(cy as i64).plus(b.normal.y.times(offset));
        let jitter: S = hash_unit(self.seed ^ 0xA11E, b.cell as i64, step ^ 0x5F);
        let height = p.volcano_height.times(
            S::fraction(6, 10).plus(S::fraction(8, 10).times(jitter)),
        );
        Some((vx, vy, height))
    }
}

// --- crust age -------------------------------------------------------------
/// The crust age gathered on the cells below `n` that plate `id` holds.
pub open spec fn age_gathered<S: Scalar>(
    plate_id: Seq<PlateId>,
    crust_age: Seq<S>,
    id: int,
    n: nat,
) -> S::Wide
    decreases n,
{
    if n == 0 {
        S::wide_zero()
    } else {
        let before = age_gathered(plate_id, crust_age, id, (n - 1) as nat);
        if plate_id[n - 1] == id {
            S::gather(before, crust_age[n - 1])
        } else {
            before
        }
    }
}

/// How many of the cells below `n` plate `id` holds.
pub open spec fn cells_held(plate_id: Seq<PlateId>, id: int, n: nat) -> nat
    decreases n,
{
    if n == 0 {
        0
    } else {
        cells_held(plate_id, id, (n - 1) as nat) + if plate_id[n - 1] == id {
            1nat
        } else {
            0
        }
    }
}

/// The mean crust age of plate `id`; zero where it holds no cell.
pub open spec fn mean_age<S: Scalar>(plate_id: Seq<PlateId>, crust_age: Seq<S>, id: int) -> S {
    let n = plate_id.len();
    if cells_held(plate_id, id, n) > 0 {
        S::mean(age_gathered(plate_id, crust_age, id, n), cells_held(plate_id, id, n) as int)
    } else {
        S::of_int(0)
    }
}

/// Mean crust age per plate, used to decide which oceanic plate subducts.
pub fn mean_crust_age<S: Scalar>(world: &World<S>, plate_count: usize) -> (r: Vec<S>)
    requires
        world.wf(),
        world.cells() <= u32::MAX,
    ensures
        r@ == Seq::new(
            plate_count as nat,
            |id: int| mean_age(world.plate_id@, world.crust_age@, id),
        ),
{
    let ghost ids = world.plate_id@;
    let ghost ages = world.crust_age@;
    let n: usize = world.len();
    let mut total: Vec<S::Wide> = repeated(S::empty_sum(), plate_count);
    let mut count: Vec<u32> = repeated(0, plate_count);
    let mut idx: usize = 0;
    while idx < n
        invariant
            idx <= n,
            n == world.cells(),
            n <= u32::MAX,
            world.wf(),
            ids == world.plate_id@,
            ages == world.crust_age@,
            total@.len() == plate_count,
            count@.len() == plate_count,
            forall|id: int|
                0 <= id < plate_count ==> #[trigger] total@[id] == age_gathered(
                    ids,
                    ages,
                    id,
                    idx as nat,
                ),
            forall|id: int|
                0 <= id < plate_count ==> #[trigger] count@[id] == cells_held(ids, id, idx as nat)
                    && count@[id] <= idx,
        decreases n - idx,
    {
        let id: usize = world.plate_id[idx] as usize;
        if id < plate_count {
            let t = S::gathered(total[id], world.crust_age[idx]);
            total.set(id, t);
            let c: u32 = count[id] + 1;
            count.set(id, c);
        }
        idx += 1;
    }
    let mut out: Vec<S> = Vec::with_capacity(plate_count);
    let mut id: usize = 0;
    while id < plate_count
        invariant
            id <= plate_count,
            n == ids.len(),
            total@.len() == plate_count,
            count@.len() == plate_count,
            forall|i: int|
                0 <= i < plate_count ==> #[trigger] total@[i] == age_gathered(
                    ids,
                    ages,
                    i,
                    n as nat,
                ),
            forall|i: int|
                0 <= i < plate_count ==> #[trigger] count@[i] == cells_held(ids, i, n as nat),
            out@ == Seq::new(id as nat, |i: int| mean_age(ids, ages, i)),
        decreases plate_count - id,
    {
        let mean = if count[id] > 0 {
            S::average(total[id], count[id])
        } else {
            S::whole(0)
        };
        out.push(mean);
        id += 1;
        assert(out@ =~= Seq::new(id as nat, |i: int| mean_age(ids, ages, i)));
    }
    out
}

// --- laws ------------------------------------------------------------------
/// Nothing reaches past the radius.
pub proof fn falloff_stops_at_the_radius<S: Scalar>(d: S, radius: S)
    requires
        radius.le(d),
    ensures
        faded(d, radius) == S::of_int(0),
{
}

/// Shares stay shares: products of numbers between 0 and 1 lie between 0 and 1,
/// and so does what is left of 1.
pub open spec fn shares_multiply<S: Scalar>() -> bool {
    let zero = S::of_int(0);
    let one = S::of_int(1);
    &&& zero.le(zero) && zero.le(one)
    &&& forall|a: S, b: S|
        zero.le(a) && a.le(one) && zero.le(b) && b.le(one) ==> zero.le(#[trigger] a.mul(b))
            && a.mul(b).le(one)
    &&& forall|a: S|
        zero.le(a) && a.le(one) ==> zero.le(#[trigger] one.sub(a)) && one.sub(a).le(one)
}

/// The falloff is a share: it lies between 0 and 1 wherever the exponential and
/// the ramp do.
pub proof fn falloff_is_a_share<S: Scalar>(d: S, radius: S)
    requires
        shares_multiply::<S>(),
        ({
            let e = d.neg().div(radius.mul(S::ratio(35, 100))).exp();
            S::of_int(0).le(e) && e.le(S::of_int(1))
        }),
        ({
            let ramp = hermite(radius.mul(S::ratio(7, 10)), radius, d);
            S::of_int(0).le(ramp) && ramp.le(S::of_int(1))
        }),
    ensures
        S::of_int(0).le(faded(d, radius)),
        faded(d, radius).le(S::of_int(1)),
{
}

/// Fixed-point shares stay shares.
pub proof fn fixed_shares_multiply()
    ensures
        shares_multiply::<Fixed>(),
{
    let zero = Fixed::of_int(0);
    let one = Fixed::of_int(1);
    assert forall|a: Fixed, b: Fixed|
        zero.le(a) && a.le(one) && zero.le(b) && b.le(one) implies zero.le(#[trigger] a.mul(b))
        && a.mul(b).le(one) by {
        assert(0 <= (a.raw * b.raw) / 65536 <= 65536) by (nonlinear_arith)
            requires
                0 <= a.raw <= 65536,
                0 <= b.raw <= 65536,
        ;
    }
}

/// With fixed-point numbers the falloff is a share for every distance that is
/// not negative, wherever a third of the radius is not lost to rounding.
pub proof fn fixed_falloff_is_a_share(d: Fixed, radius: Fixed)
    requires
        Fixed::of_int(0).le(d),
        Fixed::of_int(0).lt(radius.mul(Fixed::ratio(35, 100))),
    ensures
        Fixed::of_int(0).le(faded(d, radius)),
        faded(d, radius).le(Fixed::of_int(1)),
{
    if !radius.le(d) {
        let width = radius.mul(Fixed::ratio(35, 100));
        let x = d.neg().div(width);
        assert(((-d.raw) * 65536) / (width.raw as int) <= 0) by (nonlinear_arith)
            requires
                d.raw >= 0,
                width.raw > 0,
        ;
        assert(x.raw <= 0);
        let e = x.exp();
        assert(0 <= e.raw <= 65536) by {
            if x.raw >= -1024 * 65536 {
                lemma_squares_stay_small(
                    Fixed { raw: saturated(65536 + x.raw as int / 1024) },
                    10,
                );
            }
        }
        let ramp = hermite(radius.mul(Fixed::ratio(7, 10)), radius, d);
        smoothstep_stays_between_zero_and_one(radius.mul(Fixed::ratio(7, 10)), radius, d);
        let rest = Fixed::of_int(1).sub(ramp);
        assert(0 <= rest.raw <= 65536);
        assert(0 <= (e.raw * rest.raw) / 65536 <= 65536) by (nonlinear_arith)
            requires
                0 <= e.raw <= 65536,
                0 <= rest.raw <= 65536,
        ;
    }
}

/// Isostasy keeps mountains bounded: an uplift never carries the terrain
/// further past its limit than the uplift itself, and nothing that stands at
/// the limit already is lifted at all.
pub proof fn mountains_stop_growing(p: TectonicParams<Fixed>, elevation: Fixed, delta: Fixed)
    requires
        Fixed::of_int(0).lt(delta),
        p.max_elevation.mul(Fixed::ratio(6, 10)).lt(p.max_elevation),
    ensures
        p.max_elevation.le(elevation) ==> elevation.add(softened(p, elevation, delta))
            == elevation,
        !p.max_elevation.le(elevation) ==> elevation.add(softened(p, elevation, delta)).le(
            p.max_elevation.add(delta),
        ),
{
    let low = p.max_elevation.mul(Fixed::ratio(6, 10));
    let ramp = hermite(low, p.max_elevation, elevation);
    smoothstep_is_flat_outside_its_edges(low, p.max_elevation, elevation);
    smoothstep_stays_between_zero_and_one(low, p.max_elevation, elevation);
    let rest = Fixed::of_int(1).sub(ramp);
    assert(0 <= rest.raw <= 65536);
    assert(0 <= (delta.raw * rest.raw) / 65536 <= delta.raw) by (nonlinear_arith)
        requires
            delta.raw > 0,
            0 <= rest.raw <= 65536,
    ;
    if p.max_elevation.le(elevation) {
        assert(rest.raw == 0);
        assert((delta.raw * rest.raw) / 65536 == 0) by (nonlinear_arith)
            requires
                rest.raw == 0,
        ;
    }
}

/// Crust gets older everywhere but on oceanic plates along spreading centres:
/// no other rule touches its age.
pub proof fn crust_ages_away_from_ridges<S: Scalar>(
    p: TectonicParams<S>,
    plates: Seq<Plate<S>>,
    boundaries: Seq<Boundary<S>>,
    source: u32,
    d: S,
    plate_age: Seq<S>,
    own: PlateId,
    texture: S,
    elevation: S,
    age: S,
    dt: S,
)
    requires
        !S::of_int(0).lt(S::of_int(0)),
        !(boundaries[source as int].kind is Divergent) || plates[own as int].crust_type
            is Continental,
    ensures
        deformed(
            p,
            plates,
            boundaries,
            Some((source, d)),
            plate_age,
            own,
            texture,
            elevation,
            age,
            dt,
        ).1 == age.add(dt),
{
}

/// Spreading centres reset crust age: where a rule renews at least half of the
/// crust, its age is zero.
pub proof fn ridges_renew_crust(
    p: TectonicParams<Fixed>,
    outcome: Effect<Fixed>,
    elevation: Fixed,
    age: Fixed,
    dt: Fixed,
)
    requires
        Fixed::ratio(1, 2).le(outcome.new_crust),
        Fixed::of_int(0).le(age),
    ensures
        worked(p, outcome, elevation, age, dt).1 == Fixed::of_int(0),
{
    let one = Fixed::of_int(1);
    let zero = Fixed::of_int(0);
    let double = outcome.new_crust.mul(Fixed::of_int(2));
    assert(outcome.new_crust.raw >= 32768);
    assert((outcome.new_crust.raw * 131072) / 65536 == 2 * outcome.new_crust.raw);
    assert(double.raw >= 65536);
    assert(clamped(double, zero, one) == one);
    let lost = zero.sub(age);
    assert((lost.raw * 65536) / 65536 == lost.raw);
    assert(lost.mul(one) == lost);
}

/// Near a boundary, where the taper has not begun, the falloff is the plain
/// exponential.
pub proof fn falloff_is_exponential_near_the_boundary<S: Scalar>(d: S, radius: S)
    requires
        !radius.le(d),
        hermite(radius.mul(S::ratio(7, 10)), radius, d) == S::of_int(0),
        S::of_int(1).sub(S::of_int(0)) == S::of_int(1),
        ({
            let e = d.neg().div(radius.mul(S::ratio(35, 100))).exp();
            e.mul(S::of_int(1)) == e
        }),
    ensures
        faded(d, radius) == d.neg().div(radius.mul(S::ratio(35, 100))).exp(),
{
}

/// With fixed-point numbers the falloff is the plain exponential up to seven
/// tenths of the radius, and 1 at the boundary itself.
pub proof fn fixed_falloff_starts_at_one(d: Fixed, radius: Fixed)
    requires
        Fixed::of_int(0).le(d),
        d.le(radius.mul(Fixed::ratio(7, 10))),
        Fixed::of_int(0).lt(radius.mul(Fixed::ratio(35, 100))),
    ensures
        faded(d, radius) == d.neg().div(radius.mul(Fixed::ratio(35, 100))).exp(),
        faded(Fixed::of_int(0), radius) == Fixed::of_int(1),
{
    let edge = radius.mul(Fixed::ratio(7, 10));
    let width = radius.mul(Fixed::ratio(35, 100));
    assert(Fixed::ratio(7, 10).raw == 45875 && Fixed::ratio(35, 100).raw == 22937);
    assert(radius.raw > 0) by {
        assert(radius.raw <= 0 ==> (radius.raw * 22937) / 65536 <= 0);
    }
    assert(edge.raw == (radius.raw * 45875) / 65536);
    assert(0 <= edge.raw < radius.raw);
    smoothstep_is_flat_outside_its_edges(edge, radius, d);
    let e = d.neg().div(width).exp();
    lemma_times_one(e);
    falloff_is_exponential_near_the_boundary(d, radius);
    let zero = Fixed::of_int(0);
    smoothstep_is_flat_outside_its_edges(edge, radius, zero);
    let x = zero.neg().div(width);
    assert(x.raw == 0) by {
        assert((0 * 65536int) / (width.raw as int) == 0) by (nonlinear_arith)
            requires
                width.raw > 0,
        ;
    }
    let one = Fixed { raw: 65536 };
    assert(x.exp() == squared_times(one, 10));
    lemma_ones_squared(10);
    lemma_times_one(x.exp());
    falloff_is_exponential_near_the_boundary(zero, radius);
}

/// Products of amounts that are not negative keep their order, and the more is
/// taken from 1 the less is left.
pub open spec fn shares_keep_order<S: Scalar>() -> bool {
    let zero = S::of_int(0);
    let one = S::of_int(1);
    &&& forall|a: S, b: S, k: S|
        #![trigger a.mul(k), b.mul(k)]
        zero.le(k) && a.le(b) ==> a.mul(k).le(b.mul(k))
    &&& forall|a: S, b: S, k: S|
        #![trigger k.mul(a), k.mul(b)]
        zero.le(k) && a.le(b) ==> k.mul(a).le(k.mul(b))
    &&& forall|a: S, b: S|
        #![trigger one.sub(a), one.sub(b)]
        a.le(b) ==> one.sub(b).le(one.sub(a))
}

/// Fixed-point products and differences keep that order.
pub proof fn fixed_shares_keep_order()
    ensures
        shares_keep_order::<Fixed>(),
{
    let zero = Fixed::of_int(0);
    assert forall|a: Fixed, b: Fixed, k: Fixed|
        #![trigger a.mul(k), b.mul(k)]
        zero.le(k) && a.le(b) implies a.mul(k).le(b.mul(k)) by {
        assert(a.raw * k.raw <= b.raw * k.raw) by (nonlinear_arith)
            requires
                k.raw >= 0,
                a.raw <= b.raw,
        ;
    }
    assert forall|a: Fixed, b: Fixed, k: Fixed|
        #![trigger k.mul(a), k.mul(b)]
        zero.le(k) && a.le(b) implies k.mul(a).le(k.mul(b)) by {
        assert(k.raw * a.raw <= k.raw * b.raw) by (nonlinear_arith)
            requires
                k.raw >= 0,
                a.raw <= b.raw,
        ;
    }
}

/// The falloff only falls: it is no larger further away, where the exponential
/// is no larger there and the taper no smaller.
pub proof fn falloff_only_falls<S: Scalar>(near: S, far: S, radius: S)
    requires
        linearly_ordered::<S>(),
        shares_multiply::<S>(),
        shares_keep_order::<S>(),
        radius.le(near) ==> radius.le(far),
        ({
            let edge = radius.mul(S::ratio(7, 10));
            let width = radius.mul(S::ratio(35, 100));
            let e = near.neg().div(width).exp();
            let f = far.neg().div(width).exp();
            let a = hermite(edge, radius, near);
            let b = hermite(edge, radius, far);
            &&& S::of_int(0).le(f) && f.le(e) && e.le(S::of_int(1))
            &&& S::of_int(0).le(a) && a.le(b) && b.le(S::of_int(1))
        }),
    ensures
        faded(far, radius).le(faded(near, radius)),
{
    let zero = S::of_int(0);
    let one = S::of_int(1);
    let edge = radius.mul(S::ratio(7, 10));
    let width = radius.mul(S::ratio(35, 100));
    let e = near.neg().div(width).exp();
    let f = far.neg().div(width).exp();
    let a = hermite(edge, radius, near);
    let b = hermite(edge, radius, far);
    assert(zero.le(e) && a.le(one) && zero.le(b));
    let p = one.sub(a);
    let q = one.sub(b);
    assert(q.le(p) && zero.le(q) && zero.le(p) && p.le(one) && q.le(one));
    assert(f.mul(q).le(e.mul(q)));
    assert(e.mul(q).le(e.mul(p)));
    assert(zero.le(e.mul(p)));
}

/// With fixed-point numbers the falloff never rises by more than rounding can
/// account for, which is four of the smallest steps.
pub proof fn falloff_never_rises(near: Fixed, far: Fixed, radius: Fixed)
    requires
        Fixed::of_int(0).le(near),
        near.le(far),
        Fixed::of_int(0).lt(radius.mul(Fixed::ratio(35, 100))),
    ensures
        faded(far, radius).raw <= faded(near, radius).raw + 4,
{
    fixed_falloff_is_a_share(near, radius);
    if !radius.le(far) {
        let width = radius.mul(Fixed::ratio(35, 100));
        let edge = radius.mul(Fixed::ratio(7, 10));
        assert(Fixed::ratio(7, 10).raw == 45875 && Fixed::ratio(35, 100).raw == 22937);
        assert(radius.raw > 0) by {
            assert(radius.raw <= 0 ==> (radius.raw * 22937) / 65536 <= 0);
        }
        assert(edge.raw < radius.raw);
        let x = near.neg().div(width);
        let y = far.neg().div(width);
        assert(((-far.raw) * 65536) / (width.raw as int) <= ((-near.raw) * 65536) / (
        width.raw as int) <= 0) by (nonlinear_arith)
            requires
                0 <= near.raw <= far.raw,
                width.raw > 0,
        ;
        assert(y.raw <= x.raw <= 0);
        let e = x.exp().raw as int;
        let f = y.exp().raw as int;
        assert(0 <= f <= e <= 65536) by {
            let a = Fixed { raw: saturated(65536 + x.raw as int / 1024) };
            let b = Fixed { raw: saturated(65536 + y.raw as int / 1024) };
            if x.raw >= -1024 * 65536 {
                lemma_squares_stay_small(a, 10);
                if y.raw >= -1024 * 65536 {
                    lemma_squares_rise(b, a, 10);
                }
            }
        }
        smoothstep_stays_between_zero_and_one(edge, radius, near);
        smoothstep_stays_between_zero_and_one(edge, radius, far);
        smoothstep_nearly_rises(edge, radius, near, far);
        let one = Fixed::of_int(1);
        let p = one.sub(hermite(edge, radius, near)).raw as int;
        let q = one.sub(hermite(edge, radius, far)).raw as int;
        assert(0 <= p && 0 <= q <= p + 3);
        assert((f * q) / 65536 <= (e * p) / 65536 + 4) by (nonlinear_arith)
            requires
                0 <= f <= e <= 65536,
                0 <= p,
                0 <= q <= p + 3,
        {
            assert(f * q <= e * (p + 3));
            assert(e * (p + 3) == e * p + 3 * e);
            assert(e * p + 3 * e <= e * p + 3 * 65536);
        }
        assert(0 <= e * p <= 65536 * 65536 && 0 <= f * q <= 65536 * 65536) by (nonlinear_arith)
            requires
                0 <= f <= e <= 65536,
                0 <= p <= 65536,
                0 <= q <= 65536,
        ;
    }
}

/// Signs behave: products of two numbers that are not negative are not
/// negative, and one factor that is not positive turns the sign around.
pub open spec fn signs_multiply<S: Scalar>() -> bool {
    let zero = S::of_int(0);
    &&& forall|a: S, b: S| zero.le(a) && zero.le(b) ==> zero.le(#[trigger] a.mul(b))
    &&& forall|a: S, b: S| a.le(zero) && zero.le(b) ==> (#[trigger] a.mul(b)).le(zero)
    &&& forall|a: S, b: S| zero.le(a) && zero.le(b) ==> zero.le(#[trigger] a.add(b))
    &&& forall|a: S| zero.le(a) ==> (#[trigger] a.neg()).le(zero)
}

/// Where plates converge, a collision of continents lifts both sides. Any other
/// convergence lowers the plate that goes under, and lifts the one that stays
/// on top.
pub proof fn convergence_lifts_and_lowers<S: Scalar>(
    p: TectonicParams<S>,
    b: Boundary<S>,
    plates: Seq<Plate<S>>,
    plate_age: Seq<S>,
    own: PlateId,
    d: S,
    texture: S,
)
    requires
        b.kind is Convergent,
        signs_multiply::<S>(),
        S::of_int(0).le(b.strength),
        S::of_int(0).le(p.collision_rate),
        S::of_int(0).le(p.trench_rate),
        S::of_int(0).le(p.orogeny_rate),
        S::of_int(0).le(p.arc_rate),
        S::of_int(0).le(S::ratio(45, 100)),
        S::of_int(0).le(faded(d, p.collision_radius)),
        S::of_int(0).le(faded(d, p.trench_radius)),
        S::of_int(0).le(faded(d, p.orogeny_radius)),
        S::of_int(0).le(bell(d, p.arc_offset, p.arc_sigma)),
    ensures
        ({
            let delta = effect_of(p, b, plates, plate_age, own, d, texture).delta;
            let collision = plates[b.plate_a as int].crust_type is Continental
                && plates[b.plate_b as int].crust_type is Continental;
            if !collision && own == goes_under(b, plates, plate_age) {
                delta.le(S::of_int(0))
            } else {
                S::of_int(0).le(delta)
            }
        }),
{
    let s = b.strength;
    let zero = S::of_int(0);
    assert(zero.le(p.collision_rate.mul(s)));
    assert(zero.le(p.collision_rate.mul(s).mul(faded(d, p.collision_radius))));
    assert(p.trench_rate.neg().le(zero));
    assert(p.trench_rate.neg().mul(s).le(zero));
    assert(p.trench_rate.neg().mul(s).mul(faded(d, p.trench_radius)).le(zero));
    let low = p.orogeny_rate.mul(S::ratio(45, 100));
    assert(zero.le(low));
    let f = faded(d, p.orogeny_radius);
    let arc = p.arc_rate.mul(bell(d, p.arc_offset, p.arc_sigma));
    assert(zero.le(arc));
    assert(zero.le(low.mul(f)) && zero.le(p.orogeny_rate.mul(f)));
    assert(zero.le(low.mul(f).add(arc)) && zero.le(p.orogeny_rate.mul(f).add(arc)));
    assert(zero.le(s.mul(low.mul(f).add(arc))) && zero.le(s.mul(p.orogeny_rate.mul(f).add(arc))));
}

/// Fixed-point signs behave, and bells are never negative.
pub proof fn fixed_signs_multiply()
    ensures
        signs_multiply::<Fixed>(),
        forall|x: Fixed, center: Fixed, sigma: Fixed|
            Fixed::of_int(0).le(#[trigger] bell(x, center, sigma)),
{
    let zero = Fixed::of_int(0);
    assert forall|a: Fixed, b: Fixed| zero.le(a) && zero.le(b) implies zero.le(
        #[trigger] a.mul(b),
    ) by {
        assert((a.raw * b.raw) / 65536 >= 0) by (nonlinear_arith)
            requires
                a.raw >= 0,
                b.raw >= 0,
        ;
    }
    assert forall|a: Fixed, b: Fixed| a.le(zero) && zero.le(b) implies (#[trigger] a.mul(b)).le(
        zero,
    ) by {
        assert((a.raw * b.raw) / 65536 <= 0) by (nonlinear_arith)
            requires
                a.raw <= 0,
                b.raw >= 0,
        ;
    }
    assert forall|x: Fixed, center: Fixed, sigma: Fixed| zero.le(
        #[trigger] bell(x, center, sigma),
    ) by {
        let t = x.sub(center).div(larger(sigma, Fixed::ratio(1, 1_000_000)));
        let y = Fixed::ratio(-1, 2).mul(t).mul(t);
        if y.raw >= -1024 * 65536 {
            let start = Fixed { raw: saturated(65536 + y.raw as int / 1024) };
            let last = squared_times(start, 9);
            assert(squared_times(start, 10) == last.mul(last));
            assert((last.raw * last.raw) / 65536 >= 0) by (nonlinear_arith);
        }
    }
}

/// The factor `k` on `s` comes out in front of the product of `a`, `s` and `b`.
pub open spec fn factor_comes_out<S: Scalar>(k: S, a: S, s: S, b: S) -> bool {
    &&& a.mul(k.mul(s)) == k.mul(a.mul(s))
    &&& k.mul(a.mul(s)).mul(b) == k.mul(a.mul(s).mul(b))
}

/// A factor on the strength of a boundary comes out in front of the products
/// that its effect is made of, and leaves nothing at nothing.
pub open spec fn strength_factors_out<S: Scalar>(
    p: TectonicParams<S>,
    b: Boundary<S>,
    k: S,
    plates: Seq<Plate<S>>,
    plate_age: Seq<S>,
    own: PlateId,
    d: S,
    texture: S,
) -> bool {
    let s = b.strength;
    let crust_a = plates[b.plate_a as int].crust_type;
    let crust_b = plates[b.plate_b as int].crust_type;
    let own_crust = plates[own as int].crust_type;
    &&& k.mul(S::of_int(0)) == S::of_int(0)
    &&& match b.kind {
        BoundaryKind::Convergent => if crust_a is Continental && crust_b is Continental {
            factor_comes_out(k, p.collision_rate, s, faded(d, p.collision_radius))
        } else if own == goes_under(b, plates, plate_age) {
            factor_comes_out(k, p.trench_rate.neg(), s, faded(d, p.trench_radius))
        } else {
            let rise = rise_above_subduction(p, own_crust, d);
            k.mul(s).mul(rise) == k.mul(s.mul(rise))
        },
        BoundaryKind::Divergent => {
            let rise = rise_along_a_rift(p, own_crust, d);
            let fresh = faded(d, p.new_crust_radius);
            &&& k.mul(s).mul(rise) == k.mul(s.mul(rise))
            &&& k.mul(s).mul(fresh) == k.mul(s.mul(fresh))
        },
        BoundaryKind::Transform => {
            let slide = p.transform_rate.mul(s);
            let fade = faded(d, p.transform_radius);
            &&& factor_comes_out(k, p.transform_rate, s, texture)
            &&& k.mul(slide.mul(texture)).mul(fade) == k.mul(slide.mul(texture).mul(fade))
        },
    }
}

/// Deformation is proportional to the strength of the boundary, wherever the
/// factor comes out in front of the products that this very effect is made of.
pub proof fn deformation_is_proportional_to_strength<S: Scalar>(
    p: TectonicParams<S>,
    b: Boundary<S>,
    k: S,
    plates: Seq<Plate<S>>,
    plate_age: Seq<S>,
    own: PlateId,
    d: S,
    texture: S,
)
    requires
        strength_factors_out(p, b, k, plates, plate_age, own, d, texture),
    ensures
        ({
            let scaled = Boundary { strength: k.mul(b.strength), ..b };
            let e = effect_of(p, b, plates, plate_age, own, d, texture);
            let f = effect_of(p, scaled, plates, plate_age, own, d, texture);
            f.delta == k.mul(e.delta) && f.new_crust == k.mul(e.new_crust)
        }),
{
    let scaled = Boundary { strength: k.mul(b.strength), ..b };
    assert(goes_under(scaled, plates, plate_age) == goes_under(b, plates, plate_age));
}

/// A whole fixed-point factor comes out in front of a product that comes out
/// even, as long as nothing leaves the range of the numbers.
pub proof fn fixed_factor_passes(n: int, a: Fixed, b: Fixed)
    requires
        0 <= n,
        (a.raw * b.raw) % 65536 == 0,
        n * 65536 <= i64::MAX,
        i64::MIN <= n * a.raw <= i64::MAX,
        i64::MIN <= n * b.raw <= i64::MAX,
        i64::MIN <= (a.raw * b.raw) / 65536 <= i64::MAX,
        i64::MIN <= n * ((a.raw * b.raw) / 65536) <= i64::MAX,
    ensures
        Fixed::of_int(n).mul(a).mul(b) == Fixed::of_int(n).mul(a.mul(b)),
        a.mul(Fixed::of_int(n).mul(b)) == Fixed::of_int(n).mul(a.mul(b)),
{
    let k = Fixed::of_int(n);
    let x = a.raw as int;
    let y = b.raw as int;
    let q = (x * y) / 65536;
    assert(k.raw == n * 65536);
    assert(x * y == 65536 * q);
    assert((n * 65536 * x) / 65536 == n * x && (n * 65536 * y) / 65536 == n * y && (n * 65536 * q)
        / 65536 == n * q) by (nonlinear_arith);
    assert((n * x * y) / 65536 == n * q && (x * (n * y)) / 65536 == n * q) by (nonlinear_arith)
        requires
            x * y == 65536 * q,
    ;
    assert(a.mul(b).raw == q);
    assert(k.mul(a).raw == n * x && k.mul(b).raw == n * y && k.mul(a.mul(b)).raw == n * q);
}

/// With fixed-point numbers the strength of a boundary may be taken any whole
/// number of times where the products of its effect come out even.
pub proof fn fixed_strength_factors_out(
    p: TectonicParams<Fixed>,
    b: Boundary<Fixed>,
    n: int,
    plates: Seq<Plate<Fixed>>,
    plate_age: Seq<Fixed>,
    own: PlateId,
    d: Fixed,
    texture: Fixed,
)
    requires
        0 <= n <= 0x7FFF_FFFF,
        ({
            let s = b.strength;
            let crust_a = plates[b.plate_a as int].crust_type;
            let crust_b = plates[b.plate_b as int].crust_type;
            let own_crust = plates[own as int].crust_type;
            match b.kind {
                BoundaryKind::Convergent => if crust_a is Continental && crust_b is Continental {
                    &&& stays_even(n, p.collision_rate, s)
                    &&& stays_even(n, p.collision_rate.mul(s), faded(d, p.collision_radius))
                } else if own == goes_under(b, plates, plate_age) {
                    &&& stays_even(n, p.trench_rate.neg(), s)
                    &&& stays_even(n, p.trench_rate.neg().mul(s), faded(d, p.trench_radius))
                } else {
                    stays_even(n, s, rise_above_subduction(p, own_crust, d))
                },
                BoundaryKind::Divergent => {
                    &&& stays_even(n, s, rise_along_a_rift(p, own_crust, d))
                    &&& stays_even(n, s, faded(d, p.new_crust_radius))
                },
                BoundaryKind::Transform => {
                    let slide = p.transform_rate.mul(s);
                    &&& stays_even(n, p.transform_rate, s)
                    &&& stays_even(n, slide, texture)
                    &&& stays_even(n, slide.mul(texture), faded(d, p.transform_radius))
                },
            }
        }),
    ensures
        strength_factors_out(p, b, Fixed::of_int(n), plates, plate_age, own, d, texture),
{
    let s = b.strength;
    let k = Fixed::of_int(n);
    let crust_a = plates[b.plate_a as int].crust_type;
    let crust_b = plates[b.plate_b as int].crust_type;
    let own_crust = plates[own as int].crust_type;
    assert(k.mul(Fixed::of_int(0)) == Fixed::of_int(0)) by {
        assert(k.raw * 0 == 0);
    }
    match b.kind {
        BoundaryKind::Convergent => {
            if crust_a is Continental && crust_b is Continental {
                fixed_factor_passes(n, p.collision_rate, s);
                fixed_factor_passes(n, p.collision_rate.mul(s), faded(d, p.collision_radius));
            } else if own == goes_under(b, plates, plate_age) {
                fixed_factor_passes(n, p.trench_rate.neg(), s);
                fixed_factor_passes(n, p.trench_rate.neg().mul(s), faded(d, p.trench_radius));
            } else {
                fixed_factor_passes(n, s, rise_above_subduction(p, own_crust, d));
            }
        },
        BoundaryKind::Divergent => {
            fixed_factor_passes(n, s, rise_along_a_rift(p, own_crust, d));
            fixed_factor_passes(n, s, faded(d, p.new_crust_radius));
        },
        BoundaryKind::Transform => {
            let slide = p.transform_rate.mul(s);
            fixed_factor_passes(n, p.transform_rate, s);
            fixed_factor_passes(n, slide, texture);
            fixed_factor_passes(n, slide.mul(texture), faded(d, p.transform_radius));
        },
    }
}

/// A fixed-point product comes out even, and taken `n` times stays in range.
pub open spec fn stays_even(n: int, a: Fixed, b: Fixed) -> bool {
    &&& (a.raw * b.raw) % 65536 == 0
    &&& i64::MIN <= n * a.raw <= i64::MAX
    &&& i64::MIN <= n * b.raw <= i64::MAX
    &&& i64::MIN <= (a.raw * b.raw) / 65536 <= i64::MAX
    &&& i64::MIN <= n * ((a.raw * b.raw) / 65536) <= i64::MAX
}

/// A fixed-point number taken `n` times.
pub open spec fn times_over(n: int, x: Fixed) -> Fixed {
    Fixed { raw: (n * x.raw) as i64 }
}

/// `n` times a product rounded down, against the product of `n` times as much.
proof fn lemma_scaled_product(n: int, a: int, b: int)
    requires
        1 <= n,
    ensures
        0 <= (n * a * b) / 65536 - n * ((a * b) / 65536) <= n - 1,
        n * a * b == n * (a * b),
        a * (n * b) == n * (a * b),
{
    let q = (a * b) / 65536;
    let r = (a * b) % 65536;
    assert(n * a * b == n * (a * b) && a * (n * b) == n * (a * b)) by (nonlinear_arith);
    assert(n * (a * b) == n * q * 65536 + n * r && 0 <= n * r <= n * 65536 - n) by (nonlinear_arith)
        requires
            a * b == 65536 * q + r,
            0 <= r < 65536,
            1 <= n,
    ;
    assert(n * q <= (n * (a * b)) / 65536 <= n * q + n - 1) by (nonlinear_arith)
        requires
            n * (a * b) == n * q * 65536 + n * r,
            0 <= n * r <= n * 65536 - n,
            1 <= n,
    ;
}

/// The same where the first factor is off already.
proof fn lemma_scaled_again(n: int, a: int, more: int, b: int, bound: int)
    requires
        1 <= n,
        0 <= bound,
        -bound * 65536 <= (more - n * a) * b <= bound * 65536,
    ensures
        -bound <= (more * b) / 65536 - n * ((a * b) / 65536) <= n - 1 + bound,
{
    lemma_scaled_product(n, a, b);
    let off = (more - n * a) * b;
    assert(more * b == n * (a * b) + off) by (nonlinear_arith)
        requires
            off == (more - n * a) * b,
    ;
    let x = n * (a * b);
    assert(x / 65536 - bound <= (x + off) / 65536 <= x / 65536 + bound);
}

/// With fixed-point numbers `n` times the strength deforms the ground `n` times
/// as much, to within what rounding takes away: six of the smallest steps for
/// each time, and the renewal of crust to within one.
pub proof fn fixed_deformation_is_nearly_proportional(
    p: TectonicParams<Fixed>,
    b: Boundary<Fixed>,
    n: int,
    plates: Seq<Plate<Fixed>>,
    plate_age: Seq<Fixed>,
    own: PlateId,
    d: Fixed,
    texture: Fixed,
)
    requires
        1 <= n,
        0 <= b.strength.raw,
        n * b.strength.raw <= 0x100_0000,
        n <= 0x100_0000,
        -0x100_0000 <= p.collision_rate.raw <= 0x100_0000,
        -0x100_0000 <= p.trench_rate.raw <= 0x100_0000,
        -0x100_0000 <= p.transform_rate.raw <= 0x100_0000,
        -0x4_0000 <= texture.raw <= 0x4_0000,
        Fixed::of_int(0).le(d),
        Fixed::of_int(0).lt(p.collision_radius.mul(Fixed::ratio(35, 100))),
        Fixed::of_int(0).lt(p.trench_radius.mul(Fixed::ratio(35, 100))),
        Fixed::of_int(0).lt(p.transform_radius.mul(Fixed::ratio(35, 100))),
        Fixed::of_int(0).lt(p.new_crust_radius.mul(Fixed::ratio(35, 100))),
        ({
            let own_crust = plates[own as int].crust_type;
            let up = rise_above_subduction(p, own_crust, d);
            let along = rise_along_a_rift(p, own_crust, d);
            &&& -0x100_0000_0000 <= up.raw <= 0x100_0000_0000
            &&& -0x100_0000_0000 <= along.raw <= 0x100_0000_0000
        }),
    ensures
        ({
            let scaled = Boundary { strength: times_over(n, b.strength), ..b };
            let e = effect_of(p, b, plates, plate_age, own, d, texture);
            let f = effect_of(p, scaled, plates, plate_age, own, d, texture);
            &&& -6 * n <= f.delta.raw - n * e.delta.raw <= 6 * n
            &&& -n <= f.new_crust.raw - n * e.new_crust.raw <= n
        }),
{
    let s = b.strength.raw as int;
    let more = times_over(n, b.strength);
    let scaled = Boundary { strength: more, ..b };
    assert(n * s >= 0) by (nonlinear_arith)
        requires
            1 <= n,
            0 <= s,
    ;
    assert(s <= n * s) by (nonlinear_arith)
        requires
            1 <= n,
            0 <= s,
    ;
    assert(goes_under(scaled, plates, plate_age) == goes_under(b, plates, plate_age));
    let own_crust = plates[own as int].crust_type;
    let crust_a = plates[b.plate_a as int].crust_type;
    let crust_b = plates[b.plate_b as int].crust_type;
    assert(n * 0 == 0) by (nonlinear_arith);
    match b.kind {
        BoundaryKind::Convergent => {
            if crust_a is Continental && crust_b is Continental {
                fixed_falloff_is_a_share(d, p.collision_radius);
                lemma_faded_product(n, p.collision_rate, b.strength, faded(d, p.collision_radius));
            } else if own == goes_under(b, plates, plate_age) {
                fixed_falloff_is_a_share(d, p.trench_radius);
                lemma_faded_product(
                    n,
                    p.trench_rate.neg(),
                    b.strength,
                    faded(d, p.trench_radius),
                );
            } else {
                lemma_direct_product(n, b.strength, rise_above_subduction(p, own_crust, d));
            }
        },
        BoundaryKind::Divergent => {
            fixed_falloff_is_a_share(d, p.new_crust_radius);
            lemma_direct_product(n, b.strength, rise_along_a_rift(p, own_crust, d));
            lemma_direct_product(n, b.strength, faded(d, p.new_crust_radius));
        },
        BoundaryKind::Transform => {
            let fade = faded(d, p.transform_radius);
            fixed_falloff_is_a_share(d, p.transform_radius);
            lemma_slid_product(n, p.transform_rate, b.strength, texture, fade);
        },
    }
}

/// A strength against a rate per unit of strength.
proof fn lemma_direct_product(n: int, s: Fixed, x: Fixed)
    requires
        1 <= n,
        0 <= s.raw <= n * s.raw <= 0x100_0000,
        -0x100_0000_0000 <= x.raw <= 0x100_0000_0000,
    ensures
        0 <= times_over(n, s).mul(x).raw - n * s.mul(x).raw <= n - 1,
{
    let a = s.raw as int;
    let b = x.raw as int;
    lemma_scaled_product(n, a, b);
    assert(-0x1_0000_0000_0000_0000 <= a * b <= 0x1_0000_0000_0000_0000 && -0x1_0000_0000_0000_0000
        <= (n * a) * b <= 0x1_0000_0000_0000_0000) by (nonlinear_arith)
        requires
            0 <= a <= n * a <= 0x100_0000,
            -0x100_0000_0000 <= b <= 0x100_0000_0000,
    ;
    assert((n * a) * b == n * a * b);
}

/// A rate times a strength, faded.
proof fn lemma_faded_product(n: int, rate: Fixed, s: Fixed, fade: Fixed)
    requires
        1 <= n,
        0 <= s.raw <= n * s.raw <= 0x100_0000,
        -0x100_0000 <= rate.raw <= 0x100_0000,
        0 <= fade.raw <= 65536,
    ensures
        ({
            let more = times_over(n, s);
            0 <= rate.mul(more).mul(fade).raw - n * rate.mul(s).mul(fade).raw + n <= 3 * n
        }),
{
    let more = times_over(n, s);
    let (first, second) = lemma_rated_product(n, rate, s);
    let f = fade.raw as int;
    assert(0 <= (second - n * first) * f <= n * 65536) by (nonlinear_arith)
        requires
            0 <= second - n * first <= n - 1,
            0 <= f <= 65536,
    ;
    lemma_scaled_again(n, first, second, f, n);
    assert(-0x1_0000_0000_0000_0000 <= first * f <= 0x1_0000_0000_0000_0000
        && -0x1_0000_0000_0000_0000 <= second * f <= 0x1_0000_0000_0000_0000) by (nonlinear_arith)
        requires
            -0x1_0000_0000_0000 <= first <= 0x1_0000_0000_0000,
            -0x1_0000_0000_0000 <= second <= 0x1_0000_0000_0000,
            0 <= f <= 65536,
    ;
}

/// A rate times a strength, and times the strength `n` times over.
proof fn lemma_rated_product(n: int, rate: Fixed, s: Fixed) -> (r: (int, int))
    requires
        1 <= n,
        0 <= s.raw <= n * s.raw <= 0x100_0000,
        -0x100_0000 <= rate.raw <= 0x100_0000,
    ensures
        rate.mul(s).raw == r.0,
        rate.mul(times_over(n, s)).raw == r.1,
        0 <= r.1 - n * r.0 <= n - 1,
        -0x1_0000_0000_0000 <= r.0 <= 0x1_0000_0000_0000,
        -0x1_0000_0000_0000 <= r.1 <= 0x1_0000_0000_0000,
{
    let a = rate.raw as int;
    let b = s.raw as int;
    lemma_scaled_product(n, a, b);
    assert(-0x1_0000_0000_0000 <= a * b <= 0x1_0000_0000_0000 && -0x1_0000_0000_0000 <= a * (n * b)
        <= 0x1_0000_0000_0000) by (nonlinear_arith)
        requires
            0 <= b <= n * b <= 0x100_0000,
            -0x100_0000 <= a <= 0x100_0000,
    ;
    ((a * b) / 65536, (a * (n * b)) / 65536)
}

/// A rate times a strength, textured and faded.
proof fn lemma_slid_product(n: int, rate: Fixed, s: Fixed, texture: Fixed, fade: Fixed)
    requires
        1 <= n,
        0 <= s.raw <= n * s.raw <= 0x100_0000,
        -0x100_0000 <= rate.raw <= 0x100_0000,
        -0x4_0000 <= texture.raw <= 0x4_0000,
        0 <= fade.raw <= 65536,
    ensures
        ({
            let more = times_over(n, s);
            let off = rate.mul(more).mul(texture).mul(fade).raw - n * rate.mul(s).mul(texture).mul(
                fade,
            ).raw;
            -6 * n <= off <= 6 * n
        }),
{
    let (first, second) = lemma_rated_product(n, rate, s);
    let t = texture.raw as int;
    let f = fade.raw as int;
    assert(-(4 * (n - 1)) * 65536 <= (second - n * first) * t <= 4 * (n - 1) * 65536)
        by (nonlinear_arith)
        requires
            0 <= second - n * first <= n - 1,
            -0x4_0000 <= t <= 0x4_0000,
    ;
    lemma_scaled_again(n, first, second, t, 4 * (n - 1));
    let u = (first * t) / 65536;
    let v = (second * t) / 65536;
    assert(-0x10_0000_0000_0000_0000 <= first * t <= 0x10_0000_0000_0000_0000
        && -0x10_0000_0000_0000_0000 <= second * t <= 0x10_0000_0000_0000_0000)
        by (nonlinear_arith)
        requires
            -0x1_0000_0000_0000 <= first <= 0x1_0000_0000_0000,
            -0x1_0000_0000_0000 <= second <= 0x1_0000_0000_0000,
            -0x4_0000 <= t <= 0x4_0000,
    ;
    assert(-(5 * (n - 1)) * 65536 <= (v - n * u) * f <= 5 * (n - 1) * 65536) by (nonlinear_arith)
        requires
            -(4 * (n - 1)) <= v - n * u <= 5 * (n - 1),
            0 <= f <= 65536,
            1 <= n,
    ;
    lemma_scaled_again(n, u, v, f, 5 * (n - 1));
    assert(-0x10_0000_0000_0000_0000 <= u * f <= 0x10_0000_0000_0000_0000
        && -0x10_0000_0000_0000_0000 <= v * f <= 0x10_0000_0000_0000_0000) by (nonlinear_arith)
        requires
            -0x10_0000_0000_0000 <= u <= 0x10_0000_0000_0000,
            -0x10_0000_0000_0000 <= v <= 0x10_0000_0000_0000,
            0 <= f <= 65536,
    ;
}

/// Spreading builds a ridge in the ocean and a rift on land. On oceanic crust
/// the axis rises where the ridge outdoes its basin, and the flanks past the
/// ridge sink. On continental crust the axis drops where the basin outdoes the
/// rest, and past the basin the shoulders rise.
pub proof fn spreading_builds_ridges_and_rifts(
    p: TectonicParams<Fixed>,
    b: Boundary<Fixed>,
    plates: Seq<Plate<Fixed>>,
    plate_age: Seq<Fixed>,
    own: PlateId,
    d: Fixed,
    texture: Fixed,
)
    requires
        b.kind is Divergent,
        Fixed::of_int(0).le(b.strength),
        Fixed::of_int(0).le(p.ridge_rate),
        Fixed::of_int(0).le(p.rift_rate),
        Fixed::of_int(0).le(p.shoulder_rate),
        Fixed::of_int(0).le(d),
        Fixed::of_int(0).lt(p.ridge_radius.mul(Fixed::ratio(35, 100))),
        Fixed::of_int(0).lt(p.rift_radius.mul(Fixed::ratio(35, 100))),
    ensures
        ({
            let zero = Fixed::of_int(0);
            let delta = effect_of(p, b, plates, plate_age, own, d, texture).delta;
            if plates[own as int].crust_type is Oceanic {
                &&& d == zero && p.rift_rate.mul(Fixed::ratio(1, 2)).le(
                    p.ridge_rate.mul(Fixed::ratio(14, 10)),
                ) ==> zero.le(delta)
                &&& p.ridge_radius.le(d) ==> delta.le(zero)
            } else {
                &&& d == zero && p.ridge_rate.mul(Fixed::ratio(1, 2)).sub(p.rift_rate).add(
                    p.shoulder_rate.mul(bell(zero, p.shoulder_offset, p.shoulder_sigma)),
                ).le(zero) ==> delta.le(zero)
                &&& p.ridge_radius.le(d) && p.rift_radius.le(d) ==> zero.le(delta)
            }
        }),
{
    let zero = Fixed::of_int(0);
    fixed_signs_multiply();
    fixed_falloff_is_a_share(d, p.ridge_radius);
    fixed_falloff_is_a_share(d, p.rift_radius);
    let axis = p.ridge_rate.mul(faded(d, p.ridge_radius));
    let basin = p.rift_rate.mul(faded(d, p.rift_radius));
    let bump = bell(d, p.shoulder_offset, p.shoulder_sigma);
    let shoulders = p.shoulder_rate.mul(bump);
    assert(zero.le(axis) && zero.le(basin));
    assert(zero.le(bump) && zero.le(shoulders));
    let half = Fixed::ratio(1, 2);
    let more = Fixed::ratio(14, 10);
    assert(half.raw == 32768 && more.raw == 91750);
    assert(zero.le(basin.mul(half)) && zero.le(axis.mul(more)) && zero.le(axis.mul(half)));
    assert forall|a: Fixed, b: Fixed| a.le(zero) && zero.le(b) implies (#[trigger] b.mul(a)).le(
        zero,
    ) by {
        assert((b.raw * a.raw) / 65536 <= 0) by (nonlinear_arith)
            requires
                a.raw <= 0,
                b.raw >= 0,
        ;
    }
    assert forall|a: Fixed| #[trigger] a.mul(zero) == zero && zero.mul(a) == zero by {
        assert(a.raw * 0 == 0 && 0 * a.raw == 0);
    }
    if d == zero {
        lemma_reach_is_wide(p.ridge_radius);
        lemma_reach_is_wide(p.rift_radius);
        fixed_falloff_starts_at_one(d, p.ridge_radius);
        fixed_falloff_starts_at_one(d, p.rift_radius);
        lemma_times_one(p.ridge_rate);
        lemma_times_one(p.rift_rate);
        assert(axis == p.ridge_rate && basin == p.rift_rate);
    }
    if p.ridge_radius.le(d) {
        assert(axis == zero);
    }
    if p.rift_radius.le(d) {
        assert(basin == zero);
    }
}

/// A radius with a share that is not lost to rounding has a taper.
proof fn lemma_reach_is_wide(radius: Fixed)
    requires
        Fixed::of_int(0).lt(radius.mul(Fixed::ratio(35, 100))),
    ensures
        Fixed::of_int(0).le(radius.mul(Fixed::ratio(7, 10))),
{
    assert(Fixed::ratio(7, 10).raw == 45875 && Fixed::ratio(35, 100).raw == 22937);
    assert(radius.raw > 0) by {
        assert(radius.raw <= 0 ==> (radius.raw * 22937) / 65536 <= 0);
    }
}

/// No rule reaches further than the radius that the distance field is built out
/// to.
pub proof fn no_rule_reaches_further<S: Scalar>(p: TectonicParams<S>)
    requires
        linearly_ordered::<S>(),
        p.collision_radius.le(p.collision_radius),
        p.orogeny_radius.le(p.orogeny_radius),
        p.trench_radius.le(p.trench_radius),
        p.rift_radius.le(p.rift_radius),
        p.transform_radius.le(p.transform_radius),
        p.ridge_radius.le(p.ridge_radius),
        p.new_crust_radius.le(p.new_crust_radius),
        arc_reach(p).le(arc_reach(p)),
        shoulder_reach(p).le(shoulder_reach(p)),
    ensures
        p.collision_radius.le(reach_of(p)),
        p.orogeny_radius.le(reach_of(p)),
        p.trench_radius.le(reach_of(p)),
        p.rift_radius.le(reach_of(p)),
        p.transform_radius.le(reach_of(p)),
        p.ridge_radius.le(reach_of(p)),
        p.new_crust_radius.le(reach_of(p)),
        arc_reach(p).le(reach_of(p)),
        shoulder_reach(p).le(reach_of(p)),
{
    let belt = larger(p.collision_radius, p.orogeny_radius);
    lemma_larger(p.collision_radius, p.orogeny_radius);
    let uplift = larger(belt, p.trench_radius);
    lemma_larger(belt, p.trench_radius);
    let axis = larger(p.rift_radius, p.ridge_radius);
    lemma_larger(p.rift_radius, p.ridge_radius);
    let rift = larger(axis, p.new_crust_radius);
    lemma_larger(axis, p.new_crust_radius);
    let r1 = larger(uplift, arc_reach(p));
    lemma_larger(uplift, arc_reach(p));
    let r2 = larger(r1, rift);
    lemma_larger(r1, rift);
    let r3 = larger(r2, shoulder_reach(p));
    lemma_larger(r2, shoulder_reach(p));
    lemma_larger(r3, p.transform_radius);
    let all = reach_of(p);
    assert(all == larger(r3, p.transform_radius));
    assert(r3.le(all));
    assert(r2.le(all));
    assert(r1.le(all));
    assert(uplift.le(all));
    assert(belt.le(all));
    assert(rift.le(all));
    assert(axis.le(all));
}

/// Plate interiors stay untouched: away from all boundaries a cell only gets
/// older, and moves only where it is sea floor that is still sinking.
pub proof fn plate_interiors_are_not_deformed<S: Scalar>(
    p: TectonicParams<S>,
    plates: Seq<Plate<S>>,
    boundaries: Seq<Boundary<S>>,
    plate_age: Seq<S>,
    own: PlateId,
    texture: S,
    elevation: S,
    age: S,
    dt: S,
)
    ensures
        ({
            let (e, a) = deformed(
                p,
                plates,
                boundaries,
                None,
                plate_age,
                own,
                texture,
                elevation,
                age,
                dt,
            );
            &&& a == age.add(dt)
            &&& !elevation.lt(S::of_int(0)) || !p.age_subsidence_max.lt(elevation) ==> e
                == elevation
        }),
{
}

/// Oceanic crust always goes under continental crust, however old either is.
pub proof fn oceanic_crust_goes_under_continental<S: Scalar>(
    b: Boundary<S>,
    plates: Seq<Plate<S>>,
    plate_age: Seq<S>,
)
    requires
        !same_crust(b, plates),
    ensures
        plates[goes_under(b, plates, plate_age) as int].crust_type is Oceanic,
        goes_under(b, plates, plate_age) == b.plate_a || goes_under(b, plates, plate_age)
            == b.plate_b,
{
}

/// Of two plates with the same crust the older one goes under.
pub proof fn older_plate_goes_under<S: Scalar>(
    b: Boundary<S>,
    plates: Seq<Plate<S>>,
    plate_age: Seq<S>,
)
    requires
        same_crust(b, plates),
        linearly_ordered::<S>(),
        plate_age[b.plate_a as int].le(plate_age[b.plate_a as int]),
        plate_age[b.plate_b as int].le(plate_age[b.plate_b as int]),
    ensures
        plate_age[b.plate_b as int].lt(plate_age[b.plate_a as int]) ==> goes_under(
            b,
            plates,
            plate_age,
        ) == b.plate_a,
        plate_age[b.plate_a as int].lt(plate_age[b.plate_b as int]) ==> goes_under(
            b,
            plates,
            plate_age,
        ) == b.plate_b,
{
}

proof fn lemma_ages_gathered(
    plate_id: Seq<PlateId>,
    crust_age: Seq<Fixed>,
    id: int,
    lo: int,
    hi: int,
    n: nat,
)
    requires
        n <= plate_id.len() <= u32::MAX,
        plate_id.len() == crust_age.len(),
        i64::MIN <= lo <= hi <= i64::MAX,
        forall|c: int|
            0 <= c < plate_id.len() && plate_id[c] == id ==> lo <= (#[trigger] crust_age[c]).raw
                <= hi,
    ensures
        ({
            let held = cells_held(plate_id, id, n) as int;
            &&& held <= n
            &&& lo * held <= age_gathered(plate_id, crust_age, id, n) <= hi * held
        }),
    decreases n,
{
    if n > 0 {
        lemma_ages_gathered(plate_id, crust_age, id, lo, hi, (n - 1) as nat);
        let held = cells_held(plate_id, id, (n - 1) as nat) as int;
        let before = age_gathered(plate_id, crust_age, id, (n - 1) as nat);
        let age = crust_age[n - 1].raw as int;
        assert(lo * (held + 1) == lo * held + lo && hi * (held + 1) == hi * held + hi)
            by (nonlinear_arith);
        assert(-0x8000_0000_0000_0000 * 0x1_0000_0000 <= lo * held && hi * held
            <= 0x8000_0000_0000_0000 * 0x1_0000_0000) by (nonlinear_arith)
            requires
                -0x8000_0000_0000_0000 <= lo <= hi <= 0x7fff_ffff_ffff_ffff,
                0 <= held <= 0xffff_ffff,
        ;
    } else {
        assert(lo * 0 == 0 && hi * 0 == 0) by (nonlinear_arith);
    }
}

/// The mean age of a plate lies within the range of the ages of its cells.
pub proof fn mean_age_lies_between_the_ages(
    plate_id: Seq<PlateId>,
    crust_age: Seq<Fixed>,
    id: int,
    lo: Fixed,
    hi: Fixed,
)
    requires
        plate_id.len() <= u32::MAX,
        plate_id.len() == crust_age.len(),
        cells_held(plate_id, id, plate_id.len()) > 0,
        lo.le(hi),
        forall|c: int|
            0 <= c < plate_id.len() && plate_id[c] == id ==> lo.le(#[trigger] crust_age[c])
                && crust_age[c].le(hi),
    ensures
        lo.le(mean_age(plate_id, crust_age, id)),
        mean_age(plate_id, crust_age, id).le(hi),
{
    let n = plate_id.len();
    let l = lo.raw as int;
    let u = hi.raw as int;
    lemma_ages_gathered(plate_id, crust_age, id, l, u, n);
    let held = cells_held(plate_id, id, n) as int;
    let sum = age_gathered(plate_id, crust_age, id, n) as int;
    assert(l <= sum / held <= u) by (nonlinear_arith)
        requires
            held > 0,
            l * held <= sum <= u * held,
    ;
    assert(-0x8000_0000_0000_0000 * 0x1_0000_0000 <= l * held && u * held <= 0x8000_0000_0000_0000
        * 0x1_0000_0000) by (nonlinear_arith)
        requires
            -0x8000_0000_0000_0000 <= l <= u <= 0x7fff_ffff_ffff_ffff,
            0 <= held <= 0xffff_ffff,
    ;
}

/// Both sides of a boundary agree on which plate goes under.
pub proof fn both_sides_agree<S: Scalar>(
    b: Boundary<S>,
    other: Boundary<S>,
    plates: Seq<Plate<S>>,
    plate_age: Seq<S>,
)
    requires
        other.plate_a == b.plate_b,
        other.plate_b == b.plate_a,
        linearly_ordered::<S>(),
        plate_age[b.plate_a as int].le(plate_age[b.plate_a as int]),
        plate_age[b.plate_b as int].le(plate_age[b.plate_b as int]),
    ensures
        goes_under(b, plates, plate_age) == goes_under(other, plates, plate_age),
{
}

proof fn lemma_cone_row_elsewhere<S: Scalar>(
    w: int,
    elevation: Seq<S>,
    x0: int,
    y: int,
    dy: int,
    r: int,
    radius: S,
    height: S,
    k: nat,
    c: int,
)
    requires
        0 < w,
        0 <= y,
        0 <= c < elevation.len(),
        (y + 1) * w <= elevation.len(),
        forall|dx: int| -r <= dx < k - r ==> c != #[trigger] cell_index(w, (x0 + dx) % w, y),
    ensures
        cone_row(w, elevation, x0, y, dy, r, radius, height, k).len() == elevation.len(),
        cone_row(w, elevation, x0, y, dy, r, radius, height, k)[c] == elevation[c],
    decreases k,
{
    if k > 0 {
        lemma_cone_row_elsewhere(
            w,
            elevation,
            x0,
            y,
            dy,
            r,
            radius,
            height,
            (k - 1) as nat,
            c,
        );
        let d = cell_index(w, (x0 + (k - 1 - r)) % w, y);
        assert(c != d);
        assert(0 <= d < elevation.len()) by (nonlinear_arith)
            requires
                d == y * w + (x0 + (k - 1 - r)) % w,
                0 <= y,
                0 < w,
                (y + 1) * w <= elevation.len(),
        ;
    }
}

/// A cell lies within a square of `r` cells around a point, on the cylinder.
pub open spec fn within_square(w: int, x0: int, y0: int, r: int, c: int) -> bool {
    exists|dx: int, dy: int|
        -r <= dx <= r && -r <= dy <= r && c == #[trigger] cell_index(w, (x0 + dx) % w, y0 + dy)
}

proof fn lemma_cone_rows_elsewhere<S: Scalar>(
    w: int,
    h: int,
    elevation: Seq<S>,
    x0: int,
    y0: int,
    r: int,
    radius: S,
    height: S,
    k: nat,
    c: int,
)
    requires
        0 < w,
        0 <= h,
        0 <= r,
        elevation.len() == w * h,
        0 <= c < w * h,
        k <= 2 * r + 1,
        !within_square(w, x0, y0, r, c),
    ensures
        cone_rows(w, h, elevation, x0, y0, r, radius, height, k).len() == elevation.len(),
        cone_rows(w, h, elevation, x0, y0, r, radius, height, k)[c] == elevation[c],
    decreases k,
{
    if k > 0 {
        lemma_cone_rows_elsewhere(w, h, elevation, x0, y0, r, radius, height, (k - 1) as nat, c);
        let before = cone_rows(w, h, elevation, x0, y0, r, radius, height, (k - 1) as nat);
        let dy = k - 1 - r;
        let y = y0 + dy;
        if 0 <= y < h {
            assert((y + 1) * w <= w * h) by (nonlinear_arith)
                requires
                    0 <= y < h,
                    0 < w,
            ;
            lemma_cone_row_elsewhere(
                w,
                before,
                x0,
                y,
                dy,
                r,
                radius,
                height,
                (2 * r + 1) as nat,
                c,
            );
        }
    }
}

/// A boundary erupts in a step.
pub open spec fn erupts<S: Scalar>(
    p: TectonicParams<S>,
    seed: u64,
    w: int,
    plates: Seq<Plate<S>>,
    plate_age: Seq<S>,
    step: i64,
    dt: S,
) -> spec_fn(Boundary<S>) -> bool {
    |b: Boundary<S>| eruption_of(p, seed, w, b, plates, plate_age, step, dt) is Some
}

proof fn lemma_eruptions_counted<S: Scalar>(
    p: TectonicParams<S>,
    seed: u64,
    w: int,
    h: int,
    elevation: Seq<S>,
    boundaries: Seq<Boundary<S>>,
    plates: Seq<Plate<S>>,
    plate_age: Seq<S>,
    step: i64,
    dt: S,
    k: nat,
)
    requires
        k <= boundaries.len(),
    ensures
        erupted_before(
            p,
            seed,
            w,
            h,
            elevation,
            boundaries,
            plates,
            plate_age,
            step,
            dt,
            k,
        ).1 == boundaries.take(k as int).to_multiset().filter(
            erupts(p, seed, w, plates, plate_age, step, dt),
        ).len(),
    decreases k,
{
    broadcast use vstd::multiset::group_multiset_axioms;

    let f = erupts(p, seed, w, plates, plate_age, step, dt);
    let now = boundaries.take(k as int).to_multiset();
    if k == 0 {
        boundaries.take(0).to_multiset_ensures();
        assert(now.filter(f) =~= Multiset::empty()) by {
            assert forall|b: Boundary<S>| now.filter(f).count(b) == 0 by {
                assert(now.count(b) <= now.len());
            }
        }
    } else {
        lemma_eruptions_counted(
            p,
            seed,
            w,
            h,
            elevation,
            boundaries,
            plates,
            plate_age,
            step,
            dt,
            (k - 1) as nat,
        );
        let b = boundaries[k - 1];
        let shorter = boundaries.take(k - 1);
        let before = shorter.to_multiset();
        shorter.to_multiset_ensures();
        assert(boundaries.take(k as int) =~= shorter.push(b));
        assert(now =~= before.insert(b));
        if f(b) {
            assert(now.filter(f) =~= before.filter(f).insert(b));
        } else {
            assert(now.filter(f) =~= before.filter(f));
        }
    }
}

/// Volcanism is independent of the order in which boundaries happen to be
/// visited: the same boundaries in another order erupt as often.
pub proof fn eruptions_do_not_depend_on_the_order<S: Scalar>(
    p: TectonicParams<S>,
    seed: u64,
    w: int,
    h: int,
    elevation: Seq<S>,
    boundaries: Seq<Boundary<S>>,
    reordered: Seq<Boundary<S>>,
    plates: Seq<Plate<S>>,
    plate_age: Seq<S>,
    step: i64,
    dt: S,
)
    requires
        boundaries.to_multiset() == reordered.to_multiset(),
    ensures
        erupted_before(
            p,
            seed,
            w,
            h,
            elevation,
            boundaries,
            plates,
            plate_age,
            step,
            dt,
            boundaries.len(),
        ).1 == erupted_before(
            p,
            seed,
            w,
            h,
            elevation,
            reordered,
            plates,
            plate_age,
            step,
            dt,
            reordered.len(),
        ).1,
{
    let n = boundaries.len();
    let m = reordered.len();
    lemma_eruptions_counted(p, seed, w, h, elevation, boundaries, plates, plate_age, step, dt, n);
    lemma_eruptions_counted(p, seed, w, h, elevation, reordered, plates, plate_age, step, dt, m);
    assert(boundaries.take(n as int) =~= boundaries);
    assert(reordered.take(m as int) =~= reordered);
}

/// Volcanoes stay near their boundary: a cone changes no cell that is further
/// from its centre than its radius, rounded up, in either direction.
pub proof fn volcanoes_stay_local<S: Scalar>(
    w: int,
    h: int,
    elevation: Seq<S>,
    cx: S,
    cy: S,
    radius: S,
    height: S,
    c: int,
)
    requires
        0 < w,
        0 <= h,
        elevation.len() == w * h,
        0 <= c < w * h,
        !within_square(w, cx.round() as int, cy.round() as int, radius.ceil() as int, c),
    ensures
        with_cone(w, h, elevation, cx, cy, radius, height)[c] == elevation[c],
{
    let r = radius.ceil() as int;
    if r >= 0 {
        lemma_cone_rows_elsewhere(
            w,
            h,
            elevation,
            cx.round() as int,
            cy.round() as int,
            r,
            radius,
            height,
            (2 * r + 1) as nat,
            c,
        );
    }
}

} // verus!
