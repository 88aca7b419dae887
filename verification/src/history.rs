//! What holds of a world at its start and from step to step.

use crate::boundary::{affecting, detected, Boundary, BoundaryKind};
use crate::curves::lemma_product;
use crate::erosion::{
    crept, cut_at, lowered, transport_start, transported, ErosionBudget,
};
use crate::fixed::Fixed;
use crate::flood::flooded;
use crate::genesis::{
    coast_height, continents_start_as_land, crust_starts_at_all_ages, is_moderate_noise,
    is_moderate_start,
};
use crate::hydrology::{
    accumulated, lakes_stand_at_the_flood_level, rain_from_above, receiver_of,
};
use crate::plate::{moved, CrustField, Plate};
use crate::scalar::Scalar;
use crate::simulation::{
    after_step, after_tectonics, bare_snapshot, budget_of_step, describes, first_snapshot,
    highest_of, kind_count, land_count, lowest_of, plate_ages, recipes_for, river_cut,
    setting_from, totals_of_step, water_runs, with_boundaries, with_deformation, with_erosion,
    with_plates_moved, with_water, Fields, Setting, SimulationParams, Snapshot, StepStats,
};
use crate::tectonics::{deformed, erupted_before, eruption_of, mean_age, reach_of};
use crate::volcanoes::counted_volcanoes_have_erupted;
use crate::voronoi::owner_of;
use crate::world::is_grid;
use vstd::prelude::*;

verus! {

// --- what fits together ----------------------------------------------------
/// A world fits together: its cells belong to the plates as they now stand, its
/// boundaries are those between the cells as they now belong, and every cell is
/// affected by the nearest of these boundaries that any rule reaches from.
pub open spec fn fits_together<S: Scalar>(g: Setting<S>, s: Snapshot<S>) -> bool {
    &&& s.plate_id.len() == g.cells()
    &&& s.nearest.len() == g.cells()
    &&& forall|c: int|
        0 <= c < g.cells() ==> #[trigger] s.plate_id[c] == owner_of(
            g.width(),
            s.plates,
            g.dx,
            g.dy,
            c,
        )
    &&& s.boundaries == detected(
        g.width(),
        g.height(),
        s.plate_id,
        s.plates,
        g.params.transform_threshold,
    )
    &&& forall|c: int|
        0 <= c < g.cells() ==> #[trigger] s.nearest[c] == affecting(
            g.width(),
            g.height(),
            s.boundaries,
            reach_of(g.params.tectonics),
            c,
        )
}

/// Every step leaves a world that fits together, whatever it was before: the
/// plates have moved first, each by itself, and all else follows from where they
/// now are.
pub proof fn steps_leave_the_world_consistent<S: Scalar>(g: Setting<S>, s: Snapshot<S>, step: u64)
    ensures
        fits_together(g, after_step(g, s, step)),
        after_step(g, s, step).plates.len() == s.plates.len(),
        forall|i: int|
            0 <= i < s.plates.len() ==> #[trigger] after_step(g, s, step).plates[i] == moved(
                g.width(),
                g.height(),
                s.plates[i],
                g.params.dt,
            ),
{
}

/// A world fits together before its first step, with its plates where they were
/// made.
pub proof fn worlds_start_consistent<S: Scalar>(
    g: Setting<S>,
    crust: CrustField<S>,
    plates: Seq<Plate<S>>,
    fields: Fields<S>,
)
    ensures
        fits_together(g, first_snapshot(g, crust, plates, fields)),
        first_snapshot(g, crust, plates, fields).plates == plates,
        first_snapshot(g, crust, plates, fields).crust_age == bare_snapshot(
            g,
            crust,
            plates,
            fields,
        ).crust_age,
{
}

/// The noise under a world decides how it starts: without texture land stands
/// where the crust, with its rough shape, lies above the coast, and sea floor where
/// it lies below; the crust is as old as the age noise says; nothing is wet yet.
pub proof fn worlds_start_from_their_noise(
    p: SimulationParams<Fixed>,
    crust: CrustField<Fixed>,
    plates: Seq<Plate<Fixed>>,
    fields: Fields<Fixed>,
    c: int,
)
    requires
        fields.wf(p.width * p.height),
        0 <= c < p.width * p.height,
        is_moderate_start(p, crust),
        p.terrain_noise.raw == 0,
        is_moderate_noise(fields.crust@[c]),
        is_moderate_noise(fields.shape@[c]),
        0 <= p.initial_age_spread.raw <= 0x1_0000_0000,
    ensures
        ({
            let s = bare_snapshot(setting_from(p, fields), crust, plates, fields);
            let coast = coast_height(p, crust, fields.crust@[c], fields.shape@[c]);
            &&& coast >= 6553 ==> s.elevation[c] == p.continental_elevation
            &&& coast <= -2622 ==> s.elevation[c] == p.oceanic_elevation
            &&& p.oceanic_elevation.raw <= s.elevation[c].raw <= p.continental_elevation.raw
            &&& fields.age@[c].raw >= 65536 ==> s.crust_age[c] == p.initial_age_spread
            &&& fields.age@[c].raw <= -65536 ==> s.crust_age[c].raw == 0
            &&& s.rainfall[c].raw == 0 && s.water[c].raw == 0 && s.flow[c].raw == 0
            &&& s.sediment[c].raw == 0
            &&& s.receiver[c] == -1
        }),
{
    let a = fields.crust@[c];
    let b = fields.shape@[c];
    continents_start_as_land(p, crust, a, b, a, b, fields.relief@[c]);
    crust_starts_at_all_ages(p, fields.age@[c], fields.age@[c]);
}

// --- from step to step -----------------------------------------------------
/// Crust that no boundary reaches only ages, by the time that passes, whether the
/// step brings water or not.
pub proof fn quiet_crust_only_ages(g: Setting<Fixed>, s: Snapshot<Fixed>, step: u64, c: int)
    requires
        0 <= c < g.cells(),
        after_step(g, s, step).nearest[c] is None,
        i64::MIN <= s.crust_age[c].raw + g.params.dt.raw <= i64::MAX,
    ensures
        after_step(g, s, step).crust_age[c].raw == s.crust_age[c].raw + g.params.dt.raw,
{
}

/// A world without boundaries is quiet: no volcano erupts, and on a step without
/// water land stays as high as it is.
pub proof fn worlds_without_boundaries_are_quiet(
    g: Setting<Fixed>,
    s: Snapshot<Fixed>,
    step: u64,
    c: int,
)
    requires
        0 <= c < g.cells(),
        after_step(g, s, step).boundaries.len() == 0,
        after_step(g, s, step).nearest[c] is None,
    ensures
        after_tectonics(g, s, step).1 == 0,
        0 <= s.elevation[c].raw && !water_runs(g, step as int) ==> after_step(
            g,
            s,
            step,
        ).elevation[c] == s.elevation[c],
{
}

/// Water runs on every interval's last step, and on no other: of as many steps in
/// a row as the interval is long exactly one brings water, and with an interval of
/// zero none does.
pub proof fn water_runs_once_an_interval<S: Scalar>(g: Setting<S>, step: int)
    requires
        0 <= step,
    ensures
        g.params.erosion_interval == 0 ==> !water_runs(g, step),
        g.params.erosion_interval > 0 ==> exists|k: int|
            0 <= k < g.params.erosion_interval && #[trigger] water_runs(g, step + k),
        forall|i: int, j: int|
            step <= i < j < step + g.params.erosion_interval && #[trigger] water_runs(g, i)
                ==> !#[trigger] water_runs(g, j),
        water_runs(g, 0) == (g.params.erosion_interval > 0),
{
    let n = g.params.erosion_interval as int;
    if n > 0 {
        let k = (-step) % n;
        assert(0 <= k < n);
        let q = (-step) / n;
        vstd::arithmetic::div_mod::lemma_fundamental_div_mod(-step, n);
        assert(step + k == n * (-q) + 0) by (nonlinear_arith)
            requires
                -step == n * q + k,
        ;
        assert(n * (-q) == (-q) * n) by (nonlinear_arith);
        vstd::arithmetic::div_mod::lemma_fundamental_div_mod_converse(step + k, n, -q, 0);
        assert(water_runs(g, step + k));
        assert forall|i: int, j: int|
            step <= i < j < step + n && #[trigger] water_runs(g, i) implies !#[trigger] water_runs(
            g,
            j,
        ) by {
            if water_runs(g, j) {
                let a = i / n;
                let b = j / n;
                vstd::arithmetic::div_mod::lemma_fundamental_div_mod(i, n);
                vstd::arithmetic::div_mod::lemma_fundamental_div_mod(j, n);
                assert(0 < n * (b - a) < n) by (nonlinear_arith)
                    requires
                        i == n * a,
                        j == n * b,
                        i < j < i + n,
                ;
                assert(false) by (nonlinear_arith)
                    requires
                        0 < n * (b - a) < n,
                        n > 0,
                ;
            }
        }
        vstd::arithmetic::div_mod::lemma_small_mod(0, n as nat);
    }
}

/// Where there is sea before the water runs, the water stays: no cell of it drains
/// anywhere or holds a lake.
pub proof fn the_sea_drains_nowhere(g: Setting<Fixed>, s: Snapshot<Fixed>, step: u64, c: int)
    requires
        0 <= c < g.cells(),
        water_runs(g, step as int),
        after_tectonics(g, s, step).0.elevation[c].raw <= g.params.sea_level.raw,
    ensures
        after_step(g, s, step).receiver[c] == -1,
        after_step(g, s, step).water[c].raw == 0,
{
}

// --- statistics ------------------------------------------------------------
/// The reported extremes are met: some cell is as low as the lowest elevation, and
/// some cell as high as the highest.
pub proof fn reported_extremes_are_met(elevation: Seq<Fixed>, n: nat) -> (at: (int, int))
    requires
        0 < n <= elevation.len(),
    ensures
        0 <= at.0 < n && elevation[at.0] == lowest_of(elevation, n),
        0 <= at.1 < n && elevation[at.1] == highest_of(elevation, n),
        forall|c: int|
            0 <= c < n ==> elevation[at.0].raw <= #[trigger] elevation[c].raw
                <= elevation[at.1].raw,
    decreases n,
{
    let last = n - 1;
    if n == 1 {
        assert(lowest_of(elevation, 0) == Fixed::top());
        assert(highest_of(elevation, 0) == Fixed::bottom());
        (0, 0)
    } else {
        let (lo, hi) = reported_extremes_are_met(elevation, (n - 1) as nat);
        (
            if elevation[last].raw <= elevation[lo].raw {
                last
            } else {
                lo
            },
            if elevation[last].raw >= elevation[hi].raw {
                last
            } else {
                hi
            },
        )
    }
}

/// The land that is counted is the cells above the sea.
pub proof fn counted_land_is_above_the_sea(elevation: Seq<Fixed>, sea: Fixed)
    ensures
        land_count(elevation, sea, elevation.len()) == elevation.filter(
            |e: Fixed| sea.raw < e.raw,
        ).len(),
    decreases elevation.len(),
{
    reveal(Seq::filter);
    if elevation.len() > 0 {
        counted_land_is_above_the_sea(elevation.drop_last(), sea);
        lemma_land_of_fewer(elevation, sea, (elevation.len() - 1) as nat);
    }
}

proof fn lemma_land_of_fewer(elevation: Seq<Fixed>, sea: Fixed, n: nat)
    requires
        n < elevation.len(),
    ensures
        land_count(elevation, sea, n) == land_count(elevation.drop_last(), sea, n),
    decreases n,
{
    if n > 0 {
        lemma_land_of_fewer(elevation, sea, (n - 1) as nat);
    }
}

/// The boundaries that are counted under a kind are those of the kind.
pub proof fn counted_boundaries_are_of_their_kind(bs: Seq<Boundary<Fixed>>, kind: BoundaryKind)
    ensures
        kind_count(bs, kind, bs.len()) == bs.filter(|b: Boundary<Fixed>| b.kind == kind).len(),
    decreases bs.len(),
{
    reveal(Seq::filter);
    if bs.len() > 0 {
        counted_boundaries_are_of_their_kind(bs.drop_last(), kind);
        lemma_kinds_of_fewer(bs, kind, (bs.len() - 1) as nat);
    }
}

proof fn lemma_kinds_of_fewer(bs: Seq<Boundary<Fixed>>, kind: BoundaryKind, n: nat)
    requires
        n < bs.len(),
    ensures
        kind_count(bs, kind, n) == kind_count(bs.drop_last(), kind, n),
    decreases n,
{
    if n > 0 {
        lemma_kinds_of_fewer(bs, kind, (n - 1) as nat);
    }
}

/// The land fraction is the share of the cells above the sea.
pub proof fn the_land_fraction_is_the_share_of_land(
    stats: StepStats<Fixed>,
    g: Setting<Fixed>,
    s: Snapshot<Fixed>,
    step: int,
    volcanoes: int,
    budget: ErosionBudget<Fixed>,
)
    requires
        describes(stats, g, s, step, volcanoes, budget),
        0 < g.cells() <= 0x3FFF_FFFF,
        s.elevation.len() == g.cells(),
    ensures
        ({
            let sea = g.params.sea_level;
            let land = s.elevation.filter(|e: Fixed| sea.raw < e.raw).len();
            let share = stats.land_fraction.raw;
            &&& share * g.cells() <= land * 65536 < share * g.cells() + g.cells()
            &&& 0 <= share <= 65536
        }),
{
    let sea = g.params.sea_level;
    counted_land_is_above_the_sea(s.elevation, sea);
    let land = land_count(s.elevation, sea, g.cells()) as int;
    lemma_land_fits(s.elevation, sea, g.cells());
    let n = g.cells() as int;
    let q = (land * 65536) / n;
    assert(((land * 65536) * 65536) / (n * 65536) == q && q * n <= land * 65536 < q * n + n && 0
        <= q <= 65536) by (nonlinear_arith)
        requires
            q == (land * 65536) / n,
            0 < n,
            0 <= land <= n,
    ;
    assert(Fixed::of_int(land).raw == land * 65536 && Fixed::of_int(n).raw == n * 65536);
}

proof fn lemma_land_fits(elevation: Seq<Fixed>, sea: Fixed, n: nat)
    ensures
        land_count(elevation, sea, n) <= n,
    decreases n,
{
    if n > 0 {
        lemma_land_fits(elevation, sea, (n - 1) as nat);
    }
}

/// The totals of a run are the budgets of its steps, added up.
pub proof fn totals_add_up(
    g: Setting<Fixed>,
    s: Snapshot<Fixed>,
    totals: ErosionBudget<Fixed>,
    step: u64,
)
    requires
        ({
            let b = budget_of_step(g, s, step);
            &&& i128::MIN <= totals.eroded + b.eroded <= i128::MAX
            &&& i128::MIN <= totals.deposited + b.deposited <= i128::MAX
            &&& i128::MIN <= totals.exported + b.exported <= i128::MAX
        }),
    ensures
        ({
            let b = budget_of_step(g, s, step);
            let after = totals_of_step(g, s, totals, step);
            &&& after.eroded == totals.eroded + b.eroded
            &&& after.deposited == totals.deposited + b.deposited
            &&& after.exported == totals.exported + b.exported
            &&& !water_runs(g, step as int) ==> b.eroded == 0 && b.deposited == 0 && b.exported
                == 0
        }),
{
}

// --- the noise under it ----------------------------------------------------
/// Every field of a world has noise of its own: no two are made from the same seed.
pub proof fn fields_have_their_own_noise(p: SimulationParams<Fixed>)
    ensures
        ({
            let r = recipes_for(p);
            &&& r.crust.seed != r.shape.seed && r.crust.seed != r.relief.seed
            &&& r.crust.seed != r.age.seed && r.crust.seed != r.warp_x.seed
            &&& r.crust.seed != r.warp_y.seed && r.crust.seed != r.stress.seed
            &&& r.crust.seed != r.rain.seed && r.shape.seed != r.relief.seed
            &&& r.shape.seed != r.age.seed && r.shape.seed != r.warp_x.seed
            &&& r.shape.seed != r.warp_y.seed && r.shape.seed != r.stress.seed
            &&& r.shape.seed != r.rain.seed && r.relief.seed != r.age.seed
            &&& r.relief.seed != r.warp_x.seed && r.relief.seed != r.warp_y.seed
            &&& r.relief.seed != r.stress.seed && r.relief.seed != r.rain.seed
            &&& r.age.seed != r.warp_x.seed && r.age.seed != r.warp_y.seed
            &&& r.age.seed != r.stress.seed && r.age.seed != r.rain.seed
            &&& r.warp_x.seed != r.warp_y.seed && r.warp_x.seed != r.stress.seed
            &&& r.warp_x.seed != r.rain.seed && r.warp_y.seed != r.stress.seed
            &&& r.warp_y.seed != r.rain.seed && r.stress.seed != r.rain.seed
        }),
{
    let s = p.seed as u32;
    assert(forall|a: u32, b: u32| #![trigger s ^ a, s ^ b] a != b ==> s ^ a != s ^ b)
        by (bit_vector);
}

/// How wide the features of a world are: those of its shape as wide as asked for,
/// those of its relief a little over a fifth of that, both warps alike, and those of
/// the crust wider than those of its age, which are wider than the broken rock of
/// transform zones.
pub proof fn features_are_as_wide_as_asked(p: SimulationParams<Fixed>)
    requires
        0 <= p.terrain_feature_size.raw <= 0x1_0000_0000,
    ensures
        ({
            let r = recipes_for(p);
            let size = p.terrain_feature_size.raw;
            &&& r.shape.feature_size.raw == size
            &&& 22 * size - 100 - size / 100 <= 100 * r.relief.feature_size.raw <= 22 * size
            &&& r.warp_x.feature_size == p.boundary_warp_scale
            &&& r.warp_y.feature_size == p.boundary_warp_scale
            &&& r.rain.feature_size == p.hydrology.rain_feature_size
            &&& r.crust.feature_size.raw == 260 * 65536
            &&& r.age.feature_size.raw == 180 * 65536
            &&& r.stress.feature_size.raw == 5 * 65536
            &&& r.shape.octaves == 5 && r.relief.octaves == 4 && r.rain.octaves == 4
            &&& r.crust.octaves == 3 && r.age.octaves == 3 && r.stress.octaves == 3
            &&& r.warp_x.octaves == 3 && r.warp_y.octaves == 3
        }),
{
    let share = Fixed::ratio(22, 100);
    assert(share.raw == 14417);
    lemma_product(p.terrain_feature_size, share);
}

/// Boundaries are bent by the two warps, each times the warp in cells; transform
/// zones and rain follow their own noise.
pub proof fn warps_bend_the_boundaries(p: SimulationParams<Fixed>, fields: Fields<Fixed>, c: int)
    requires
        fields.wf(p.width * p.height),
        0 <= c < p.width * p.height,
        -0x1000_0000_0000 <= fields.warp_x@[c].raw <= 0x1000_0000_0000,
        -0x1000_0000_0000 <= fields.warp_y@[c].raw <= 0x1000_0000_0000,
        -0x1_0000_0000 <= p.boundary_warp.raw <= 0x1_0000_0000,
    ensures
        ({
            let g = setting_from(p, fields);
            &&& g.dx[c].raw == (fields.warp_x@[c].raw * p.boundary_warp.raw) / 65536
            &&& g.dy[c].raw == (fields.warp_y@[c].raw * p.boundary_warp.raw) / 65536
            &&& g.stress == fields.stress@
            &&& g.rain == fields.rain@
            &&& g.params == p
        }),
{
    lemma_product(fields.warp_x@[c], p.boundary_warp);
    lemma_product(fields.warp_y@[c], p.boundary_warp);
}

// --- water and erosion -----------------------------------------------------
/// Routed water follows the terrain as it stands: lakes fill it up to the level of
/// the flood, the water drains over the filled surface, and what a cell carries is
/// gathered from the rain that fell. The terrain itself stays as it is.
pub proof fn routed_water_follows_the_terrain(g: Setting<Fixed>, s: Snapshot<Fixed>, c: int)
    requires
        is_grid(g.width(), g.height()),
        0 <= c < g.cells() <= u32::MAX,
        flooded(
            g.width(),
            g.height(),
            s.elevation,
            g.params.sea_level,
            g.params.hydrology.fill_epsilon,
        ).level[c].raw - s.elevation[c].raw <= i64::MAX,
    ensures
        ({
            let t = with_water(g, s);
            let sea = g.params.sea_level;
            let f = flooded(
                g.width(),
                g.height(),
                s.elevation,
                sea,
                g.params.hydrology.fill_epsilon,
            );
            &&& t.elevation == s.elevation && t.sediment == s.sediment
            &&& t.plates == s.plates && t.crust_age == s.crust_age
            &&& t.filled == f.filled && t.order == f.order
            &&& s.elevation[c].raw > sea.raw ==> s.elevation[c].raw + t.water[c].raw
                == f.level[c].raw
            &&& s.elevation[c].raw <= sea.raw ==> t.water[c].raw == 0 && t.receiver[c] == -1
            &&& t.receiver[c] == receiver_of(
                g.width(),
                g.height(),
                s.elevation,
                sea,
                t.filled,
                c,
            )
            &&& t.flow == accumulated(t.rainfall, t.order, t.receiver)
            &&& s.elevation[c].raw <= sea.raw ==> t.rainfall[c] == rain_from_above(
                g.params.hydrology,
                g.height(),
                g.width(),
                g.rain,
                c,
            )
        }),
{
    lakes_stand_at_the_flood_level(
        g.width(),
        g.height(),
        s.elevation,
        g.params.sea_level,
        g.params.hydrology.fill_epsilon,
        c,
    );
}

/// Erosion cuts, carries and creeps, in this order: the rivers' cuts come off the
/// terrain as it was routed, their load goes down the network and stays as sediment
/// where it is dropped, and the terrain that this leaves creeps. The water stays as
/// it was routed.
pub proof fn erosion_cuts_carries_and_creeps(g: Setting<Fixed>, s: Snapshot<Fixed>, c: int)
    requires
        0 <= c < g.cells(),
        s.elevation.len() == g.cells(),
    ensures
        ({
            let t = with_erosion(g, s);
            let p = g.params.erosion;
            let sea = g.params.sea_level;
            let cut = river_cut(g, s);
            let carried = transported(
                p,
                s.water,
                s.order,
                s.receiver,
                g.params.dt,
                transport_start(lowered(s.elevation, cut), s.sediment, cut, 0i128),
                g.cells(),
            );
            &&& cut[c] == cut_at(
                p,
                sea,
                g.width(),
                s.elevation,
                s.flow,
                s.water,
                s.receiver,
                g.params.dt,
                c,
            )
            &&& t.sediment == carried.sediment
            &&& p.diffusion.raw <= 0 ==> t.elevation == carried.elevation
            &&& p.diffusion.raw > 0 && c < carried.elevation.len() ==> t.elevation[c] == crept(
                p,
                sea,
                g.width(),
                g.height(),
                carried.elevation,
                g.params.dt,
                c,
            )
            &&& t.rainfall == s.rainfall && t.water == s.water && t.flow == s.flow
            &&& t.filled == s.filled && t.receiver == s.receiver && t.order == s.order
            &&& t.plates == s.plates && t.crust_age == s.crust_age
        }),
{
}

// --- plates at work --------------------------------------------------------
/// The plates' ages that decide which of two goes under are those from before the
/// step: the mean over the cells that a plate now holds of how old they were.
pub open spec fn ages_before(s: Snapshot<Fixed>, t: Snapshot<Fixed>) -> Seq<Fixed> {
    Seq::new(t.plates.len(), |id: int| mean_age(t.plate_id, s.crust_age, id))
}

/// Plates work on the terrain as it was, where they now are: every cell is deformed by
/// the boundary that now affects it, and the volcanoes erupt on what this leaves, each
/// boundary by its own chance, with one and the same age of the plates for both.
pub proof fn plates_work_where_they_now_are(
    g: Setting<Fixed>,
    s: Snapshot<Fixed>,
    step: u64,
    c: int,
)
    requires
        0 <= c < g.cells(),
    ensures
        ({
            let (t, volcanoes) = after_tectonics(g, s, step);
            let p = g.params.tectonics;
            let ages = ages_before(s, t);
            let cell = |d: int|
                deformed(
                    p,
                    t.plates,
                    t.boundaries,
                    t.nearest[d],
                    ages,
                    t.plate_id[d],
                    g.stress[d],
                    s.elevation[d],
                    s.crust_age[d],
                    g.params.dt,
                );
            let bent = Seq::new(g.cells(), |d: int| cell(d).0);
            &&& t.crust_age[c] == cell(c).1
            &&& t.elevation == erupted_before(
                p,
                g.params.seed,
                g.width(),
                g.height(),
                bent,
                t.boundaries,
                t.plates,
                ages,
                step as i64,
                g.params.dt,
                t.boundaries.len(),
            ).0
            &&& volcanoes == t.boundaries.filter(
                |b: Boundary<Fixed>|
                    eruption_of(
                        p,
                        g.params.seed,
                        g.width(),
                        b,
                        t.plates,
                        ages,
                        step as i64,
                        g.params.dt,
                    ) is Some,
            ).len()
        }),
{
    let (t, volcanoes) = after_tectonics(g, s, step);
    let p = g.params.tectonics;
    let found = with_boundaries(g, with_plates_moved(g, s));
    let ages = ages_before(s, t);
    assert(plate_ages(found) =~= ages);
    let bent = with_deformation(g, found);
    let raised = Seq::new(
        g.cells(),
        |d: int|
            deformed(
                p,
                t.plates,
                t.boundaries,
                t.nearest[d],
                ages,
                t.plate_id[d],
                g.stress[d],
                s.elevation[d],
                s.crust_age[d],
                g.params.dt,
            ).0,
    );
    assert(bent.elevation =~= raised);
    counted_volcanoes_have_erupted(
        p,
        g.params.seed,
        g.width(),
        g.height(),
        raised,
        t.boundaries,
        t.plates,
        ages,
        step as i64,
        g.params.dt,
        t.boundaries.len(),
    );
    assert(t.boundaries.take(t.boundaries.len() as int) =~= t.boundaries);
}

} // verus!
