//! The simulation loop.
//!
//! One iteration is: move the plates, rebuild ownership, find and classify the
//! boundaries, deform the terrain through them, erupt volcanoes, then let
//! water rework the result. Every stage lives in its own module; this one only
//! decides the order and carries the buffers between them.
//!
//! Noise and random draws come in from outside, as plain values: what a
//! simulation does is a function of its parameters and of these.

use crate::boundary::{
    affecting, detect, detected, detected_records_are_on_the_grid,
    listed_owners_make_listed_records, nearest_boundary, Boundary, BoundaryKind, NearestBoundary,
};
use crate::distance::MAX_SIDE;
use crate::erosion::{
    carry_sum, cut_field, cut_sum, default_erosion, diffused, lowered, transport_start,
    transported, Erosion, ErosionBudget, ErosionParams,
};
use crate::flood::flooded;
use crate::hydrology::{
    accumulated, default_hydrology, lake_depth, rain_at, receivers, FlowNetwork, Hydrology,
    HydrologyParams,
};
use crate::math::{blend, hermite, lerp, smoothstep, Vec2};
use crate::noise::Recipe;
use crate::plate::{
    advance, all_moved, default_plates, generate, moved, per_site, place_sites, placed, plate_on,
    threshold_place, CrustField, Plate, PlateId, PlateParams,
};
use crate::scalar::{clamp_to, clamped, larger, linearly_ordered, max_of, min_of, smaller, Scalar};
use crate::select::sorted_at;
use crate::tectonics::{
    default_tectonics, deformed, erupted_before, mean_age, mean_crust_age, TectonicParams,
    Tectonics, MAX_CONE,
};
use crate::voronoi::{assign, every_cell_has_an_owner, owners, Warp};
use crate::world::{World, DEFAULT_HEIGHT, DEFAULT_WIDTH};
use vstd::prelude::*;

verus! {

/// The high and the low half of a number of milliseconds.
pub fn clock_seed(millis: u128) -> (r: [u64; 2])
    ensures
        r[0] as int * 0x1_0000_0000_0000_0000 + r[1] == millis,
{
    let high: u64 = (millis / 0x1_0000_0000_0000_0000) as u64;
    let low: u64 = (millis % 0x1_0000_0000_0000_0000) as u64;
    [high, low]
}

#[derive(Clone, Copy, Debug)]
pub struct SimulationParams<S> {
    pub width: usize,
    pub height: usize,
    pub seed: u64,
    /// Geological time per iteration. Everything scales by this.
    pub dt: S,
    /// Where the sea sits. This is the single source of truth: hydrology,
    /// erosion, the land/sea statistics and every renderer read it from here,
    /// so there is no way for two stages to disagree about what is underwater.
    ///
    /// Lowering it drains the world without touching the tectonics, which is
    /// the difference between a land-heavy world that still has trenches and
    /// island arcs, and one made of wall-to-wall continental crust.
    pub sea_level: S,
    /// Normal-motion magnitude below which a boundary counts as transform.
    pub transform_threshold: S,
    /// Run hydrology and erosion every N tectonic steps. Water works far
    /// faster than plates do, so it does not need to run every step.
    pub erosion_interval: u32,
    /// Starting elevations by crust type, before any tectonics.
    pub oceanic_elevation: S,
    pub continental_elevation: S,
    /// Amplitude and scale of the noise applied to the starting terrain.
    pub terrain_noise: S,
    pub terrain_feature_size: S,
    /// How far plate boundaries are bent away from straight Voronoi edges,
    /// in cells, and over what wavelength. Without this, every mountain belt
    /// is a straight line.
    pub boundary_warp: S,
    pub boundary_warp_scale: S,
    /// How much noise is mixed into the coastline. Zero gives smooth contours
    /// straight off the crust field; higher values give ragged coasts,
    /// peninsulas and offshore islands.
    pub coast_roughness: S,
    /// Starting crust age spread, so ocean/ocean subduction has something to
    /// choose between on step one.
    pub initial_age_spread: S,
    pub plates: PlateParams<S>,
    pub tectonics: TectonicParams<S>,
    pub hydrology: HydrologyParams<S>,
    pub erosion: ErosionParams<S>,
}

pub open spec fn default_params<S: Scalar>(seed: u64) -> SimulationParams<S> {
    SimulationParams {
        width: DEFAULT_WIDTH,
        height: DEFAULT_HEIGHT,
        seed,
        dt: S::of_int(1),
        sea_level: S::of_int(0),
        transform_threshold: S::ratio(4, 100),
        erosion_interval: 2,
        oceanic_elevation: S::ratio(-36, 10),
        continental_elevation: S::ratio(115, 100),
        terrain_noise: S::ratio(175, 100),
        terrain_feature_size: S::of_int(55),
        coast_roughness: S::ratio(42, 100),
        boundary_warp: S::of_int(22),
        boundary_warp_scale: S::of_int(95),
        initial_age_spread: S::of_int(60),
        plates: default_plates(),
        tectonics: default_tectonics(),
        hydrology: default_hydrology(),
        erosion: default_erosion(),
    }
}

impl<S: Scalar> SimulationParams<S> {
    /// The default parameters, with a seed.
    pub fn seeded(seed: u64) -> (r: Self)
        ensures
            r == default_params::<S>(seed),
            r.width == 1024,
            r.height == 512,
            r.seed == seed,
            r.dt == S::of_int(1),
            r.sea_level == S::of_int(0),
            r.transform_threshold == S::ratio(4, 100),
            r.erosion_interval == 2,
            r.oceanic_elevation == S::ratio(-36, 10),
            r.continental_elevation == S::ratio(115, 100),
            r.terrain_noise == S::ratio(175, 100),
            r.terrain_feature_size == S::of_int(55),
            r.coast_roughness == S::ratio(42, 100),
            r.boundary_warp == S::of_int(22),
            r.boundary_warp_scale == S::of_int(95),
            r.initial_age_spread == S::of_int(60),
    {
        SimulationParams {
            width: DEFAULT_WIDTH,
            height: DEFAULT_HEIGHT,
            seed,
            dt: S::whole(1),
            sea_level: S::whole(0),
            transform_threshold: S::fraction(4, 100),
            erosion_interval: 2,
            oceanic_elevation: S::fraction(-36, 10),
            continental_elevation: S::fraction(115, 100),
            terrain_noise: S::fraction(175, 100),
            terrain_feature_size: S::whole(55),
            coast_roughness: S::fraction(42, 100),
            boundary_warp: S::whole(22),
            boundary_warp_scale: S::whole(95),
            initial_age_spread: S::whole(60),
            plates: PlateParams::default(),
            tectonics: TectonicParams::default(),
            hydrology: HydrologyParams::default(),
            erosion: ErosionParams::default(),
        }
    }

    /// A world of this size can be simulated: its cells and the boundary
    /// records on them can be numbered.
    pub open spec fn fits(&self) -> bool {
        &&& 0 < self.width <= MAX_SIDE
        &&& 0 < self.height <= MAX_SIDE
        &&& self.width * self.height <= MAX_CELLS
        &&& 0 < self.plates.count <= 65535
        &&& self.tectonics.volcano_radius.ceil() <= MAX_CONE
    }

    pub fn can_be_simulated(&self) -> (r: bool)
        ensures
            r == self.fits(),
    {
        if !(0 < self.width && self.width <= MAX_SIDE && 0 < self.height && self.height
            <= MAX_SIDE) {
            return false;
        }
        assert(self.width * self.height <= 0x2000_0000 * 0x2000_0000) by (nonlinear_arith)
            requires
                self.width <= 0x2000_0000,
                self.height <= 0x2000_0000,
        ;
        let cells: u64 = self.width as u64 * self.height as u64;
        cells <= MAX_CELLS as u64 && 0 < self.plates.count && self.plates.count <= 65535
            && self.tectonics.volcano_radius.round_up() <= MAX_CONE
    }
}

/// The largest number of cells whose boundary records can be numbered.
pub const MAX_CELLS: usize = 0x3FFF_FFFF;

// --- setup -----------------------------------------------------------------
/// Noise under the world, one value per cell in each field.
pub struct Fields<S> {
    /// The large-scale field that decides what is continent and what is ocean.
    pub crust: Vec<S>,
    /// The land/sea pattern's own noise, which makes the coastline ragged.
    pub shape: Vec<S>,
    /// The local texture that gives water somewhere to run.
    pub relief: Vec<S>,
    /// The starting crust age. Keying it to the plate instead would stamp the
    /// Voronoi polygons into the sea floor through age-driven subsidence.
    pub age: Vec<S>,
    /// How far boundaries are bent, in both directions.
    pub warp_x: Vec<S>,
    pub warp_y: Vec<S>,
    /// The texture of transform zones.
    pub stress: Vec<S>,
    /// The large-scale pattern of the rain.
    pub rain: Vec<S>,
}

impl<S> Fields<S> {
    pub open spec fn wf(&self, n: int) -> bool {
        &&& self.crust@.len() == n
        &&& self.shape@.len() == n
        &&& self.relief@.len() == n
        &&& self.age@.len() == n
        &&& self.warp_x@.len() == n
        &&& self.warp_y@.len() == n
        &&& self.stress@.len() == n
        &&& self.rain@.len() == n
    }
}

/// How the noise under a world is made.
#[derive(Clone, Copy, Debug)]
pub struct Recipes<S> {
    pub crust: Recipe<S>,
    pub shape: Recipe<S>,
    pub relief: Recipe<S>,
    pub age: Recipe<S>,
    pub warp_x: Recipe<S>,
    pub warp_y: Recipe<S>,
    pub stress: Recipe<S>,
    pub rain: Recipe<S>,
}

pub open spec fn recipes_for<S: Scalar>(p: SimulationParams<S>) -> Recipes<S> {
    Recipes {
        crust: Recipe::of(p.seed, 0x5EED, S::of_int(260), 3),
        shape: Recipe::of(p.seed, 0x7E44, p.terrain_feature_size, 5),
        relief: Recipe::of(p.seed, 0x9C13, p.terrain_feature_size.mul(S::ratio(22, 100)), 4),
        age: Recipe::of(p.seed, 0xA6E5, S::of_int(180), 3),
        warp_x: Recipe::of(p.seed, 0x1A2B, p.boundary_warp_scale, 3),
        warp_y: Recipe::of(p.seed, 0x3C4D, p.boundary_warp_scale, 3),
        stress: Recipe::of(p.seed, 0x7EC7, S::of_int(5), 3),
        rain: Recipe::of(p.seed, 0x5A10_BEE5, p.hydrology.rain_feature_size, 4),
    }
}

impl<S: Scalar> SimulationParams<S> {
    /// How the noise under the world is made.
    pub fn recipes(&self) -> (r: Recipes<S>)
        ensures
            r == recipes_for(*self),
    {
        let size = self.terrain_feature_size;
        let scale = self.boundary_warp_scale;
        Recipes {
            crust: Recipe::salted(self.seed, 0x5EED, S::whole(260), 3),
            shape: Recipe::salted(self.seed, 0x7E44, size, 5),
            relief: Recipe::salted(self.seed, 0x9C13, size.times(S::fraction(22, 100)), 4),
            age: Recipe::salted(self.seed, 0xA6E5, S::whole(180), 3),
            warp_x: Recipe::salted(self.seed, 0x1A2B, scale, 3),
            warp_y: Recipe::salted(self.seed, 0x3C4D, scale, 3),
            stress: Recipe::salted(self.seed, 0x7EC7, S::whole(5), 3),
            rain: Recipe::salted(self.seed, 0x5A10_BEE5, self.hydrology.rain_feature_size, 4),
        }
    }
}

/// Geography first, plates second: where continents are, and where the plates
/// have their sites.
pub struct Ground<S> {
    pub crust: CrustField<S>,
    pub sites: Vec<Vec2<S>>,
}

impl<S: Scalar> Ground<S> {
    /// Survey the ground: `samples` are the values of the crust noise on the
    /// coarse grid, `candidates` the points that were drawn for the sites.
    pub fn survey(
        params: &SimulationParams<S>,
        samples: &Vec<S>,
        candidates: &Vec<Vec2<S>>,
    ) -> (r: Self)
        requires
            params.fits(),
            0 < samples@.len() <= i64::MAX,
            candidates@.len() == params.plates.count * per_site(params.plates.spacing_candidates),
        ensures
            r.crust.threshold == sorted_at(
                samples@,
                threshold_place(samples@.len() as int, params.plates.continental_fraction),
            ),
            r.sites@ == placed(
                params.width as int,
                candidates@,
                per_site(params.plates.spacing_candidates) as int,
                params.plates.count as nat,
            ),
            r.sites@.len() == params.plates.count,
    {
        let world: World<S> = World::new(params.width, params.height);
        let crust = CrustField::new(samples, params.plates.continental_fraction);
        let sites = place_sites(&world, &params.plates, candidates);
        Ground { crust, sites }
    }
}

/// How much of cell `c` is land at the start, from 0 to 1.
pub open spec fn land_share<S: Scalar>(
    p: SimulationParams<S>,
    crust: CrustField<S>,
    crust_noise: S,
    shape: S,
) -> S {
    let coast = crust.height_above(crust_noise).add(p.coast_roughness.mul(shape));
    hermite(S::ratio(-4, 100), S::ratio(10, 100), coast)
}

/// The starting elevation of a cell. Land is rougher than the sea floor, and
/// the margin in between is smoothed so shelves do not turn into cliffs.
pub open spec fn first_elevation<S: Scalar>(
    p: SimulationParams<S>,
    crust: CrustField<S>,
    crust_noise: S,
    shape: S,
    relief: S,
) -> S {
    let land = land_share(p, crust, crust_noise, shape);
    let base = blend(p.oceanic_elevation, p.continental_elevation, land);
    let texture = S::ratio(6, 10).mul(shape).add(S::ratio(4, 10).mul(relief));
    base.add(
        texture.mul(p.terrain_noise).mul(S::ratio(35, 100).add(S::ratio(65, 100).mul(land))),
    )
}

/// The starting crust age of a cell.
pub open spec fn first_age<S: Scalar>(p: SimulationParams<S>, noise: S) -> S {
    clamped(
        S::ratio(1, 2).add(S::ratio(1, 2).mul(noise)),
        S::of_int(0),
        S::of_int(1),
    ).mul(p.initial_age_spread)
}

// --- state -----------------------------------------------------------------
/// What happened during one iteration - enough to tell whether a world went
/// wrong in the plates, the boundaries, the deformation or the water.
#[derive(Clone, Copy)]
pub struct StepStats<S: Scalar> {
    pub step: u64,
    pub convergent: usize,
    pub divergent: usize,
    pub transform: usize,
    pub volcanoes: usize,
    pub min_elevation: S,
    pub max_elevation: S,
    pub land_fraction: S,
    pub erosion: ErosionBudget<S>,
}

pub open spec fn blank_stats<S: Scalar>() -> StepStats<S> {
    StepStats {
        step: 0,
        convergent: 0,
        divergent: 0,
        transform: 0,
        volcanoes: 0,
        min_elevation: S::of_int(0),
        max_elevation: S::of_int(0),
        land_fraction: S::of_int(0),
        erosion: no_budget(),
    }
}

impl<S: Scalar> Default for StepStats<S> {
    fn default() -> (r: Self)
        ensures
            r == blank_stats::<S>(),
    {
        StepStats {
            step: 0,
            convergent: 0,
            divergent: 0,
            transform: 0,
            volcanoes: 0,
            min_elevation: S::whole(0),
            max_elevation: S::whole(0),
            land_fraction: S::whole(0),
            erosion: ErosionBudget::default(),
        }
    }
}

pub struct Simulation<S: Scalar> {
    pub params: SimulationParams<S>,
    pub world: World<S>,
    pub plates: Vec<Plate<S>>,
    pub boundaries: Vec<Boundary<S>>,
    pub field: NearestBoundary<S>,
    pub net: FlowNetwork<S>,
    pub step: u64,
    pub stats: StepStats<S>,
    /// Running erosion totals for the whole run. `stats.erosion` only covers
    /// the last step, and erosion does not run on every step.
    pub totals: ErosionBudget<S>,
    pub tectonics: Tectonics<S>,
    pub hydrology: Hydrology<S>,
    pub erosion: Erosion<S>,
    pub warp: Warp<S>,
}

/// What stays the same for the whole run.
#[verifier::ext_equal]
pub struct Setting<S> {
    pub params: SimulationParams<S>,
    pub dx: Seq<S>,
    pub dy: Seq<S>,
    pub stress: Seq<S>,
    pub rain: Seq<S>,
}

/// What changes from step to step.
#[verifier::ext_equal]
pub struct Snapshot<S: Scalar> {
    pub plates: Seq<Plate<S>>,
    pub plate_id: Seq<PlateId>,
    pub boundaries: Seq<Boundary<S>>,
    /// The boundary that affects each cell, and its distance.
    pub nearest: Seq<Option<(u32, S)>>,
    pub elevation: Seq<S>,
    pub crust_age: Seq<S>,
    pub rainfall: Seq<S>,
    pub water: Seq<S>,
    pub flow: Seq<S>,
    pub sediment: Seq<S>,
    pub filled: Seq<S>,
    pub receiver: Seq<i32>,
    pub order: Seq<u32>,
}

impl<S: Scalar> Setting<S> {
    pub open spec fn width(&self) -> int {
        self.params.width as int
    }

    pub open spec fn height(&self) -> int {
        self.params.height as int
    }

    pub open spec fn cells(&self) -> nat {
        (self.params.width * self.params.height) as nat
    }

    pub open spec fn radius(&self) -> S {
        crate::tectonics::reach_of(self.params.tectonics)
    }
}

// --- stages ----------------------------------------------------------------
/// Boundaries, found anew from the plates and from who holds what.
pub open spec fn with_boundaries<S: Scalar>(g: Setting<S>, s: Snapshot<S>) -> Snapshot<S> {
    let bs = detected(
        g.width(),
        g.height(),
        s.plate_id,
        s.plates,
        g.params.transform_threshold,
    );
    Snapshot {
        boundaries: bs,
        nearest: Seq::new(
            g.cells(),
            |c: int| affecting(g.width(), g.height(), bs, g.radius(), c),
        ),
        ..s
    }
}

/// Plates moved on, and ownership rebuilt.
pub open spec fn with_plates_moved<S: Scalar>(g: Setting<S>, s: Snapshot<S>) -> Snapshot<S> {
    let plates = all_moved(g.width(), g.height(), s.plates, g.params.dt);
    Snapshot { plates, plate_id: owners(g.width(), g.cells(), plates, g.dx, g.dy), ..s }
}

/// The mean crust age of each plate.
pub open spec fn plate_ages<S: Scalar>(s: Snapshot<S>) -> Seq<S> {
    Seq::new(s.plates.len(), |id: int| mean_age(s.plate_id, s.crust_age, id))
}

/// The terrain deformed, and the crust aged.
pub open spec fn with_deformation<S: Scalar>(g: Setting<S>, s: Snapshot<S>) -> Snapshot<S> {
    let after = |c: int|
        deformed(
            g.params.tectonics,
            s.plates,
            s.boundaries,
            s.nearest[c],
            plate_ages(s),
            s.plate_id[c],
            g.stress[c],
            s.elevation[c],
            s.crust_age[c],
            g.params.dt,
        );
    Snapshot {
        elevation: Seq::new(g.cells(), |c: int| after(c).0),
        crust_age: Seq::new(g.cells(), |c: int| after(c).1),
        ..s
    }
}

/// The terrain after volcanism, and how many volcanoes there were. The ages of
/// the plates are those from before the deformation.
pub open spec fn eruptions<S: Scalar>(
    g: Setting<S>,
    s: Snapshot<S>,
    ages: Seq<S>,
    step: u64,
) -> (Seq<S>, nat) {
    erupted_before(
        g.params.tectonics,
        g.params.seed,
        g.width(),
        g.height(),
        s.elevation,
        s.boundaries,
        s.plates,
        ages,
        step as i64,
        g.params.dt,
        s.boundaries.len(),
    )
}

/// Rain fallen, and water routed.
pub open spec fn with_water<S: Scalar>(g: Setting<S>, s: Snapshot<S>) -> Snapshot<S> {
    let w = g.width();
    let h = g.height();
    let sea = g.params.sea_level;
    let rainfall = Seq::new(
        g.cells(),
        |c: int| rain_at(g.params.hydrology, w, h, s.elevation, sea, g.rain, c),
    );
    let f = flooded(w, h, s.elevation, sea, g.params.hydrology.fill_epsilon);
    let receiver = receivers(w, h, s.elevation, sea, f.filled);
    Snapshot {
        rainfall,
        water: Seq::new(g.cells(), |c: int| lake_depth(s.elevation, sea, f.level, c)),
        flow: accumulated(rainfall, f.order, receiver),
        filled: f.filled,
        receiver,
        order: f.order,
        ..s
    }
}

/// What the rivers of a routed world cut.
pub open spec fn river_cut<S: Scalar>(g: Setting<S>, s: Snapshot<S>) -> Seq<S> {
    cut_field(
        g.params.erosion,
        g.params.sea_level,
        g.width(),
        s.elevation,
        s.flow,
        s.water,
        s.receiver,
        g.params.dt,
    )
}

/// The sediment of a routed world, carried to where it ends.
pub open spec fn river_transport<S: Scalar>(
    g: Setting<S>,
    s: Snapshot<S>,
) -> crate::erosion::Transport<S> {
    let cut = river_cut(g, s);
    transported(
        g.params.erosion,
        s.water,
        s.order,
        s.receiver,
        g.params.dt,
        transport_start(lowered(s.elevation, cut), s.sediment, cut, S::wide_zero()),
        g.cells(),
    )
}

/// A routed world after erosion.
pub open spec fn with_erosion<S: Scalar>(g: Setting<S>, s: Snapshot<S>) -> Snapshot<S> {
    let t = river_transport(g, s);
    Snapshot {
        elevation: diffused(
            g.params.erosion,
            g.params.sea_level,
            g.width(),
            g.height(),
            t.elevation,
            g.params.dt,
        ),
        sediment: t.sediment,
        ..s
    }
}

/// What erosion moved in a routed world.
pub open spec fn erosion_budget<S: Scalar>(g: Setting<S>, s: Snapshot<S>) -> ErosionBudget<S> {
    let t = river_transport(g, s);
    ErosionBudget {
        eroded: cut_sum(river_cut(g, s), g.cells()),
        deposited: t.deposited,
        exported: carry_sum(t.carry, g.cells()),
    }
}

pub open spec fn no_budget<S: Scalar>() -> ErosionBudget<S> {
    ErosionBudget {
        eroded: S::wide_zero(),
        deposited: S::wide_zero(),
        exported: S::wide_zero(),
    }
}

pub open spec fn budgets_joined<S: Scalar>(
    a: ErosionBudget<S>,
    b: ErosionBudget<S>,
) -> ErosionBudget<S> {
    ErosionBudget {
        eroded: S::join(a.eroded, b.eroded),
        deposited: S::join(a.deposited, b.deposited),
        exported: S::join(a.exported, b.exported),
    }
}

/// Water runs on its own slower cadence.
pub open spec fn water_runs<S: Scalar>(g: Setting<S>, step: int) -> bool {
    g.params.erosion_interval > 0 && step % g.params.erosion_interval as int == 0
}

/// The world after the tectonic part of a step, and how many volcanoes it
/// brought.
pub open spec fn after_tectonics<S: Scalar>(
    g: Setting<S>,
    s: Snapshot<S>,
    step: u64,
) -> (Snapshot<S>, nat) {
    let found = with_boundaries(g, with_plates_moved(g, s));
    let bent = with_deformation(g, found);
    let (elevation, volcanoes) = eruptions(g, bent, plate_ages(found), step);
    (Snapshot { elevation, ..bent }, volcanoes)
}

/// The world after step number `step`.
pub open spec fn after_step<S: Scalar>(g: Setting<S>, s: Snapshot<S>, step: u64) -> Snapshot<S> {
    let t = after_tectonics(g, s, step).0;
    if water_runs(g, step as int) {
        with_erosion(g, with_water(g, t))
    } else {
        t
    }
}

/// What erosion moves in step number `step`.
pub open spec fn budget_of_step<S: Scalar>(
    g: Setting<S>,
    s: Snapshot<S>,
    step: u64,
) -> ErosionBudget<S> {
    let t = after_tectonics(g, s, step).0;
    if water_runs(g, step as int) {
        erosion_budget(g, with_water(g, t))
    } else {
        no_budget()
    }
}

/// The world after `n` more steps, the first of which is number `step`.
pub open spec fn after_steps<S: Scalar>(
    g: Setting<S>,
    s: Snapshot<S>,
    step: u64,
    n: nat,
) -> Snapshot<S>
    decreases n,
{
    if n == 0 {
        s
    } else {
        let before = after_steps(g, s, step, (n - 1) as nat);
        after_step(g, before, (step + n - 1) as u64)
    }
}

/// The totals after step number `step`: what it moved comes on top of them.
pub open spec fn totals_of_step<S: Scalar>(
    g: Setting<S>,
    s: Snapshot<S>,
    totals: ErosionBudget<S>,
    step: u64,
) -> ErosionBudget<S> {
    if water_runs(g, step as int) {
        budgets_joined(totals, budget_of_step(g, s, step))
    } else {
        totals
    }
}

/// The totals after `n` more steps.
pub open spec fn totals_after<S: Scalar>(
    g: Setting<S>,
    s: Snapshot<S>,
    totals: ErosionBudget<S>,
    step: u64,
    n: nat,
) -> ErosionBudget<S>
    decreases n,
{
    if n == 0 {
        totals
    } else {
        let before = after_steps(g, s, step, (n - 1) as nat);
        totals_of_step(
            g,
            before,
            totals_after(g, s, totals, step, (n - 1) as nat),
            (step + n - 1) as u64,
        )
    }
}

// --- statistics ------------------------------------------------------------
/// How many of the first `n` boundaries are of a kind.
pub open spec fn kind_count<S>(bs: Seq<Boundary<S>>, kind: BoundaryKind, n: nat) -> nat
    decreases n,
{
    if n == 0 {
        0
    } else {
        kind_count(bs, kind, (n - 1) as nat) + if bs[n - 1].kind == kind {
            1nat
        } else {
            0
        }
    }
}

/// The lowest of the first `n` elevations.
pub open spec fn lowest_of<S: Scalar>(elevation: Seq<S>, n: nat) -> S
    decreases n,
{
    if n == 0 {
        S::top()
    } else {
        smaller(lowest_of(elevation, (n - 1) as nat), elevation[n - 1])
    }
}

/// The highest of the first `n` elevations.
pub open spec fn highest_of<S: Scalar>(elevation: Seq<S>, n: nat) -> S
    decreases n,
{
    if n == 0 {
        S::bottom()
    } else {
        larger(highest_of(elevation, (n - 1) as nat), elevation[n - 1])
    }
}

/// How many of the first `n` cells are above the sea.
pub open spec fn land_count<S: Scalar>(elevation: Seq<S>, sea: S, n: nat) -> nat
    decreases n,
{
    if n == 0 {
        0
    } else {
        land_count(elevation, sea, (n - 1) as nat) + if sea.lt(elevation[n - 1]) {
            1nat
        } else {
            0
        }
    }
}

/// The statistics describe a world.
pub open spec fn describes<S: Scalar>(
    stats: StepStats<S>,
    g: Setting<S>,
    s: Snapshot<S>,
    step: int,
    volcanoes: int,
    budget: ErosionBudget<S>,
) -> bool {
    let bs = s.boundaries;
    &&& stats.step == step
    &&& stats.volcanoes == volcanoes
    &&& stats.erosion == budget
    &&& stats.convergent == kind_count(bs, BoundaryKind::Convergent, bs.len())
    &&& stats.divergent == kind_count(bs, BoundaryKind::Divergent, bs.len())
    &&& stats.transform == kind_count(bs, BoundaryKind::Transform, bs.len())
    &&& stats.min_elevation == lowest_of(s.elevation, g.cells())
    &&& stats.max_elevation == highest_of(s.elevation, g.cells())
    &&& stats.land_fraction == S::of_int(
        land_count(s.elevation, g.params.sea_level, g.cells()) as int,
    ).div(S::of_int(g.cells() as int))
}

impl<S: Scalar> Simulation<S> {
    pub open spec fn setting(&self) -> Setting<S> {
        Setting {
            params: self.params,
            dx: self.warp.dx@,
            dy: self.warp.dy@,
            stress: self.tectonics.stress_noise@,
            rain: self.hydrology.rain_noise@,
        }
    }

    pub open spec fn snapshot(&self) -> Snapshot<S> {
        Snapshot {
            plates: self.plates@,
            plate_id: self.world.plate_id@,
            boundaries: self.boundaries@,
            nearest: Seq::new(
                (self.params.width * self.params.height) as nat,
                |c: int| self.field.lookup(c),
            ),
            elevation: self.world.elevation@,
            crust_age: self.world.crust_age@,
            rainfall: self.world.rainfall@,
            water: self.world.water@,
            flow: self.world.flow@,
            sediment: self.world.sediment@,
            filled: self.net.filled@,
            receiver: self.net.receiver@,
            order: self.net.order@,
        }
    }

    /// The stages belong to one world and to one set of parameters.
    pub open spec fn built(&self) -> bool {
        let n = self.world.cells();
        &&& self.params.fits()
        &&& self.world.wf()
        &&& self.world.width == self.params.width
        &&& self.world.height == self.params.height
        &&& self.warp.wf(n)
        &&& self.erosion.wf(n)
        &&& self.tectonics.params == self.params.tectonics
        &&& self.tectonics.seed == self.params.seed
        &&& self.tectonics.stress_noise@.len() == n
        &&& self.hydrology.params == self.params.hydrology
        &&& self.hydrology.rain_noise@.len() == n
        &&& self.erosion.params == self.params.erosion
        &&& self.hydrology.sea_level == self.params.sea_level
        &&& self.erosion.sea_level == self.params.sea_level
        &&& self.plates_numbered()
    }

    /// Plates are numbered in the order in which they are listed.
    pub open spec fn plates_numbered(&self) -> bool {
        &&& 0 < self.plates@.len() <= 65535
        &&& forall|i: int| 0 <= i < self.plates@.len() ==> (#[trigger] self.plates@[i]).id == i
    }

    /// Every cell, every boundary and every distance refers to something that
    /// is there.
    pub open spec fn linked(&self) -> bool {
        let n = self.world.cells();
        &&& forall|c: int|
            0 <= c < n ==> (#[trigger] self.world.plate_id@[c]) < self.plates@.len()
        &&& self.boundaries@.len() <= 4 * n
        &&& forall|i: int|
            0 <= i < self.boundaries@.len() ==> ({
                let b = #[trigger] self.boundaries@[i];
                b.cell < n && b.plate_a < self.plates@.len() && b.plate_b < self.plates@.len()
            })
        &&& self.field.source@.len() == n
        &&& self.field.dist@.len() == n
        &&& self.field.max_radius == self.setting().radius()
        &&& forall|c: int|
            0 <= c < n && #[trigger] self.field.source@[c] != crate::boundary::NO_SOURCE
                ==> self.field.source@[c] < self.boundaries@.len()
    }

    /// The simulation is consistent.
    pub open spec fn wf(&self) -> bool {
        self.built() && self.linked()
    }

    /// Find the boundaries of the world, and how far each cell is from them.
    fn find_boundaries(&mut self)
        requires
            old(self).built(),
            forall|c: int|
                0 <= c < old(self).world.cells() ==> (#[trigger] old(self).world.plate_id@[c])
                    < old(self).plates@.len(),
        ensures
            final(self).wf(),
            *final(self) == (Simulation {
                boundaries: final(self).boundaries,
                field: final(self).field,
                ..*old(self)
            }),
            final(self).snapshot() == with_boundaries(old(self).setting(), old(self).snapshot()),
    {
        let ghost g = self.setting();
        let ghost w = g.width();
        let ghost h = g.height();
        let ghost ids = self.world.plate_id@;
        let ghost threshold = self.params.transform_threshold;
        proof {
            listed_owners_make_listed_records(w, h, ids, self.plates@, threshold, g.cells());
            detected_records_are_on_the_grid(w, h, ids, self.plates@, threshold);
        }
        self.boundaries = detect(&self.world, &self.plates, self.params.transform_threshold);
        assert(self.boundaries@ == detected(w, h, ids, self.plates@, threshold));
        assert forall|i: int| 0 <= i < self.boundaries@.len() implies ({
            let b = #[trigger] self.boundaries@[i];
            b.cell < w * h && b.plate_a < self.plates@.len() && b.plate_b < self.plates@.len()
        }) by {
            let b = detected(w, h, ids, self.plates@, threshold)[i];
            assert(b.cell < w * h);
        }
        self.field = nearest_boundary(
            &self.world,
            &self.boundaries,
            self.tectonics.max_radius(),
        );
        proof {
            let target = with_boundaries(g, old(self).snapshot());
            let now = self.snapshot();
            assert(now.nearest =~= target.nearest);
            assert(now =~= target);
        }
    }

    /// Rainfall, routing, erosion. Returns what the erosion moved.
    fn water_cycle(&mut self) -> (budget: ErosionBudget<S>)
        requires
            old(self).wf(),
        ensures
            final(self).wf(),
            final(self).setting() == old(self).setting(),
            final(self).step == old(self).step,
            final(self).stats == old(self).stats,
            final(self).totals == old(self).totals,
            final(self).snapshot() == with_erosion(
                old(self).setting(),
                with_water(old(self).setting(), old(self).snapshot()),
            ),
            budget == erosion_budget(
                old(self).setting(),
                with_water(old(self).setting(), old(self).snapshot()),
            ),
    {
        let ghost g = self.setting();
        let ghost s = self.snapshot();
        self.hydrology.rainfall(&mut self.world);
        self.hydrology.route(&mut self.world, &mut self.net);
        assert(self.snapshot() =~= with_water(g, s));
        let budget = self.erosion.apply(&mut self.world, &self.net, self.params.dt);
        assert(self.snapshot() =~= with_erosion(g, with_water(g, s)));
        budget
    }

    fn collect_stats(&self, erosion: ErosionBudget<S>) -> (stats: StepStats<S>)
        requires
            self.wf(),
        ensures
            describes(
                stats,
                self.setting(),
                self.snapshot(),
                self.step as int,
                0,
                erosion,
            ),
    {
        let mut convergent: usize = 0;
        let mut divergent: usize = 0;
        let mut transform: usize = 0;
        let ghost bs = self.boundaries@;
        let mut i: usize = 0;
        while i < self.boundaries.len()
            invariant
                i <= bs.len(),
                bs == self.boundaries@,
                convergent == kind_count(bs, BoundaryKind::Convergent, i as nat),
                divergent == kind_count(bs, BoundaryKind::Divergent, i as nat),
                transform == kind_count(bs, BoundaryKind::Transform, i as nat),
                convergent + divergent + transform == i,
            decreases bs.len() - i,
        {
            match self.boundaries[i].kind {
                BoundaryKind::Convergent => {
                    convergent += 1;
                },
                BoundaryKind::Divergent => {
                    divergent += 1;
                },
                BoundaryKind::Transform => {
                    transform += 1;
                },
            }
            i += 1;
        }
        let sea = self.sea_level();
        let n: usize = self.world.len();
        let ghost elevation = self.world.elevation@;
        let mut min_elevation = S::largest();
        let mut max_elevation = S::lowest();
        let mut land: usize = 0;
        let mut c: usize = 0;
        while c < n
            invariant
                c <= n,
                n == self.world.cells(),
                self.world.wf(),
                elevation == self.world.elevation@,
                sea == self.params.sea_level,
                min_elevation == lowest_of(elevation, c as nat),
                max_elevation == highest_of(elevation, c as nat),
                land == land_count(elevation, sea, c as nat),
                land <= c,
            decreases n - c,
        {
            let e = self.world.elevation[c];
            min_elevation = min_of(min_elevation, e);
            max_elevation = max_of(max_elevation, e);
            if sea.less(e) {
                land += 1;
            }
            c += 1;
        }
        let land_fraction = S::whole(land as i64).over(S::whole(n as i64));
        StepStats {
            step: self.step,
            convergent,
            divergent,
            transform,
            volcanoes: 0,
            min_elevation,
            max_elevation,
            land_fraction,
            erosion,
        }
    }

    pub fn sea_level(&self) -> (r: S)
        ensures
            r == self.params.sea_level,
    {
        self.params.sea_level
    }

    /// Build a world: `ground` is where its continents and its plate sites are,
    /// `site_noise` the crust noise at the sites, `angles` and `speeds` what
    /// was drawn for the plates, and `fields` the noise under the world.
    pub fn new(
        params: SimulationParams<S>,
        ground: &Ground<S>,
        site_noise: &Vec<S>,
        angles: &Vec<S>,
        speeds: &Vec<S>,
        fields: Fields<S>,
    ) -> (r: Self)
        requires
            params.fits(),
            fields.wf(params.width * params.height),
            ground.sites@.len() == params.plates.count,
            site_noise@.len() == params.plates.count,
            angles@.len() == params.plates.count,
            speeds@.len() == params.plates.count,
        ensures
            r.wf(),
            r.params == params,
            r.step == 0,
            r.totals == no_budget::<S>(),
            r.setting() == setting_from(params, fields),
            r.snapshot() == first_snapshot(
                r.setting(),
                ground.crust,
                Seq::new(
                    params.plates.count as nat,
                    |i: int|
                        plate_on(
                            i,
                            ground.sites@[i],
                            angles@[i],
                            speeds@[i],
                            site_noise@[i],
                            ground.crust,
                        ),
                ),
                fields,
            ),
            describes(r.stats, r.setting(), r.snapshot(), 0, 0, no_budget()),
    {
        let mut world: World<S> = World::new(params.width, params.height);
        let plates = generate(&ground.sites, angles, speeds, site_noise, &ground.crust);
        let warp = Warp::new(&fields.warp_x, &fields.warp_y, params.boundary_warp);
        assign(&mut world, &plates, &warp);
        let ghost assigned = world;
        let n: usize = world.len();
        let crust = ground.crust;
        let mut idx: usize = 0;
        // Starting terrain. `shape` is the large-scale land/sea pattern with
        // enough noise mixed in that the coastline is ragged rather than a
        // clean contour; `relief` is the local texture that gives water
        // somewhere to run before erosion has carved anything.
        while idx < n
            invariant
                idx <= n,
                n == world.cells(),
                assigned.wf(),
                world.wf(),
                fields.wf(n as int),
                world == (World {
                    elevation: world.elevation,
                    crust_age: world.crust_age,
                    ..assigned
                }),
                forall|c: int|
                    0 <= c < idx ==> #[trigger] world.elevation@[c] == first_elevation(
                        params,
                        crust,
                        fields.crust@[c],
                        fields.shape@[c],
                        fields.relief@[c],
                    ),
                forall|c: int|
                    0 <= c < idx ==> #[trigger] world.crust_age@[c] == first_age(
                        params,
                        fields.age@[c],
                    ),
            decreases n - idx,
        {
            let shape = fields.shape[idx];
            let coast = crust.continentalness(fields.crust[idx]).plus(
                params.coast_roughness.times(shape),
            );
            let land = smoothstep(S::fraction(-4, 100), S::fraction(10, 100), coast);
            let base = lerp(params.oceanic_elevation, params.continental_elevation, land);
            let texture = S::fraction(6, 10).times(shape).plus(
                S::fraction(4, 10).times(fields.relief[idx]),
            );
            let elevation = base.plus(
                texture.times(params.terrain_noise).times(
                    S::fraction(35, 100).plus(S::fraction(65, 100).times(land)),
                ),
            );
            let age = clamp_to(
                S::fraction(1, 2).plus(S::fraction(1, 2).times(fields.age[idx])),
                S::whole(0),
                S::whole(1),
            ).times(params.initial_age_spread);
            world.elevation.set(idx, elevation);
            world.crust_age.set(idx, age);
            idx += 1;
        }
        let ghost g = setting_from(params, fields);
        let ghost start = bare_snapshot(g, crust, plates@, fields);
        assert(world.elevation@ =~= start.elevation);
        assert(world.crust_age@ =~= start.crust_age);
        let tectonics = Tectonics::new(params.tectonics, params.seed, fields.stress);
        let hydrology = Hydrology::new(params.hydrology, params.sea_level, fields.rain);
        let erosion = Erosion::new(params.erosion, params.sea_level, n);
        let net = FlowNetwork::new(n);
        let field = NearestBoundary {
            dist: Vec::new(),
            source: Vec::new(),
            max_radius: tectonics.max_radius(),
        };
        let mut sim = Simulation {
            params,
            world,
            plates,
            boundaries: Vec::new(),
            field,
            net,
            step: 0,
            stats: StepStats::default(),
            totals: ErosionBudget::default(),
            tectonics,
            hydrology,
            erosion,
            warp,
        };
        proof {
            assert(sim.setting() =~= g);
            assert forall|c: int| 0 <= c < n implies (#[trigger] sim.world.plate_id@[c])
                < sim.plates@.len() by {
                every_cell_has_an_owner(
                    g.width(),
                    g.cells(),
                    sim.plates@,
                    g.dx,
                    g.dy,
                    sim.plates@.len() as int,
                    c,
                );
            }
        }
        let ghost blank = sim.snapshot();
        sim.find_boundaries();
        assert(sim.snapshot() =~= with_boundaries(g, start)) by {
            assert(with_boundaries(g, blank) =~= with_boundaries(g, start));
        }
        // Give the initial world a drainage network so it can be rendered
        // before any steps have run.
        sim.water_cycle();
        let none: ErosionBudget<S> = ErosionBudget::default();
        sim.stats = sim.collect_stats(none);
        sim
    }

    /// One iteration: move the plates, rebuild ownership, find and classify
    /// boundaries, deform the terrain, erupt volcanoes, and let water run.
    pub fn step(&mut self)
        requires
            old(self).wf(),
            old(self).step < u64::MAX,
        ensures
            final(self).wf(),
            final(self).setting() == old(self).setting(),
            final(self).step == old(self).step + 1,
            final(self).snapshot() == after_step(
                old(self).setting(),
                old(self).snapshot(),
                old(self).step,
            ),
            final(self).totals == totals_of_step(
                old(self).setting(),
                old(self).snapshot(),
                old(self).totals,
                old(self).step,
            ),
            describes(
                final(self).stats,
                final(self).setting(),
                final(self).snapshot(),
                final(self).step as int,
                after_tectonics(
                    old(self).setting(),
                    old(self).snapshot(),
                    old(self).step,
                ).1 as int,
                budget_of_step(old(self).setting(), old(self).snapshot(), old(self).step),
            ),
    {
        let dt = self.params.dt;
        let ghost g = self.setting();
        let ghost s = self.snapshot();
        let ghost count = self.plates@.len() as int;
        // Move the plates, and rebuild ownership.
        advance(&mut self.plates, &self.world, dt);
        assign(&mut self.world, &self.plates, &self.warp);
        let ghost moved_on = with_plates_moved(g, s);
        proof {
            assert(self.snapshot() =~= moved_on);
            assert forall|i: int| 0 <= i < self.plates@.len() implies (#[trigger] self.plates@[i]).id
                == i by {
                assert(self.plates@[i] == moved(g.width(), g.height(), s.plates[i], dt));
                assert(s.plates[i].id == i);
            }
            assert forall|c: int| 0 <= c < self.world.cells() implies (
            #[trigger] self.world.plate_id@[c]) < self.plates@.len() by {
                every_cell_has_an_owner(
                    g.width(),
                    g.cells(),
                    self.plates@,
                    g.dx,
                    g.dy,
                    count,
                    c,
                );
            }
        }
        // Find boundaries, take their normals, compare plate velocities,
        // classify, and work out how hard each one is pushing. All of that is
        // decided inside `detect`.
        self.find_boundaries();
        let ghost found = self.snapshot();
        // Deform the terrain, and age the crust.
        let plate_age = mean_crust_age(&self.world, self.plates.len());
        proof {
            assert(plate_age@ =~= plate_ages(found));
            assert forall|c: int| 0 <= c < self.world.cells() implies
                crate::tectonics::rules_apply(
                self.plates@,
                self.boundaries@,
                #[trigger] self.field.lookup(c),
                plate_age@.len() as int,
                self.world.plate_id@[c],
            ) by {
                if self.field.source@[c] != crate::boundary::NO_SOURCE {
                    let b = self.boundaries@[self.field.source@[c] as int];
                    assert(b.plate_a < self.plates@.len() && b.plate_b < self.plates@.len());
                    assert(self.world.plate_id@[c] < self.plates@.len());
                }
            }
        }
        self.tectonics.apply(
            &mut self.world,
            &self.plates,
            &self.boundaries,
            &self.field,
            &plate_age,
            dt,
        );
        let ghost bent = with_deformation(g, found);
        proof {
            let now = self.snapshot();
            assert(now.nearest == found.nearest);
            assert forall|c: int| 0 <= c < g.cells() implies now.elevation[c]
                == #[trigger] bent.elevation[c] && now.crust_age[c] == bent.crust_age[c] by {
                assert(found.nearest[c] == self.field.lookup(c));
            }
            assert(now.elevation =~= bent.elevation);
            assert(now.crust_age =~= bent.crust_age);
            assert(now =~= bent);
        }
        // Volcanism.
        let volcanoes: usize = self.tectonics.apply_volcanism(
            &mut self.world,
            &self.plates,
            &self.boundaries,
            &plate_age,
            self.step,
            dt,
        );
        let ghost shaken = after_tectonics(g, s, self.step).0;
        assert(self.snapshot() =~= shaken);
        // Water, on its own slower cadence.
        let mut budget: ErosionBudget<S> = ErosionBudget::default();
        if self.params.erosion_interval > 0 && self.step % (self.params.erosion_interval as u64)
            == 0 {
            budget = self.water_cycle();
            self.totals = ErosionBudget {
                eroded: S::joined(self.totals.eroded, budget.eroded),
                deposited: S::joined(self.totals.deposited, budget.deposited),
                exported: S::joined(self.totals.exported, budget.exported),
            };
        }
        self.step += 1;
        let mut stats = self.collect_stats(budget);
        stats.volcanoes = volcanoes;
        self.stats = stats;
    }

    pub fn run(&mut self, steps: u64)
        requires
            old(self).wf(),
            old(self).step + steps <= u64::MAX,
        ensures
            final(self).wf(),
            final(self).setting() == old(self).setting(),
            final(self).step == old(self).step + steps,
            final(self).snapshot() == after_steps(
                old(self).setting(),
                old(self).snapshot(),
                old(self).step,
                steps as nat,
            ),
            final(self).totals == totals_after(
                old(self).setting(),
                old(self).snapshot(),
                old(self).totals,
                old(self).step,
                steps as nat,
            ),
            steps == 0 ==> final(self).stats == old(self).stats,
            steps > 0 ==> ({
                let before = after_steps(
                    old(self).setting(),
                    old(self).snapshot(),
                    old(self).step,
                    (steps - 1) as nat,
                );
                let last = (final(self).step - 1) as u64;
                describes(
                    final(self).stats,
                    final(self).setting(),
                    final(self).snapshot(),
                    final(self).step as int,
                    after_tectonics(old(self).setting(), before, last).1 as int,
                    budget_of_step(old(self).setting(), before, last),
                )
            }),
    {
        let mut i: u64 = 0;
        let ghost g = self.setting();
        let ghost s = self.snapshot();
        let ghost first = self.step;
        while i < steps
            invariant
                i <= steps,
                self.wf(),
                g == old(self).setting(),
                s == old(self).snapshot(),
                first == old(self).step,
                self.setting() == g,
                first + steps <= u64::MAX,
                self.step == first + i,
                self.snapshot() == after_steps(g, s, first, i as nat),
                self.totals == totals_after(g, s, old(self).totals, first, i as nat),
                i == 0 ==> self.stats == old(self).stats,
                i > 0 ==> ({
                    let before = after_steps(g, s, first, (i - 1) as nat);
                    let last = (self.step - 1) as u64;
                    describes(
                        self.stats,
                        g,
                        self.snapshot(),
                        self.step as int,
                        after_tectonics(g, before, last).1 as int,
                        budget_of_step(g, before, last),
                    )
                }),
            decreases steps - i,
        {
            self.step();
            i += 1;
        }
    }
}

/// The setting that parameters and noise make up.
pub open spec fn setting_from<S: Scalar>(p: SimulationParams<S>, fields: Fields<S>) -> Setting<S> {
    Setting {
        params: p,
        dx: Seq::new(fields.warp_x@.len(), |i: int| fields.warp_x@[i].mul(p.boundary_warp)),
        dy: Seq::new(fields.warp_y@.len(), |i: int| fields.warp_y@[i].mul(p.boundary_warp)),
        stress: fields.stress@,
        rain: fields.rain@,
    }
}

/// The world before its boundaries are known and before any water.
pub open spec fn bare_snapshot<S: Scalar>(
    g: Setting<S>,
    crust: CrustField<S>,
    plates: Seq<Plate<S>>,
    fields: Fields<S>,
) -> Snapshot<S> {
    let zeros = Seq::new(g.cells(), |c: int| S::of_int(0));
    Snapshot {
        plates,
        plate_id: owners(g.width(), g.cells(), plates, g.dx, g.dy),
        boundaries: Seq::empty(),
        nearest: Seq::empty(),
        elevation: Seq::new(
            g.cells(),
            |c: int|
                first_elevation(
                    g.params,
                    crust,
                    fields.crust@[c],
                    fields.shape@[c],
                    fields.relief@[c],
                ),
        ),
        crust_age: Seq::new(g.cells(), |c: int| first_age(g.params, fields.age@[c])),
        rainfall: zeros,
        water: zeros,
        flow: zeros,
        sediment: zeros,
        filled: zeros,
        receiver: Seq::new(g.cells(), |c: int| -1i32),
        order: Seq::empty(),
    }
}

/// The world before the first step.
pub open spec fn first_snapshot<S: Scalar>(
    g: Setting<S>,
    crust: CrustField<S>,
    plates: Seq<Plate<S>>,
    fields: Fields<S>,
) -> Snapshot<S> {
    with_erosion(g, with_water(g, with_boundaries(g, bare_snapshot(g, crust, plates, fields))))
}

// --- laws ------------------------------------------------------------------
/// A world is reproducible: the same setting and the same start give the same
/// world after the same number of steps.
pub proof fn same_start_gives_the_same_world<S: Scalar>(
    a: Simulation<S>,
    b: Simulation<S>,
    n: nat,
)
    requires
        a.setting() == b.setting(),
        a.snapshot() == b.snapshot(),
        a.step == b.step,
    ensures
        after_steps(a.setting(), a.snapshot(), a.step, n) == after_steps(
            b.setting(),
            b.snapshot(),
            b.step,
            n,
        ),
{
}

/// Running on is running: `n` steps and then `m` steps are `n + m` steps.
pub proof fn runs_add_up<S: Scalar>(g: Setting<S>, s: Snapshot<S>, step: u64, n: nat, m: nat)
    requires
        step + n + m <= u64::MAX,
    ensures
        after_steps(g, s, step, n + m) == after_steps(
            g,
            after_steps(g, s, step, n),
            (step + n) as u64,
            m,
        ),
    decreases m,
{
    if m > 0 {
        runs_add_up(g, s, step, n, (m - 1) as nat);
        assert((n + m - 1) as nat == n + (m - 1) as nat);
    }
}

/// A setting with another sea level.
pub open spec fn with_sea_level<S: Scalar>(g: Setting<S>, sea_level: S) -> Setting<S> {
    Setting { params: SimulationParams { sea_level, ..g.params }, ..g }
}

/// Two worlds with the same plates in the same places, on crust of the same
/// age.
pub open spec fn same_tectonics<S: Scalar>(a: Snapshot<S>, b: Snapshot<S>) -> bool {
    &&& a.plates == b.plates
    &&& a.plate_id == b.plate_id
    &&& a.boundaries == b.boundaries
    &&& a.nearest == b.nearest
    &&& a.crust_age == b.crust_age
}

/// The sea level moves the coastline without touching the tectonics: who holds
/// which cell, where the boundaries run and how old the crust is do not depend
/// on it, however long the world runs.
pub proof fn sea_level_leaves_the_tectonics_alone<S: Scalar>(
    g: Setting<S>,
    sea_level: S,
    s: Snapshot<S>,
    t: Snapshot<S>,
    step: u64,
    n: nat,
)
    requires
        same_tectonics(s, t),
        step + n <= u64::MAX,
    ensures
        same_tectonics(
            after_steps(g, s, step, n),
            after_steps(with_sea_level(g, sea_level), t, step, n),
        ),
    decreases n,
{
    if n > 0 {
        let g2 = with_sea_level(g, sea_level);
        sea_level_leaves_the_tectonics_alone(g, sea_level, s, t, step, (n - 1) as nat);
        let a = after_steps(g, s, step, (n - 1) as nat);
        let b = after_steps(g2, t, step, (n - 1) as nat);
        let fa = with_boundaries(g, with_plates_moved(g, a));
        let fb = with_boundaries(g2, with_plates_moved(g2, b));
        assert(fa.nearest =~= fb.nearest);
        assert(plate_ages(fa) =~= plate_ages(fb));
        assert(with_deformation(g, fa).crust_age =~= with_deformation(g2, fb).crust_age);
    }
}

/// Every boundary is of one kind: the counts of the three kinds add up to the
/// number of boundaries.
pub proof fn boundary_kinds_add_up<S>(bs: Seq<Boundary<S>>, n: nat)
    ensures
        kind_count(bs, BoundaryKind::Convergent, n) + kind_count(bs, BoundaryKind::Divergent, n)
            + kind_count(bs, BoundaryKind::Transform, n) == n,
    decreases n,
{
    if n > 0 {
        boundary_kinds_add_up(bs, (n - 1) as nat);
    }
}

/// Lowering the sea exposes land and drowns none.
pub proof fn a_lower_sea_drowns_no_land<S: Scalar>(elevation: Seq<S>, sea: S, lower: S, n: nat)
    requires
        linearly_ordered::<S>(),
        n <= elevation.len(),
        lower.le(sea),
        lower.le(lower),
        sea.le(sea),
        forall|c: int| 0 <= c < n ==> (#[trigger] elevation[c]).le(elevation[c]),
    ensures
        land_count(elevation, sea, n) <= land_count(elevation, lower, n) <= n,
    decreases n,
{
    if n > 0 {
        a_lower_sea_drowns_no_land(elevation, sea, lower, (n - 1) as nat);
        let e = elevation[n - 1];
        assert(e.le(e));
        assert(e.le(lower) <==> !lower.lt(e));
        assert(e.le(sea) <==> !sea.lt(e));
        if e.le(lower) {
            assert(e.le(sea));
        }
    }
}

/// No cell is lower than the lowest elevation of the statistics, and none is
/// higher than the highest.
pub proof fn elevations_lie_in_the_reported_range<S: Scalar>(elevation: Seq<S>, n: nat, c: int)
    requires
        linearly_ordered::<S>(),
        n <= elevation.len(),
        0 <= c < n,
        S::top().le(S::top()),
        S::bottom().le(S::bottom()),
        forall|d: int| 0 <= d < n ==> (#[trigger] elevation[d]).le(elevation[d]),
    ensures
        lowest_of(elevation, n).le(elevation[c]),
        elevation[c].le(highest_of(elevation, n)),
        lowest_of(elevation, n).le(lowest_of(elevation, n)),
        highest_of(elevation, n).le(highest_of(elevation, n)),
    decreases n,
{
    let e = elevation[n - 1];
    assert(e.le(e));
    let lo = lowest_of(elevation, (n - 1) as nat);
    let hi = highest_of(elevation, (n - 1) as nat);
    if n > 1 {
        let other = if c < n - 1 {
            c
        } else {
            n - 2
        };
        elevations_lie_in_the_reported_range(elevation, (n - 1) as nat, other);
    }
    assert(lo.le(lo) && hi.le(hi));
    assert(lo.le(e) <==> !e.lt(lo));
    assert(e.le(hi) <==> !hi.lt(e));
    if e.lt(lo) {
        assert(e.le(lo));
    }
    if hi.lt(e) {
        assert(hi.le(e));
    }
}

/// Water keeps to its own cadence. A step without it leaves the totals, the
/// rain, the lakes, the rivers and the sediment as they were, and moves
/// nothing; a step with it adds what it moved to the totals.
pub proof fn dry_steps_leave_the_water_alone<S: Scalar>(
    g: Setting<S>,
    s: Snapshot<S>,
    totals: ErosionBudget<S>,
    step: u64,
)
    ensures
        ({
            let after = after_step(g, s, step);
            let now = totals_of_step(g, s, totals, step);
            let moved = budget_of_step(g, s, step);
            if g.params.erosion_interval == 0 || step % g.params.erosion_interval as u64 != 0 {
                &&& now == totals
                &&& moved == no_budget::<S>()
                &&& after.rainfall == s.rainfall
                &&& after.water == s.water
                &&& after.flow == s.flow
                &&& after.sediment == s.sediment
            } else {
                &&& now.eroded == S::join(totals.eroded, moved.eroded)
                &&& now.deposited == S::join(totals.deposited, moved.deposited)
                &&& now.exported == S::join(totals.exported, moved.exported)
            }
        }),
{
}

/// With erosion switched off, no run moves any sediment or any water.
pub proof fn a_dry_run_keeps_the_totals<S: Scalar>(
    g: Setting<S>,
    s: Snapshot<S>,
    totals: ErosionBudget<S>,
    step: u64,
    n: nat,
)
    requires
        g.params.erosion_interval == 0,
    ensures
        totals_after(g, s, totals, step, n) == totals,
        ({
            let after = after_steps(g, s, step, n);
            &&& after.rainfall == s.rainfall
            &&& after.water == s.water
            &&& after.flow == s.flow
            &&& after.sediment == s.sediment
        }),
    decreases n,
{
    if n > 0 {
        a_dry_run_keeps_the_totals(g, s, totals, step, (n - 1) as nat);
        let before = after_steps(g, s, step, (n - 1) as nat);
        dry_steps_leave_the_water_alone(g, before, totals, (step + n - 1) as u64);
    }
}

} // verus!
