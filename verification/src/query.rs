//! Reading a finished world.
//!
//! The simulation's fields are all public, and bulk consumers (building a tile
//! map, exporting a heightmap) should iterate them directly - that is the fast
//! path. This module is for the other case: asking everything about one place,
//! which otherwise means indexing five parallel arrays and joining plate
//! ownership against the plate list by hand.
//!
//! Nothing here mutates or advances anything, so a [`Simulation`] that has
//! finished running is a perfectly good read-only world model to keep around
//! for the life of a game.

use crate::boundary::BoundaryKind;
use crate::fixed::Fixed;
use crate::math::{blend, percentile, quantile, Vec2};
use crate::plate::{CrustType, PlateId};
use crate::scalar::{clamp_to, clamped, larger, linearly_ordered, max_of, Scalar};
use crate::simulation::Simulation;
use crate::world::{cell_index, latitude_of, lemma_cell_in_grid, lemma_row_in_grid};
use vstd::arithmetic::div_mod::lemma_mod_multiples_vanish;
use vstd::prelude::*;

verus! {

/// Everything the simulation knows about one cell.
///
/// Units are the simulation's own and are not metres. Ocean basins bottom out
/// around -7 and the highest peaks reach about +8, so one unit is roughly a
/// kilometre if you want a mental scale.
#[derive(Copy, Debug, PartialEq)]
pub struct Sample<S> {
    pub x: usize,
    pub y: usize,
    /// Height of the terrain.
    pub elevation: S,
    /// The world's sea level, repeated here so a `Sample` is self-contained.
    pub sea_level: S,
    /// Latitude in degrees: +90 at the north wall, -90 at the south.
    pub latitude: S,
    /// Crust type of the plate that currently holds this cell. This is what
    /// the tectonic rules key off, and it changes as plates move over the cell.
    pub crust: CrustType,
    /// Which plate holds the cell, and where that plate is heading, in cells
    /// per unit of simulation time.
    pub plate: PlateId,
    pub plate_velocity: Vec2<S>,
    /// Time since this crust was created. Crust made at a spreading centre
    /// starts at zero, so this rises with distance from a mid-ocean ridge.
    pub crust_age: S,
    /// Rain falling on this cell. Relative, not millimetres: compare cells to
    /// each other rather than reading an absolute figure off it.
    pub rainfall: S,
    /// Depth of standing water above the terrain - a lake, if positive.
    pub lake_depth: S,
    /// Upstream rainfall arriving here. Large values are rivers; see
    /// [`Simulation::river_threshold`].
    pub flow: S,
    /// Sediment deposited here over the world's history.
    pub sediment: S,
    /// The nearest plate boundary, if one is close enough to be shaping this
    /// cell at all. `None` means the cell is plate interior.
    pub boundary: Option<BoundaryProximity<S>>,
}

/// The plate boundary currently shaping a cell.
#[derive(Copy, Debug, PartialEq)]
pub struct BoundaryProximity<S> {
    pub kind: BoundaryKind,
    /// Distance in cells to the boundary.
    pub distance: S,
    /// How hard this boundary is working, from the relative plate motion.
    pub strength: S,
    /// The two plates that meet here.
    pub plates: (PlateId, PlateId),
}

impl<S: Copy> Clone for Sample<S> {
    fn clone(&self) -> (r: Self)
        ensures
            r == *self,
    {
        *self
    }
}

impl<S: Copy> Clone for BoundaryProximity<S> {
    fn clone(&self) -> (r: Self)
        ensures
            r == *self,
    {
        *self
    }
}

impl<S: Scalar> Sample<S> {
    pub open spec fn above_sea(&self) -> bool {
        self.sea_level.lt(self.elevation)
    }

    pub fn is_land(&self) -> (r: bool)
        ensures
            r == self.above_sea(),
    {
        self.sea_level.less(self.elevation)
    }

    pub fn is_sea(&self) -> (r: bool)
        ensures
            r == !self.above_sea(),
    {
        !self.is_land()
    }

    pub open spec fn below_sea_by(&self) -> S {
        larger(self.sea_level.sub(self.elevation), S::of_int(0))
    }

    pub open spec fn above_sea_by(&self) -> S {
        larger(self.elevation.sub(self.sea_level), S::of_int(0))
    }

    /// Depth below sea level, or 0 on land.
    pub fn depth(&self) -> (r: S)
        ensures
            r == self.below_sea_by(),
    {
        max_of(self.sea_level.minus(self.elevation), S::whole(0))
    }

    /// Height above sea level, or 0 at sea.
    pub fn altitude(&self) -> (r: S)
        ensures
            r == self.above_sea_by(),
    {
        max_of(self.elevation.minus(self.sea_level), S::whole(0))
    }

    pub fn is_lake(&self) -> (r: bool)
        ensures
            r == (self.above_sea() && S::ratio(2, 100).lt(self.lake_depth)),
    {
        self.is_land() && S::fraction(2, 100).less(self.lake_depth)
    }

    pub fn is_continental(&self) -> (r: bool)
        ensures
            r == (self.crust is Continental),
    {
        self.crust.is_continental()
    }
}

/// A row number held between the walls.
pub open spec fn row_held(h: int, y: int) -> int {
    if y < 0 {
        0
    } else if y >= h {
        h - 1
    } else {
        y
    }
}

/// Elevation at a point, blended from the four cells around it.
pub open spec fn interpolated<S: Scalar>(w: int, h: int, elevation: Seq<S>, x: S, y: S) -> S {
    let y = clamped(y, S::of_int(0), S::of_int(h).sub(S::of_int(1)));
    let x0 = x.floor() as int;
    let y0 = y.floor() as int;
    let tx = x.sub(S::of_int(x0));
    let ty = y.sub(S::of_int(y0));
    let at = |dx: int, dy: int|
        elevation[cell_index(w, (x0 + dx) % w, row_held(h, y0 + dy))];
    let top = at(0, 0).add(at(1, 0).sub(at(0, 0)).mul(tx));
    let bottom = at(0, 1).add(at(1, 1).sub(at(0, 1)).mul(tx));
    top.add(bottom.sub(top).mul(ty))
}

/// The river cells below cell `n`, in order.
pub open spec fn river_cells<S: Scalar>(
    elevation: Seq<S>,
    flow: Seq<S>,
    sea: S,
    threshold: S,
    n: nat,
) -> Seq<int>
    decreases n,
{
    if n == 0 {
        Seq::empty()
    } else {
        let before = river_cells(elevation, flow, sea, threshold, (n - 1) as nat);
        if threshold.le(flow[n - 1]) && sea.lt(elevation[n - 1]) {
            before.push(n - 1)
        } else {
            before
        }
    }
}

impl<S: Scalar> Simulation<S> {
    /// Everything known about the cell in column `x` of row `y`.
    pub open spec fn known_at(&self, x: int, y: int) -> Sample<S> {
        let c = cell_index(self.world.width as int, x, y);
        let plate = self.world.plate_id@[c];
        Sample {
            x: x as usize,
            y: y as usize,
            elevation: self.world.elevation@[c],
            sea_level: self.params.sea_level,
            latitude: latitude_of(self.world.height as int, y),
            crust: self.plates@[plate as int].crust_type,
            plate,
            plate_velocity: self.plates@[plate as int].velocity,
            crust_age: self.world.crust_age@[c],
            rainfall: self.world.rainfall@[c],
            lake_depth: self.world.water@[c],
            flow: self.world.flow@[c],
            sediment: self.world.sediment@[c],
            boundary: match self.field.lookup(c) {
                None => None,
                Some((source, distance)) => {
                    let b = self.boundaries@[source as int];
                    Some(
                        BoundaryProximity {
                            kind: b.kind,
                            distance,
                            strength: b.strength,
                            plates: (b.plate_a, b.plate_b),
                        },
                    )
                },
            },
        }
    }

    /// Everything known about one cell, which must be a cell of the world; use
    /// [`Simulation::sample_at`] for coordinates that may need wrapping.
    pub fn sample(&self, x: usize, y: usize) -> (r: Sample<S>)
        requires
            self.wf(),
            x < self.world.width,
            y < self.world.height,
        ensures
            r == self.known_at(x as int, y as int),
    {
        proof {
            lemma_cell_in_grid(
                self.world.width as int,
                self.world.height as int,
                x as int,
                y as int,
            );
        }
        let w = &self.world;
        let idx: usize = w.idx(x, y);
        let plate: PlateId = w.plate_id[idx];
        let p = &self.plates[plate as usize];
        let boundary = match self.field.at(idx) {
            None => None,
            Some((source, distance)) => {
                let b = &self.boundaries[source as usize];
                Some(
                    BoundaryProximity {
                        kind: b.kind,
                        distance,
                        strength: b.strength,
                        plates: (b.plate_a, b.plate_b),
                    },
                )
            },
        };
        Sample {
            x,
            y,
            elevation: w.elevation[idx],
            sea_level: self.sea_level(),
            latitude: w.latitude(y),
            crust: p.crust_type,
            plate,
            plate_velocity: p.velocity,
            crust_age: w.crust_age[idx],
            rainfall: w.rainfall[idx],
            lake_depth: w.water[idx],
            flow: w.flow[idx],
            sediment: w.sediment[idx],
            boundary,
        }
    }

    /// What a sample at signed coordinates gives.
    pub open spec fn known_around(&self, x: int, y: int) -> Option<Sample<S>> {
        if 0 <= y < self.world.height {
            Some(self.known_at(x % self.world.width as int, y))
        } else {
            None
        }
    }

    /// Like [`Simulation::sample`], but takes signed coordinates: x wraps
    /// around the cylinder, and a y off the north or south wall gives `None`.
    ///
    /// This is the one to use when a game walks off the edge of a region.
    pub fn sample_at(&self, x: i64, y: i64) -> (r: Option<Sample<S>>)
        requires
            self.wf(),
        ensures
            r == self.known_around(x as int, y as int),
    {
        if y < 0 || y >= self.world.height as i64 {
            return None;
        }
        Some(self.sample(self.world.wrap_x(x), y as usize))
    }

    /// Elevation at a continuous position, bilinearly interpolated.
    ///
    /// For a game whose coordinates are finer than one cell. Only elevation is
    /// interpolated: crust type and plate id are categorical, and interpolating
    /// rainfall or flow would invent water that is not there.
    pub fn elevation_at(&self, x: S, y: S) -> (r: S)
        requires
            self.wf(),
        ensures
            r == interpolated(
                self.world.width as int,
                self.world.height as int,
                self.world.elevation@,
                x,
                y,
            ),
    {
        let w = &self.world;
        let ghost width = w.width as int;
        let ghost height = w.height as int;
        let y = clamp_to(y, S::whole(0), S::whole(w.height as i64).minus(S::whole(1)));
        let x0: i64 = x.round_down();
        let y0: i64 = y.round_down();
        let tx = x.minus(S::whole(x0));
        let ty = y.minus(S::whole(y0));
        let xa: usize = w.wrap_x(x0);
        let xb: usize = w.wrap_x(xa as i64 + 1);
        let ya: usize = w.clamp_y(y0);
        let below: i64 = if y0 < i64::MAX {
            y0 + 1
        } else {
            y0
        };
        let yb: usize = w.clamp_y(below);
        proof {
            vstd::arithmetic::div_mod::lemma_add_mod_noop(x0 as int, 1, width);
            vstd::arithmetic::div_mod::lemma_add_mod_noop(xa as int, 1, width);
            vstd::arithmetic::div_mod::lemma_small_mod(xa as nat, width as nat);
            assert(xb == (x0 + 1) % width);
            lemma_cell_in_grid(width, height, xa as int, ya as int);
            lemma_cell_in_grid(width, height, xb as int, ya as int);
            lemma_cell_in_grid(width, height, xa as int, yb as int);
            lemma_cell_in_grid(width, height, xb as int, yb as int);
        }
        let aa = w.elevation[w.idx(xa, ya)];
        let ba = w.elevation[w.idx(xb, ya)];
        let ab = w.elevation[w.idx(xa, yb)];
        let bb = w.elevation[w.idx(xb, yb)];
        let top = aa.plus(ba.minus(aa).times(tx));
        let bottom = ab.plus(bb.minus(ab).times(tx));
        top.plus(bottom.minus(top).times(ty))
    }

    /// Is this cell above sea level?
    pub fn is_land(&self, x: usize, y: usize) -> (r: bool)
        requires
            self.wf(),
            x < self.world.width,
            y < self.world.height,
        ensures
            r == self.known_at(x as int, y as int).above_sea(),
    {
        proof {
            lemma_cell_in_grid(
                self.world.width as int,
                self.world.height as int,
                x as int,
                y as int,
            );
        }
        self.sea_level().less(self.world.elevation[self.world.idx(x, y)])
    }

    /// Flow accumulation above which a cell is worth calling a river.
    ///
    /// Derived from this world's own distribution rather than being a fixed
    /// number, since total flow scales with world size and rainfall. The top
    /// half percent of cells by flow, which is about what reads as a river
    /// network on the map.
    ///
    /// Looks at every cell, so hoist it out of a loop rather than calling it
    /// per cell.
    pub fn river_threshold(&self) -> (r: S)
        requires
            self.wf(),
        ensures
            r == larger(quantile(self.world.flow@, S::ratio(995, 1000)), S::of_int(1)),
    {
        max_of(percentile(&self.world.flow, S::fraction(995, 1000)), S::whole(1))
    }

    /// Cells whose flow is at or above `threshold` and that are above sea
    /// level - the river network.
    pub fn rivers(&self, threshold: S) -> (r: Vec<Sample<S>>)
        requires
            self.wf(),
        ensures
            r@ == river_cells(
                self.world.elevation@,
                self.world.flow@,
                self.params.sea_level,
                threshold,
                self.world.cells() as nat,
            ).map_values(
                |c: int| self.known_at(c % self.world.width as int, c / self.world.width as int),
            ),
    {
        let sea = self.sea_level();
        let n: usize = self.world.len();
        let ghost w = self.world.width as int;
        let ghost h = self.world.height as int;
        let ghost e = self.world.elevation@;
        let ghost f = self.world.flow@;
        let mut out: Vec<Sample<S>> = Vec::new();
        let mut idx: usize = 0;
        while idx < n
            invariant
                idx <= n,
                n == self.world.cells(),
                self.wf(),
                w == self.world.width,
                h == self.world.height,
                e == self.world.elevation@,
                f == self.world.flow@,
                sea == self.params.sea_level,
                out@ == river_cells(e, f, sea, threshold, idx as nat).map_values(
                    |c: int| self.known_at(c % w, c / w),
                ),
            decreases n - idx,
        {
            if threshold.at_most(self.world.flow[idx]) && sea.less(self.world.elevation[idx]) {
                let (x, y) = self.world.coords(idx);
                proof {
                    lemma_row_in_grid(w, h, idx as int);
                }
                out.push(self.sample(x, y));
            }
            idx += 1;
            assert(out@ =~= river_cells(e, f, sea, threshold, idx as nat).map_values(
                |c: int| self.known_at(c % w, c / w),
            ));
        }
        out
    }
}

// --- laws ------------------------------------------------------------------
/// Sampling wraps east/west: once around the world is where it was.
pub proof fn sampling_wraps<S: Scalar>(sim: Simulation<S>, x: int, y: int, turns: int)
    requires
        sim.world.width > 0,
    ensures
        sim.known_around(x + turns * sim.world.width, y) == sim.known_around(x, y),
{
    let w = sim.world.width as int;
    lemma_mod_multiples_vanish(turns, x, w);
    assert(w * turns + x == x + turns * w) by (nonlinear_arith);
}

proof fn lemma_river_cells<S: Scalar>(
    elevation: Seq<S>,
    flow: Seq<S>,
    sea: S,
    threshold: S,
    n: nat,
)
    ensures
        forall|c: int|
            #![trigger river_cells(elevation, flow, sea, threshold, n).contains(c)]
            river_cells(elevation, flow, sea, threshold, n).contains(c) <==> 0 <= c < n
                && threshold.le(flow[c]) && sea.lt(elevation[c]),
    decreases n,
{
    let now = river_cells(elevation, flow, sea, threshold, n);
    if n > 0 {
        lemma_river_cells(elevation, flow, sea, threshold, (n - 1) as nat);
        let before = river_cells(elevation, flow, sea, threshold, (n - 1) as nat);
        assert forall|c: int|
            #![trigger now.contains(c)]
            now.contains(c) <==> 0 <= c < n && threshold.le(flow[c]) && sea.lt(elevation[c]) by {
            if now.contains(c) {
                let i = choose|i: int| 0 <= i < now.len() && now[i] == c;
                if i < before.len() {
                    assert(before[i] == c);
                    assert(before.contains(c));
                }
            }
            if 0 <= c < n && threshold.le(flow[c]) && sea.lt(elevation[c]) {
                if c < n - 1 {
                    assert(before.contains(c));
                    let i = choose|i: int| 0 <= i < before.len() && before[i] == c;
                    assert(now[i] == c);
                } else {
                    assert(now.last() == c);
                    assert(now[now.len() - 1] == c);
                }
            }
        }
    }
}

/// Rivers are the land cells whose flow is at or above the threshold, and no
/// others.
pub proof fn rivers_are_land_above_the_threshold<S: Scalar>(
    elevation: Seq<S>,
    flow: Seq<S>,
    sea: S,
    threshold: S,
    n: nat,
    c: int,
)
    ensures
        river_cells(elevation, flow, sea, threshold, n).contains(c) <==> 0 <= c < n
            && threshold.le(flow[c]) && sea.lt(elevation[c]),
{
    lemma_river_cells(elevation, flow, sea, threshold, n);
    assert(river_cells(elevation, flow, sea, threshold, n).contains(c) <==> 0 <= c < n
        && threshold.le(flow[c]) && sea.lt(elevation[c]));
}

/// Land has a height and no depth, sea has a depth and no height.
pub proof fn land_and_sea_exclude_each_other(s: Sample<Fixed>)
    ensures
        s.above_sea() ==> s.below_sea_by() == Fixed::of_int(0) && Fixed::of_int(0).lt(
            s.above_sea_by(),
        ),
        !s.above_sea() ==> s.above_sea_by() == Fixed::of_int(0) && Fixed::of_int(0).le(
            s.below_sea_by(),
        ),
{
}

/// Rivers come in the order of the cells, each of them once.
pub proof fn rivers_come_in_order<S: Scalar>(
    elevation: Seq<S>,
    flow: Seq<S>,
    sea: S,
    threshold: S,
    n: nat,
)
    ensures
        ({
            let rivers = river_cells(elevation, flow, sea, threshold, n);
            &&& forall|i: int, j: int|
                #![trigger rivers[i], rivers[j]]
                0 <= i < j < rivers.len() ==> rivers[i] < rivers[j]
            &&& rivers.no_duplicates()
        }),
    decreases n,
{
    if n > 0 {
        rivers_come_in_order(elevation, flow, sea, threshold, (n - 1) as nat);
        lemma_river_cells(elevation, flow, sea, threshold, (n - 1) as nat);
        let before = river_cells(elevation, flow, sea, threshold, (n - 1) as nat);
        let rivers = river_cells(elevation, flow, sea, threshold, n);
        assert forall|i: int, j: int|
            #![trigger rivers[i], rivers[j]]
            0 <= i < j < rivers.len() implies rivers[i] < rivers[j] by {
            assert(rivers[i] == before[i]);
            assert(before.contains(before[i]));
            if j < before.len() {
                assert(rivers[j] == before[j]);
            }
        }
    }
}

/// A higher threshold keeps the rivers that reach it, in the same order, and
/// adds none.
pub proof fn a_higher_threshold_thins_the_rivers<S: Scalar>(
    elevation: Seq<S>,
    flow: Seq<S>,
    sea: S,
    threshold: S,
    higher: S,
    n: nat,
)
    requires
        linearly_ordered::<S>(),
        threshold.le(higher),
    ensures
        river_cells(elevation, flow, sea, higher, n) == river_cells(
            elevation,
            flow,
            sea,
            threshold,
            n,
        ).filter(|c: int| higher.le(flow[c])),
    decreases n,
{
    reveal(Seq::filter);
    let reached = |c: int| higher.le(flow[c]);
    if n > 0 {
        a_higher_threshold_thins_the_rivers(
            elevation,
            flow,
            sea,
            threshold,
            higher,
            (n - 1) as nat,
        );
        let before = river_cells(elevation, flow, sea, threshold, (n - 1) as nat);
        let now = river_cells(elevation, flow, sea, threshold, n);
        if now.len() > before.len() {
            assert(now.drop_last() =~= before);
            assert(now.last() == n - 1);
        }
        if higher.le(flow[n - 1]) {
            assert(threshold.le(flow[n - 1]));
        }
    }
}

// --- between the cells -----------------------------------------------------
/// The four cells around a point: north-west, north-east, south-west and
/// south-east of it.
pub open spec fn cells_around<S: Scalar>(w: int, h: int, x: S, y: S) -> (int, int, int, int) {
    let y = clamped(y, S::of_int(0), S::of_int(h).sub(S::of_int(1)));
    let x0 = x.floor() as int;
    let north = row_held(h, y.floor() as int);
    let south = row_held(h, y.floor() + 1);
    (
        cell_index(w, x0 % w, north),
        cell_index(w, (x0 + 1) % w, north),
        cell_index(w, x0 % w, south),
        cell_index(w, (x0 + 1) % w, south),
    )
}

/// How far a point lies from the first of its cells, in either direction.
pub open spec fn shares_between<S: Scalar>(h: int, x: S, y: S) -> (S, S) {
    let y = clamped(y, S::of_int(0), S::of_int(h).sub(S::of_int(1)));
    (x.sub(S::of_int(x.floor() as int)), y.sub(S::of_int(y.floor() as int)))
}

/// The elevation at a point is blended from the four cells around it and from
/// nothing else.
pub proof fn interpolation_blends_the_cells_around<S: Scalar>(
    w: int,
    h: int,
    elevation: Seq<S>,
    x: S,
    y: S,
)
    ensures
        ({
            let (nw, ne, sw, se) = cells_around(w, h, x, y);
            let (tx, ty) = shares_between(h, x, y);
            interpolated(w, h, elevation, x, y) == blend(
                blend(elevation[nw], elevation[ne], tx),
                blend(elevation[sw], elevation[se], tx),
                ty,
            )
        }),
{
    assert((x.floor() + 0) % w == x.floor() as int % w);
}

/// The whole number `x` is where it should be: its own floor, and nothing away
/// from it.
pub open spec fn whole_is_exact<S: Scalar>(x: int) -> bool {
    &&& S::of_int(x).floor() == x
    &&& S::of_int(x).sub(S::of_int(x)) == S::of_int(0)
}

/// Row `y` lies between the walls of a world `h` rows high.
pub open spec fn row_is_inside<S: Scalar>(h: int, y: int) -> bool {
    &&& !S::of_int(y).lt(S::of_int(0))
    &&& !S::of_int(h).sub(S::of_int(1)).lt(S::of_int(y))
}

/// A blend with a share of nothing gives back the first value.
pub open spec fn nothing_blends_in<S: Scalar>(a: S, b: S) -> bool {
    blend(a, b, S::of_int(0)) == a
}

/// Interpolation is exact on cell centres, for numbers that hold the
/// coordinates exactly.
pub proof fn interpolation_is_exact_on_cells<S: Scalar>(
    w: int,
    h: int,
    elevation: Seq<S>,
    x: int,
    y: int,
)
    requires
        0 <= x < w,
        0 <= y < h,
        whole_is_exact::<S>(x),
        whole_is_exact::<S>(y),
        row_is_inside::<S>(h, y),
        ({
            let (nw, ne, sw, se) = cells_around(w, h, S::of_int(x), S::of_int(y));
            &&& nothing_blends_in(elevation[nw], elevation[ne])
            &&& nothing_blends_in(elevation[sw], elevation[se])
            &&& nothing_blends_in(elevation[nw], elevation[sw])
        }),
    ensures
        interpolated(w, h, elevation, S::of_int(x), S::of_int(y)) == elevation[cell_index(
            w,
            x,
            y,
        )],
{
    vstd::arithmetic::div_mod::lemma_small_mod(x as nat, w as nat);
    let fx = S::of_int(x);
    let fy = S::of_int(y);
    interpolation_blends_the_cells_around(w, h, elevation, fx, fy);
    let (nw, ne, sw, se) = cells_around(w, h, fx, fy);
    assert(nw == cell_index(w, x, y));
}

/// Half way between two neighbouring cells of a row, also between the last
/// column and the first, the elevation is their even blend.
pub proof fn interpolation_blends_evenly_half_way<S: Scalar>(
    w: int,
    h: int,
    elevation: Seq<S>,
    x: int,
    y: int,
)
    requires
        0 < w,
        0 <= y < h,
        whole_is_exact::<S>(y),
        row_is_inside::<S>(h, y),
        ({
            let half = S::ratio(1, 2);
            let place = S::of_int(x).add(half);
            place.floor() == x && place.sub(S::of_int(x)) == half
        }),
        ({
            let (nw, ne, sw, se) = cells_around(
                w,
                h,
                S::of_int(x).add(S::ratio(1, 2)),
                S::of_int(y),
            );
            let half = S::ratio(1, 2);
            nothing_blends_in(
                blend(elevation[nw], elevation[ne], half),
                blend(elevation[sw], elevation[se], half),
            )
        }),
    ensures
        interpolated(w, h, elevation, S::of_int(x).add(S::ratio(1, 2)), S::of_int(y)) == blend(
            elevation[cell_index(w, x % w, y)],
            elevation[cell_index(w, (x + 1) % w, y)],
            S::ratio(1, 2),
        ),
{
    interpolation_blends_the_cells_around(
        w,
        h,
        elevation,
        S::of_int(x).add(S::ratio(1, 2)),
        S::of_int(y),
    );
}

/// Interpolation stops at the walls: wherever a point is, its elevation is that
/// of the nearest point between the walls.
pub proof fn interpolation_stops_at_the_walls<S: Scalar>(
    w: int,
    h: int,
    elevation: Seq<S>,
    x: S,
    y: S,
)
    requires
        ({
            let north = S::of_int(0);
            let south = S::of_int(h).sub(S::of_int(1));
            !north.lt(north) && !south.lt(south) && !south.lt(north)
        }),
    ensures
        interpolated(w, h, elevation, x, y) == interpolated(
            w,
            h,
            elevation,
            x,
            clamped(y, S::of_int(0), S::of_int(h).sub(S::of_int(1))),
        ),
{
    let north = S::of_int(0);
    let south = S::of_int(h).sub(S::of_int(1));
    let held = clamped(y, north, south);
    assert(clamped(held, north, south) == held);
    interpolation_blends_the_cells_around(w, h, elevation, x, y);
    interpolation_blends_the_cells_around(w, h, elevation, x, held);
}

/// A blend of two values between `lo` and `hi` lies between them.
pub open spec fn blends_stay_between<S: Scalar>(lo: S, hi: S, t: S) -> bool {
    forall|a: S, b: S|
        lo.le(a) && a.le(hi) && lo.le(b) && b.le(hi) ==> lo.le(#[trigger] blend(a, b, t)) && blend(
            a,
            b,
            t,
        ).le(hi)
}

/// Interpolation invents no heights: the elevation at any point lies within the
/// range of the four cells around it.
pub proof fn interpolation_stays_within_the_cells<S: Scalar>(
    w: int,
    h: int,
    elevation: Seq<S>,
    x: S,
    y: S,
    lo: S,
    hi: S,
)
    requires
        ({
            let (nw, ne, sw, se) = cells_around(w, h, x, y);
            &&& lo.le(elevation[nw]) && elevation[nw].le(hi)
            &&& lo.le(elevation[ne]) && elevation[ne].le(hi)
            &&& lo.le(elevation[sw]) && elevation[sw].le(hi)
            &&& lo.le(elevation[se]) && elevation[se].le(hi)
        }),
        blends_stay_between(lo, hi, shares_between(h, x, y).0),
        blends_stay_between(lo, hi, shares_between(h, x, y).1),
    ensures
        lo.le(interpolated(w, h, elevation, x, y)),
        interpolated(w, h, elevation, x, y).le(hi),
{
    let (nw, ne, sw, se) = cells_around(w, h, x, y);
    let (tx, ty) = shares_between(h, x, y);
    interpolation_blends_the_cells_around(w, h, elevation, x, y);
    let top = blend(elevation[nw], elevation[ne], tx);
    let bottom = blend(elevation[sw], elevation[se], tx);
    assert(lo.le(top) && top.le(hi));
    assert(lo.le(bottom) && bottom.le(hi));
}

/// With fixed-point numbers interpolation is exact on cells, meets half way
/// between them, rounded down, and stops at the walls, for every world whose
/// sides they can count.
pub proof fn fixed_interpolation_is_exact(w: int, h: int, elevation: Seq<Fixed>, x: int, y: int)
    requires
        0 <= x < w <= 0x2000_0000,
        0 <= y < h <= 0x2000_0000,
    ensures
        interpolated(w, h, elevation, Fixed::of_int(x), Fixed::of_int(y)) == elevation[cell_index(
            w,
            x,
            y,
        )],
        forall|a: Fixed, b: Fixed|
            #![trigger interpolated(w, h, elevation, a, b)]
            interpolated(w, h, elevation, a, b) == interpolated(
                w,
                h,
                elevation,
                a,
                clamped(b, Fixed::of_int(0), Fixed::of_int(h).sub(Fixed::of_int(1))),
            ),
        ({
            let a = elevation[cell_index(w, x, y)].raw;
            let b = elevation[cell_index(w, (x + 1) % w, y)].raw;
            let half = Fixed::ratio(1, 2);
            i64::MIN <= b - a <= i64::MAX ==> interpolated(
                w,
                h,
                elevation,
                Fixed::of_int(x).add(half),
                Fixed::of_int(y),
            ).raw == (a + b) / 2
        }),
{
    vstd::arithmetic::div_mod::lemma_small_mod(x as nat, w as nat);
    let zero = Fixed::of_int(0);
    let half = Fixed::ratio(1, 2);
    assert(half.raw == 32768);
    assert forall|a: Fixed, b: Fixed| #[trigger] nothing_blends_in(a, b) by {
        let d = b.sub(a);
        assert(d.raw * 0 == 0);
        assert(d.mul(zero) == zero);
    }
    let (nw, ne, sw, se) = cells_around(w, h, Fixed::of_int(x), Fixed::of_int(y));
    assert(nothing_blends_in(elevation[nw], elevation[ne]));
    assert(nothing_blends_in(elevation[sw], elevation[se]));
    assert(nothing_blends_in(elevation[nw], elevation[sw]));
    interpolation_is_exact_on_cells(w, h, elevation, x, y);
    assert forall|a: Fixed, b: Fixed|
        #![trigger interpolated(w, h, elevation, a, b)]
        interpolated(w, h, elevation, a, b) == interpolated(
            w,
            h,
            elevation,
            a,
            clamped(b, Fixed::of_int(0), Fixed::of_int(h).sub(Fixed::of_int(1))),
        ) by {
        interpolation_stops_at_the_walls(w, h, elevation, a, b);
    }
    let place = Fixed::of_int(x).add(half);
    assert(place.raw == x * 65536 + 32768);
    assert(place.floor() == x && place.sub(Fixed::of_int(x)) == half);
    interpolation_blends_evenly_half_way(w, h, elevation, x, y);
    let a = elevation[cell_index(w, x, y)];
    let b = elevation[cell_index(w, (x + 1) % w, y)];
    if i64::MIN <= b.raw - a.raw <= i64::MAX {
        let d = b.sub(a);
        assert((d.raw * 32768) / 65536 == d.raw as int / 2);
        assert(a.add(d.mul(half)).raw == (a.raw + b.raw) / 2);
    }
}

/// With fixed-point numbers no interpolated height leaves the range of the four
/// cells around it, unless that range is wider than the numbers.
pub proof fn fixed_interpolation_stays_within_the_cells(
    w: int,
    h: int,
    elevation: Seq<Fixed>,
    x: Fixed,
    y: Fixed,
    lo: Fixed,
    hi: Fixed,
)
    requires
        hi.raw - lo.raw <= i64::MAX,
        ({
            let (nw, ne, sw, se) = cells_around(w, h, x, y);
            &&& lo.le(elevation[nw]) && elevation[nw].le(hi)
            &&& lo.le(elevation[ne]) && elevation[ne].le(hi)
            &&& lo.le(elevation[sw]) && elevation[sw].le(hi)
            &&& lo.le(elevation[se]) && elevation[se].le(hi)
        }),
    ensures
        lo.le(interpolated(w, h, elevation, x, y)),
        interpolated(w, h, elevation, x, y).le(hi),
{
    let (tx, ty) = shares_between(h, x, y);
    assert(0 <= tx.raw < 65536);
    assert(0 <= ty.raw < 65536);
    assert forall|a: Fixed, b: Fixed, t: Fixed|
        0 <= t.raw < 65536 && lo.le(a) && a.le(hi) && lo.le(b) && b.le(hi) implies lo.le(
        #[trigger] blend(a, b, t),
    ) && blend(a, b, t).le(hi) by {
        let d = b.raw - a.raw;
        let part = (d * t.raw) / 65536;
        assert((d >= 0 ==> 0 <= part <= d) && (d <= 0 ==> d <= part <= 0)) by (nonlinear_arith)
            requires
                part == (d * t.raw) / 65536,
                0 <= t.raw < 65536,
        ;
        assert(b.sub(a).mul(t).raw == part);
    }
    interpolation_stays_within_the_cells(w, h, elevation, x, y, lo, hi);
}

} // verus!
