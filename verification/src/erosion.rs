//! Erosion and deposition.
//!
//! Three processes, run in order on the drainage network hydrology just built:
//!
//! 1. **Stream-power incision** - rivers cut down in proportion to discharge
//!    and slope. This is what carves valleys into the tectonic uplift, and
//!    what makes big rivers cut deeper than small ones.
//! 2. **Sediment transport** - what a river cuts, it carries downstream and
//!    drops progressively, dumping the rest into lakes and the sea. Deltas and
//!    infilled basins come from here.
//! 3. **Hillslope diffusion** - slow creep that rounds off ridges and stops
//!    the heightfield from developing single-cell spikes.
//!
//! Incision is capped at a fraction of the drop to the downstream cell, which
//! is what keeps the explicit time stepping stable no matter how large the
//! uplift or discharge gets.

use crate::drainage::{
    adds_up, amounts, fixed_numbers_drain, is_network, lemma_total_nonneg, lemma_total_update,
    total,
};
use crate::fixed::{fixed_powers_keep_order, Fixed};
use crate::flood::lemma_distinct_cells;
use crate::hydrology::{step_distance, step_length, FlowNetwork};
use crate::scalar::{
    clamp_to, clamped, copied, larger, lemma_larger, lemma_smaller, linearly_ordered, max_of,
    min_of, repeated, smaller, Scalar,
};
use crate::world::{
    is_grid, lemma_neighbor_is_listed, lemma_row_in_grid, neighbors_by, neighbors_of, World,
    OFFSETS8,
};
use vstd::prelude::*;

verus! {

#[derive(Clone, Copy, Debug)]
pub struct ErosionParams<S> {
    /// Stream-power coefficient.
    pub incision: S,
    /// Discharge exponent (m) and slope exponent (n) in `k * A^m * S^n`.
    pub area_exponent: S,
    pub slope_exponent: S,
    /// Stability clamp: never cut more than this share of the drop downstream.
    pub max_incision_fraction: S,
    /// Share of the carried sediment load dropped per cell on land.
    pub deposition: S,
    /// Hillslope creep coefficient.
    pub diffusion: S,
    /// Creep is slower under water, where there is no rain to drive it.
    pub submarine_diffusion_scale: S,
}

pub open spec fn default_erosion<S: Scalar>() -> ErosionParams<S> {
    ErosionParams {
        incision: S::ratio(16, 10_000),
        area_exponent: S::ratio(1, 2),
        slope_exponent: S::of_int(1),
        max_incision_fraction: S::ratio(3, 10),
        deposition: S::ratio(8, 100),
        diffusion: S::ratio(22, 1000),
        submarine_diffusion_scale: S::ratio(1, 4),
    }
}

impl<S: Scalar> Default for ErosionParams<S> {
    fn default() -> (r: Self)
        ensures
            r == default_erosion::<S>(),
            r.incision == S::ratio(16, 10_000),
            r.area_exponent == S::ratio(1, 2),
            r.slope_exponent == S::of_int(1),
            r.max_incision_fraction == S::ratio(3, 10),
            r.deposition == S::ratio(8, 100),
            r.diffusion == S::ratio(22, 1000),
            r.submarine_diffusion_scale == S::ratio(1, 4),
    {
        ErosionParams {
            incision: S::fraction(16, 10_000),
            area_exponent: S::fraction(1, 2),
            slope_exponent: S::whole(1),
            max_incision_fraction: S::fraction(3, 10),
            deposition: S::fraction(8, 100),
            diffusion: S::fraction(22, 1000),
            submarine_diffusion_scale: S::fraction(1, 4),
        }
    }
}

/// What one erosion step moved, for reporting and for tests.
#[derive(Clone, Copy)]
pub struct ErosionBudget<S: Scalar> {
    pub eroded: S::Wide,
    pub deposited: S::Wide,
    /// Sediment carried off the map at a wall, or lost to the deep ocean.
    pub exported: S::Wide,
}

impl<S: Scalar> Default for ErosionBudget<S> {
    fn default() -> (r: Self)
        ensures
            r.eroded == S::wide_zero(),
            r.deposited == S::wide_zero(),
            r.exported == S::wide_zero(),
    {
        ErosionBudget {
            eroded: S::empty_sum(),
            deposited: S::empty_sum(),
            exported: S::empty_sum(),
        }
    }
}

pub struct Erosion<S> {
    pub params: ErosionParams<S>,
    /// Owned by the simulation, not by this stage.
    pub sea_level: S,
    /// What the last step cut off each cell.
    pub cut: Vec<S>,
    /// Scratch, kept across steps to avoid reallocating every iteration.
    pub carry: Vec<S>,
    pub scratch: Vec<S>,
}

// --- incision --------------------------------------------------------------
/// What a river cuts off cell `c`: `k * discharge^m * slope^n`, clamped for
/// stability. No rivers below sea level, and none inside a lake - still water
/// does not incise.
pub open spec fn cut_at<S: Scalar>(
    p: ErosionParams<S>,
    sea: S,
    w: int,
    elevation: Seq<S>,
    flow: Seq<S>,
    water: Seq<S>,
    receiver: Seq<i32>,
    dt: S,
    c: int,
) -> S {
    let zero = S::of_int(0);
    let r = receiver[c] as int;
    if r < 0 || elevation[c].le(sea) || zero.lt(water[c]) {
        zero
    } else {
        let drop = elevation[c].sub(elevation[r]);
        if drop.le(zero) {
            zero
        } else {
            let slope = drop.div(step_length(w, c, r));
            let e = p.incision.mul(larger(flow[c], zero).pow(p.area_exponent)).mul(
                slope.pow(p.slope_exponent),
            ).mul(dt);
            smaller(e, drop.mul(p.max_incision_fraction))
        }
    }
}

pub open spec fn cut_field<S: Scalar>(
    p: ErosionParams<S>,
    sea: S,
    w: int,
    elevation: Seq<S>,
    flow: Seq<S>,
    water: Seq<S>,
    receiver: Seq<i32>,
    dt: S,
) -> Seq<S> {
    Seq::new(
        elevation.len(),
        |c: int| cut_at(p, sea, w, elevation, flow, water, receiver, dt, c),
    )
}

/// The terrain after the cut.
pub open spec fn lowered<S: Scalar>(elevation: Seq<S>, cut: Seq<S>) -> Seq<S> {
    Seq::new(
        elevation.len(),
        |c: int|
            if S::of_int(0).lt(cut[c]) {
                elevation[c].sub(cut[c])
            } else {
                elevation[c]
            },
    )
}

/// The sum of what was cut off the first `n` cells.
pub open spec fn cut_sum<S: Scalar>(cut: Seq<S>, n: nat) -> S::Wide
    decreases n,
{
    if n == 0 {
        S::wide_zero()
    } else {
        let before = cut_sum(cut, (n - 1) as nat);
        if S::of_int(0).lt(cut[n - 1]) {
            S::gather(before, cut[n - 1])
        } else {
            before
        }
    }
}

// --- transport -------------------------------------------------------------
/// Sediment on its way downstream.
#[verifier::ext_equal]
pub struct Transport<S: Scalar> {
    pub elevation: Seq<S>,
    pub sediment: Seq<S>,
    pub carry: Seq<S>,
    pub deposited: S::Wide,
}

/// The share of its load that a cell drops: slack water (a lake) drops all of
/// it, moving water a part.
pub open spec fn dropped_share<S: Scalar>(p: ErosionParams<S>, water: Seq<S>, dt: S, c: int) -> S {
    if S::of_int(0).lt(water[c]) {
        S::of_int(1)
    } else {
        clamped(p.deposition.mul(dt), S::of_int(0), S::of_int(1))
    }
}

/// Cell `c` drops its share and hands the rest on. A sink swallows everything:
/// lakes silt up, river mouths build out into the sea.
pub open spec fn handed_on<S: Scalar>(
    p: ErosionParams<S>,
    water: Seq<S>,
    receiver: Seq<i32>,
    dt: S,
    t: Transport<S>,
    c: int,
) -> Transport<S> {
    let zero = S::of_int(0);
    let load = t.carry[c];
    let r = receiver[c] as int;
    if load.le(zero) {
        t
    } else if r < 0 {
        Transport {
            elevation: t.elevation.update(c, t.elevation[c].add(load)),
            sediment: t.sediment.update(c, t.sediment[c].add(load)),
            carry: t.carry.update(c, zero),
            deposited: S::gather(t.deposited, load),
        }
    } else {
        let drop = load.mul(dropped_share(p, water, dt, c));
        let emptied = t.carry.update(c, zero);
        Transport {
            elevation: t.elevation.update(c, t.elevation[c].add(drop)),
            sediment: t.sediment.update(c, t.sediment[c].add(drop)),
            carry: emptied.update(r, emptied[r].add(load.sub(drop))),
            deposited: S::gather(t.deposited, drop),
        }
    }
}

/// The transport after the last `k` cells of the order have handed on theirs.
pub open spec fn transported<S: Scalar>(
    p: ErosionParams<S>,
    water: Seq<S>,
    order: Seq<u32>,
    receiver: Seq<i32>,
    dt: S,
    start: Transport<S>,
    k: nat,
) -> Transport<S>
    decreases k,
{
    if k == 0 {
        start
    } else {
        handed_on(
            p,
            water,
            receiver,
            dt,
            transported(p, water, order, receiver, dt, start, (k - 1) as nat),
            order[order.len() - k] as int,
        )
    }
}

/// The sum of what the first `n` cells still carry.
pub open spec fn carry_sum<S: Scalar>(carry: Seq<S>, n: nat) -> S::Wide
    decreases n,
{
    if n == 0 {
        S::wide_zero()
    } else {
        S::gather(carry_sum(carry, (n - 1) as nat), carry[n - 1])
    }
}

// --- diffusion -------------------------------------------------------------
/// How much a neighbour counts.
pub open spec fn creep_weight<S: Scalar>(dx: i64, dy: i64) -> S {
    if dx != 0 && dy != 0 {
        S::ratio(1, 2)
    } else {
        S::of_int(1)
    }
}

/// The weighted sum over the first `k` neighbours of `c`, and its weight.
pub open spec fn neighbor_sum<S: Scalar>(
    w: int,
    h: int,
    elevation: Seq<S>,
    c: int,
    k: nat,
) -> (S, S)
    decreases k,
{
    if k == 0 {
        (S::of_int(0), S::of_int(0))
    } else {
        let (sum, count) = neighbor_sum(w, h, elevation, c, (k - 1) as nat);
        let (n, dx, dy) = neighbors_of(w, h, c)[k - 1];
        let weight = creep_weight(dx, dy);
        (sum.add(elevation[n as int].mul(weight)), count.add(weight))
    }
}

/// Cell `c` moved toward the average of its neighbours.
pub open spec fn crept<S: Scalar>(
    p: ErosionParams<S>,
    sea: S,
    w: int,
    h: int,
    elevation: Seq<S>,
    dt: S,
    c: int,
) -> S {
    let e = elevation[c];
    let (sum, count) = neighbor_sum(w, h, elevation, c, neighbors_of(w, h, c).len());
    let mean = sum.div(count);
    let rate = if sea.lt(e) {
        p.diffusion
    } else {
        p.diffusion.mul(p.submarine_diffusion_scale)
    };
    e.add(mean.sub(e).mul(clamped(rate.mul(dt), S::of_int(0), S::of_int(1))))
}

/// The terrain after creep.
pub open spec fn diffused<S: Scalar>(
    p: ErosionParams<S>,
    sea: S,
    w: int,
    h: int,
    elevation: Seq<S>,
    dt: S,
) -> Seq<S> {
    if p.diffusion.le(S::of_int(0)) {
        elevation
    } else {
        Seq::new(elevation.len(), |c: int| crept(p, sea, w, h, elevation, dt, c))
    }
}

/// The transport that starts from what was cut.
pub open spec fn transport_start<S: Scalar>(
    elevation: Seq<S>,
    sediment: Seq<S>,
    cut: Seq<S>,
    deposited: S::Wide,
) -> Transport<S> {
    Transport { elevation, sediment, carry: cut, deposited }
}

impl<S: Scalar> Erosion<S> {
    /// The stage belongs to worlds of `n` cells.
    pub open spec fn wf(&self, n: int) -> bool {
        &&& self.cut@.len() == n
        &&& self.carry@.len() == n
        &&& self.scratch@.len() == n
    }

    pub fn new(params: ErosionParams<S>, sea_level: S, n: usize) -> (r: Self)
        ensures
            r.params == params,
            r.sea_level == sea_level,
            r.cut@ == Seq::new(n as nat, |i: int| S::of_int(0)),
            r.carry@ == Seq::new(n as nat, |i: int| S::of_int(0)),
            r.scratch@ == Seq::new(n as nat, |i: int| S::of_int(0)),
            r.wf(n as int),
    {
        Erosion {
            params,
            sea_level,
            cut: repeated(S::whole(0), n),
            carry: repeated(S::whole(0), n),
            scratch: repeated(S::whole(0), n),
        }
    }

    pub fn apply(&mut self, world: &mut World<S>, net: &FlowNetwork<S>, dt: S) -> (budget:
        ErosionBudget<S>)
        requires
            old(world).wf(),
            old(world).cells() <= i64::MAX,
            old(self).wf(old(world).cells()),
            net.wf(old(world).cells()),
        ensures
            final(world).wf(),
            final(self).wf(old(world).cells()),
            final(self).params == old(self).params,
            final(self).sea_level == old(self).sea_level,
            *final(world) == (World {
                elevation: final(world).elevation,
                sediment: final(world).sediment,
                ..*old(world)
            }),
            ({
                let p = old(self).params;
                let sea = old(self).sea_level;
                let w = old(world).width as int;
                let h = old(world).height as int;
                let n = old(world).cells() as nat;
                let cut = cut_field(
                    p,
                    sea,
                    w,
                    old(world).elevation@,
                    old(world).flow@,
                    old(world).water@,
                    net.receiver@,
                    dt,
                );
                let t = transported(
                    p,
                    old(world).water@,
                    net.order@,
                    net.receiver@,
                    dt,
                    transport_start(
                        lowered(old(world).elevation@, cut),
                        old(world).sediment@,
                        cut,
                        S::wide_zero(),
                    ),
                    n,
                );
                &&& final(self).cut@ == cut
                &&& final(world).elevation@ == diffused(p, sea, w, h, t.elevation, dt)
                &&& final(world).sediment@ == t.sediment
                &&& budget.eroded == cut_sum(cut, n)
                &&& budget.deposited == t.deposited
                &&& budget.exported == carry_sum(t.carry, n)
            }),
    {
        let mut budget: ErosionBudget<S> = ErosionBudget::default();
        self.incise(world, net, dt, &mut budget);
        self.transport(world, net, dt, &mut budget);
        self.diffuse(world, dt);
        budget
    }

    /// Stream-power incision: `k * discharge^m * slope^n`, clamped for
    /// stability.
    fn incise(
        &mut self,
        world: &mut World<S>,
        net: &FlowNetwork<S>,
        dt: S,
        budget: &mut ErosionBudget<S>,
    )
        requires
            old(world).wf(),
            old(world).cells() <= i64::MAX,
            old(self).wf(old(world).cells()),
            net.wf(old(world).cells()),
            old(budget).eroded == S::wide_zero(),
        ensures
            final(world).wf(),
            final(self).wf(old(world).cells()),
            *final(self) == (Erosion { cut: final(self).cut, ..*old(self) }),
            *final(world) == (World { elevation: final(world).elevation, ..*old(world) }),
            final(budget).deposited == old(budget).deposited,
            final(budget).exported == old(budget).exported,
            final(self).cut@ == cut_field(
                old(self).params,
                old(self).sea_level,
                old(world).width as int,
                old(world).elevation@,
                old(world).flow@,
                old(world).water@,
                net.receiver@,
                dt,
            ),
            final(world).elevation@ == lowered(old(world).elevation@, final(self).cut@),
            final(budget).eroded == cut_sum(final(self).cut@, old(world).cells() as nat),
    {
        let p = self.params;
        let sea = self.sea_level;
        let zero = S::whole(0);
        let n: usize = world.len();
        let ghost w = world.width as int;
        let mut idx: usize = 0;
        while idx < n
            invariant
                idx <= n,
                n == world.cells(),
                n <= i64::MAX,
                w == world.width,
                zero == S::of_int(0),
                *world == *old(world),
                world.wf(),
                net.wf(n as int),
                self.wf(n as int),
                p == self.params,
                sea == self.sea_level,
                *self == (Erosion { cut: self.cut, ..*old(self) }),
                forall|c: int|
                    0 <= c < idx ==> #[trigger] self.cut@[c] == cut_at(
                        p,
                        sea,
                        w,
                        world.elevation@,
                        world.flow@,
                        world.water@,
                        net.receiver@,
                        dt,
                        c,
                    ),
            decreases n - idx,
        {
            let mut cut = zero;
            let r: i32 = net.receiver[idx];
            if !(r < 0 || world.elevation[idx].at_most(sea) || zero.less(world.water[idx])) {
                let r: usize = r as usize;
                let drop = world.elevation[idx].minus(world.elevation[r]);
                if !drop.at_most(zero) {
                    let slope = drop.over(step_distance(&*world, idx, r));
                    let e = p.incision.times(
                        max_of(world.flow[idx], zero).power(p.area_exponent),
                    ).times(slope.power(p.slope_exponent)).times(dt);
                    cut = min_of(e, drop.times(p.max_incision_fraction));
                }
            }
            self.cut.set(idx, cut);
            idx += 1;
        }
        proof {
            assert(self.cut@ =~= cut_field(
                p,
                sea,
                w,
                world.elevation@,
                world.flow@,
                world.water@,
                net.receiver@,
                dt,
            ));
        }
        let mut idx: usize = 0;
        while idx < n
            invariant
                idx <= n,
                n == world.cells(),
                zero == S::of_int(0),
                world.wf(),
                self.cut@.len() == n,
                *world == (World { elevation: world.elevation, ..*old(world) }),
                budget.deposited == old(budget).deposited,
                budget.exported == old(budget).exported,
                budget.eroded == cut_sum(self.cut@, idx as nat),
                forall|c: int|
                    0 <= c < idx ==> #[trigger] world.elevation@[c] == (if zero.lt(self.cut@[c]) {
                        old(world).elevation@[c].sub(self.cut@[c])
                    } else {
                        old(world).elevation@[c]
                    }),
                forall|c: int|
                    idx <= c < n ==> #[trigger] world.elevation@[c] == old(world).elevation@[c],
            decreases n - idx,
        {
            let c = self.cut[idx];
            if zero.less(c) {
                let e = world.elevation[idx].minus(c);
                world.elevation.set(idx, e);
                budget.eroded = S::gathered(budget.eroded, c);
            }
            idx += 1;
        }
        proof {
            assert(world.elevation@ =~= lowered(old(world).elevation@, self.cut@));
        }
    }

    /// Carry the cut material downstream, dropping a share of it on the way.
    ///
    /// `order` ascends by filled elevation, so walking it backwards visits
    /// every cell before the cell it drains into - one pass, no iteration.
    fn transport(
        &mut self,
        world: &mut World<S>,
        net: &FlowNetwork<S>,
        dt: S,
        budget: &mut ErosionBudget<S>,
    )
        requires
            old(world).wf(),
            old(self).wf(old(world).cells()),
            net.wf(old(world).cells()),
            old(budget).exported == S::wide_zero(),
        ensures
            final(world).wf(),
            final(self).wf(old(world).cells()),
            *final(self) == (Erosion { carry: final(self).carry, ..*old(self) }),
            *final(world) == (World {
                elevation: final(world).elevation,
                sediment: final(world).sediment,
                ..*old(world)
            }),
            final(budget).eroded == old(budget).eroded,
            ({
                let n = old(world).cells() as nat;
                let t = transported(
                    old(self).params,
                    old(world).water@,
                    net.order@,
                    net.receiver@,
                    dt,
                    transport_start(
                        old(world).elevation@,
                        old(world).sediment@,
                        old(self).cut@,
                        old(budget).deposited,
                    ),
                    n,
                );
                &&& final(world).elevation@ == t.elevation
                &&& final(world).sediment@ == t.sediment
                &&& final(budget).deposited == t.deposited
                &&& final(budget).exported == carry_sum(t.carry, n)
                &&& final(self).carry@ == Seq::new(n, |c: int| S::of_int(0))
            }),
    {
        let p = self.params;
        let zero = S::whole(0);
        let n: usize = world.len();
        self.carry = copied(&self.cut);
        let ghost start = transport_start(
            world.elevation@,
            world.sediment@,
            self.cut@,
            budget.deposited,
        );
        let mut k: usize = 0;
        while k < n
            invariant
                k <= n,
                n == world.cells(),
                zero == S::of_int(0),
                p == self.params,
                world.wf(),
                self.wf(n as int),
                net.wf(n as int),
                *self == (Erosion { carry: self.carry, ..*old(self) }),
                *world == (World {
                    elevation: world.elevation,
                    sediment: world.sediment,
                    ..*old(world)
                }),
                budget.eroded == old(budget).eroded,
                budget.exported == old(budget).exported,
                (Transport {
                    elevation: world.elevation@,
                    sediment: world.sediment@,
                    carry: self.carry@,
                    deposited: budget.deposited,
                }) == transported(
                    p,
                    old(world).water@,
                    net.order@,
                    net.receiver@,
                    dt,
                    start,
                    k as nat,
                ),
            decreases n - k,
        {
            let idx: usize = net.order[n - 1 - k] as usize;
            let load = self.carry[idx];
            if !load.at_most(zero) {
                let r: i32 = net.receiver[idx];
                if r < 0 {
                    let e = world.elevation[idx].plus(load);
                    let s = world.sediment[idx].plus(load);
                    world.elevation.set(idx, e);
                    world.sediment.set(idx, s);
                    budget.deposited = S::gathered(budget.deposited, load);
                    self.carry.set(idx, zero);
                } else {
                    let share = if zero.less(world.water[idx]) {
                        S::whole(1)
                    } else {
                        clamp_to(p.deposition.times(dt), zero, S::whole(1))
                    };
                    let drop = load.times(share);
                    let e = world.elevation[idx].plus(drop);
                    let s = world.sediment[idx].plus(drop);
                    world.elevation.set(idx, e);
                    world.sediment.set(idx, s);
                    budget.deposited = S::gathered(budget.deposited, drop);
                    self.carry.set(idx, zero);
                    let rest = self.carry[r as usize].plus(load.minus(drop));
                    self.carry.set(r as usize, rest);
                }
            }
            k += 1;
        }
        // Anything still in transit ran off the edge of the world.
        let ghost carry = self.carry@;
        let mut idx: usize = 0;
        while idx < n
            invariant
                idx <= n,
                n == world.cells(),
                zero == S::of_int(0),
                self.wf(n as int),
                carry.len() == n,
                *self == (Erosion { carry: self.carry, ..*old(self) }),
                budget.eroded == old(budget).eroded,
                budget.deposited == transported(
                    p,
                    old(world).water@,
                    net.order@,
                    net.receiver@,
                    dt,
                    start,
                    n as nat,
                ).deposited,
                budget.exported == carry_sum(carry, idx as nat),
                forall|c: int| 0 <= c < idx ==> #[trigger] self.carry@[c] == zero,
                forall|c: int| idx <= c < n ==> #[trigger] self.carry@[c] == carry[c],
            decreases n - idx,
        {
            budget.exported = S::gathered(budget.exported, self.carry[idx]);
            self.carry.set(idx, zero);
            idx += 1;
        }
        proof {
            assert(self.carry@ =~= Seq::new(n as nat, |c: int| S::of_int(0)));
        }
    }

    /// Hillslope creep: nudge each cell toward the average of its neighbours.
    pub fn diffuse(&mut self, world: &mut World<S>, dt: S)
        requires
            old(world).wf(),
            old(self).wf(old(world).cells()),
        ensures
            final(world).wf(),
            final(self).wf(old(world).cells()),
            *final(self) == (Erosion { scratch: final(self).scratch, ..*old(self) }),
            *final(world) == (World { elevation: final(world).elevation, ..*old(world) }),
            final(world).elevation@ == diffused(
                old(self).params,
                old(self).sea_level,
                old(world).width as int,
                old(world).height as int,
                old(world).elevation@,
                dt,
            ),
    {
        let p = self.params;
        let sea = self.sea_level;
        let zero = S::whole(0);
        if p.diffusion.at_most(zero) {
            return;
        }
        let n: usize = world.len();
        let ghost w = world.width as int;
        let ghost h = world.height as int;
        let mut idx: usize = 0;
        while idx < n
            invariant
                idx <= n,
                n == world.cells(),
                w == world.width,
                h == world.height,
                zero == S::of_int(0),
                *world == *old(world),
                world.wf(),
                self.wf(n as int),
                p == self.params,
                sea == self.sea_level,
                *self == (Erosion { scratch: self.scratch, ..*old(self) }),
                forall|c: int|
                    0 <= c < idx ==> #[trigger] self.scratch@[c] == crept(
                        p,
                        sea,
                        w,
                        h,
                        world.elevation@,
                        dt,
                        c,
                    ),
            decreases n - idx,
        {
            let ns = world.neighbors8(idx);
            let mut sum = zero;
            let mut count = zero;
            let mut j: usize = 0;
            while j < ns.len()
                invariant
                    j <= ns@.len(),
                    n == world.cells(),
                    w == world.width,
                    h == world.height,
                    world.wf(),
                    ns@ == neighbors_of(w, h, idx as int),
                    forall|q: int| 0 <= q < ns@.len() ==> (#[trigger] ns@[q]).0 < n,
                    (sum, count) == neighbor_sum(w, h, world.elevation@, idx as int, j as nat),
                decreases ns@.len() - j,
            {
                let (m, dx, dy) = ns[j];
                let weight = if dx != 0 && dy != 0 {
                    S::fraction(1, 2)
                } else {
                    S::whole(1)
                };
                sum = sum.plus(world.elevation[m].times(weight));
                count = count.plus(weight);
                j += 1;
            }
            let e = world.elevation[idx];
            let mean = sum.over(count);
            let rate = if sea.less(e) {
                p.diffusion
            } else {
                p.diffusion.times(p.submarine_diffusion_scale)
            };
            let out = e.plus(mean.minus(e).times(clamp_to(rate.times(dt), zero, S::whole(1))));
            self.scratch.set(idx, out);
            idx += 1;
        }
        world.elevation = copied(&self.scratch);
        proof {
            assert(world.elevation@ =~= diffused(p, sea, w, h, old(world).elevation@, dt));
        }
    }
}

// --- laws ------------------------------------------------------------------
/// Still water does not incise: nothing is cut off the sea floor, off the bed
/// of a lake, or off a cell that drains nowhere.
pub proof fn still_water_is_not_cut<S: Scalar>(
    p: ErosionParams<S>,
    sea: S,
    w: int,
    elevation: Seq<S>,
    flow: Seq<S>,
    water: Seq<S>,
    receiver: Seq<i32>,
    dt: S,
    c: int,
)
    requires
        elevation[c].le(sea) || S::of_int(0).lt(water[c]) || receiver[c] < 0,
    ensures
        cut_at(p, sea, w, elevation, flow, water, receiver, dt, c) == S::of_int(0),
{
}

/// Incision is capped: a river that cuts takes no more than the given fraction
/// of the drop to the cell it drains into.
pub proof fn incision_is_capped<S: Scalar>(
    p: ErosionParams<S>,
    sea: S,
    w: int,
    elevation: Seq<S>,
    flow: Seq<S>,
    water: Seq<S>,
    receiver: Seq<i32>,
    dt: S,
    c: int,
)
    requires
        linearly_ordered::<S>(),
        ({
            let cap = elevation[c].sub(elevation[receiver[c] as int]).mul(p.max_incision_fraction);
            cap.le(cap)
        }),
    ensures
        ({
            let cut = cut_at(p, sea, w, elevation, flow, water, receiver, dt, c);
            let cap = elevation[c].sub(elevation[receiver[c] as int]).mul(p.max_incision_fraction);
            cut == S::of_int(0) || cut.le(cap)
        }),
{
}

/// `amount` and `sum` read off how much a value and a long sum stand for; the
/// operations that move sediment about keep to these amounts, as long as they
/// stay within `limit`.
pub open spec fn sediment_adds_up<S: Scalar>(
    amount: spec_fn(S) -> int,
    sum: spec_fn(S::Wide) -> int,
    limit: int,
) -> bool {
    let zero = S::of_int(0);
    &&& adds_up(amount, limit)
    &&& sum(S::wide_zero()) == 0
    &&& amount(zero) == 0
    &&& forall|a: S| #![trigger a.le(S::of_int(0))] a.le(zero) <==> amount(a) <= 0
    &&& forall|a: S| #![trigger S::of_int(0).lt(a)] zero.lt(a) <==> amount(a) > 0
    &&& forall|w: S::Wide, a: S| #![trigger S::gather(w, a)]
        sum(w) >= 0 && amount(a) >= 0 && sum(w) + amount(a) <= limit ==> sum(S::gather(w, a))
            == sum(w) + amount(a)
    &&& forall|load: S, share: S| #![trigger load.mul(share)]
        amount(load) >= 0 && zero.le(share) && share.le(S::of_int(1)) ==> {
            &&& 0 <= amount(load.mul(share)) <= amount(load)
            &&& amount(load.sub(load.mul(share))) == amount(load) - amount(load.mul(share))
        }
}

proof fn lemma_total_take(s: Seq<int>, n: int)
    requires
        0 <= n < s.len(),
    ensures
        total(s.take(n + 1)) == total(s.take(n)) + s[n],
{
    assert(s.take(n + 1).drop_last() =~= s.take(n));
    assert(s.take(n + 1).last() == s[n]);
}

proof fn lemma_total_prefix(s: Seq<int>, n: int)
    requires
        forall|i: int| 0 <= i < s.len() ==> #[trigger] s[i] >= 0,
        0 <= n <= s.len(),
    ensures
        0 <= total(s.take(n)) <= total(s),
    decreases s.len() - n,
{
    assert forall|i: int| 0 <= i < s.take(n).len() implies #[trigger] s.take(n)[i] >= 0 by {
        assert(s[i] >= 0);
    }
    lemma_total_nonneg(s.take(n));
    if n < s.len() {
        lemma_total_take(s, n);
        lemma_total_prefix(s, n + 1);
        assert(s[n] >= 0);
    } else {
        assert(s.take(n) =~= s);
    }
}

proof fn lemma_sums<S: Scalar>(
    values: Seq<S>,
    amount: spec_fn(S) -> int,
    sum: spec_fn(S::Wide) -> int,
    limit: int,
    n: nat,
)
    requires
        sediment_adds_up(amount, sum, limit),
        n <= values.len(),
        forall|c: int| 0 <= c < values.len() ==> amount(#[trigger] values[c]) >= 0,
        total(amounts(values, amount)) <= limit,
    ensures
        sum(carry_sum(values, n)) == total(amounts(values, amount).take(n as int)),
        sum(cut_sum(values, n)) == total(amounts(values, amount).take(n as int)),
    decreases n,
{
    let s = amounts(values, amount);
    assert forall|c: int| 0 <= c < s.len() implies #[trigger] s[c] >= 0 by {
        assert(amount(values[c]) >= 0);
    }
    lemma_total_prefix(s, n as int);
    if n > 0 {
        lemma_sums(values, amount, sum, limit, (n - 1) as nat);
        lemma_total_take(s, n - 1);
        lemma_total_prefix(s, n - 1);
        assert(s[n - 1] == amount(values[n - 1]));
        let zero = S::of_int(0);
        assert(zero.lt(values[n - 1]) <==> amount(values[n - 1]) > 0);
    } else {
        assert(s.take(0) =~= Seq::<int>::empty());
    }
}

proof fn lemma_transport_keeps_amount<S: Scalar>(
    n: int,
    p: ErosionParams<S>,
    water: Seq<S>,
    order: Seq<u32>,
    receiver: Seq<i32>,
    dt: S,
    start: Transport<S>,
    amount: spec_fn(S) -> int,
    sum: spec_fn(S::Wide) -> int,
    limit: int,
    k: nat,
)
    requires
        sediment_adds_up(amount, sum, limit),
        order.len() == n,
        receiver.len() == n,
        forall|i: int| 0 <= i < n ==> (#[trigger] order[i]) < n,
        forall|c: int| 0 <= c < n ==> -1 <= (#[trigger] receiver[c]) < n,
        start.carry.len() == n,
        k <= n,
        forall|c: int| 0 <= c < n ==> amount(#[trigger] start.carry[c]) >= 0,
        start.deposited == S::wide_zero(),
        total(amounts(start.carry, amount)) <= limit,
        forall|c: int| 0 <= c < n ==> is_share(#[trigger] dropped_share(p, water, dt, c)),
    ensures
        ({
            let t = transported(p, water, order, receiver, dt, start, k);
            &&& t.carry.len() == n
            &&& forall|c: int| 0 <= c < n ==> amount(#[trigger] t.carry[c]) >= 0
            &&& sum(t.deposited) >= 0
            &&& total(amounts(t.carry, amount)) + sum(t.deposited) == total(
                amounts(start.carry, amount),
            )
        }),
    decreases k,
{
    if k > 0 {
        let k0 = (k - 1) as nat;
        lemma_transport_keeps_amount(
            n,
            p,
            water,
            order,
            receiver,
            dt,
            start,
            amount,
            sum,
            limit,
            k0,
        );
        let t0 = transported(p, water, order, receiver, dt, start, k0);
        let t = transported(p, water, order, receiver, dt, start, k);
        let c = order[order.len() - k] as int;
        let r = receiver[c] as int;
        let zero = S::of_int(0);
        let load = t0.carry[c];
        let a0 = amounts(t0.carry, amount);
        let a = amounts(t.carry, amount);
        assert forall|d: int| 0 <= d < a0.len() implies #[trigger] a0[d] >= 0 by {
            assert(amount(t0.carry[d]) >= 0);
        }
        lemma_total_nonneg(a0);
        lemma_total_prefix(a0, c);
        lemma_total_take(a0, c);
        lemma_total_prefix(a0, c + 1);
        assert(a0[c] == amount(load) && a0[c] <= total(a0));
        assert(load.le(zero) <==> amount(load) <= 0);
        if load.le(zero) {
        } else if r < 0 {
            assert(a =~= a0.update(c, 0));
            lemma_total_update(a0, c, 0);
        } else {
            let share = dropped_share(p, water, dt, c);
            assert(is_share(share));
            let drop = load.mul(share);
            let emptied = t0.carry.update(c, zero);
            let e0 = a0.update(c, 0);
            lemma_total_update(a0, c, 0);
            assert(amounts(emptied, amount) =~= e0);
            let rest = load.sub(drop);
            assert(amount(rest) == amount(load) - amount(drop));
            assert forall|d: int| 0 <= d < e0.len() implies #[trigger] e0[d] >= 0 by {
                assert(a0[d] >= 0);
            }
            lemma_total_prefix(e0, r);
            lemma_total_take(e0, r);
            lemma_total_prefix(e0, r + 1);
            assert(e0[r] == amount(emptied[r]));
            assert(e0[r] <= total(e0));
            assert(amount(emptied[r].add(rest)) == e0[r] + amount(rest));
            assert(a =~= e0.update(r, e0[r] + amount(rest)));
            lemma_total_update(e0, r, e0[r] + amount(rest));
        }
        assert forall|d: int| 0 <= d < n implies amount(#[trigger] t.carry[d]) >= 0 by {
            assert(amount(t0.carry[d]) >= 0);
        }
    }
}

/// A part of the whole: between zero and one.
pub open spec fn is_share<S: Scalar>(share: S) -> bool {
    S::of_int(0).le(share) && share.le(S::of_int(1))
}

/// Sediment is conserved: what one step erodes is what it deposits and what it
/// exports, together.
pub proof fn sediment_is_conserved<S: Scalar>(
    n: int,
    p: ErosionParams<S>,
    water: Seq<S>,
    order: Seq<u32>,
    receiver: Seq<i32>,
    dt: S,
    elevation: Seq<S>,
    sediment: Seq<S>,
    cut: Seq<S>,
    amount: spec_fn(S) -> int,
    sum: spec_fn(S::Wide) -> int,
    limit: int,
)
    requires
        sediment_adds_up(amount, sum, limit),
        order.len() == n,
        receiver.len() == n,
        forall|i: int| 0 <= i < n ==> (#[trigger] order[i]) < n,
        forall|c: int| 0 <= c < n ==> -1 <= (#[trigger] receiver[c]) < n,
        cut.len() == n,
        forall|c: int| 0 <= c < n ==> amount(#[trigger] cut[c]) >= 0,
        total(amounts(cut, amount)) <= limit,
        forall|c: int| 0 <= c < n ==> is_share(#[trigger] dropped_share(p, water, dt, c)),
    ensures
        ({
            let t = transported(
                p,
                water,
                order,
                receiver,
                dt,
                transport_start(elevation, sediment, cut, S::wide_zero()),
                n as nat,
            );
            sum(cut_sum(cut, n as nat)) == sum(t.deposited) + sum(carry_sum(t.carry, n as nat))
        }),
{
    let start = transport_start(elevation, sediment, cut, S::wide_zero());
    let t = transported(p, water, order, receiver, dt, start, n as nat);
    lemma_transport_keeps_amount(
        n,
        p,
        water,
        order,
        receiver,
        dt,
        start,
        amount,
        sum,
        limit,
        n as nat,
    );
    lemma_sums(cut, amount, sum, limit, n as nat);
    lemma_sums(t.carry, amount, sum, limit, n as nat);
    assert(amounts(cut, amount).take(n) =~= amounts(cut, amount));
    assert(amounts(t.carry, amount).take(n) =~= amounts(t.carry, amount));
}

/// Fixed-point numbers meet what the conservation of sediment asks of the
/// numbers.
pub proof fn fixed_sediment_adds_up()
    ensures
        sediment_adds_up::<Fixed>(
            |f: Fixed| f.raw as int,
            |w: i128| w as int,
            i64::MAX as int,
        ),
        forall|p: ErosionParams<Fixed>, water: Seq<Fixed>, dt: Fixed, c: int|
            is_share(#[trigger] dropped_share(p, water, dt, c)),
{
    fixed_numbers_drain(Fixed { raw: 0 });
    assert forall|load: Fixed, share: Fixed|
        #![trigger load.mul(share)]
        load.raw >= 0 && Fixed::of_int(0).le(share) && share.le(Fixed::of_int(1)) implies 0
        <= load.mul(share).raw <= load.raw && load.sub(load.mul(share)).raw == load.raw - load.mul(
        share,
    ).raw by {
        let a = load.raw as int;
        let b = share.raw as int;
        assert(0 <= (a * b) / 65536 <= a) by (nonlinear_arith)
            requires
                0 <= a,
                0 <= b <= 65536,
        ;
    }
}

/// Rivers never lower a cell by carrying sediment over it.
pub proof fn transport_only_raises(
    n: int,
    p: ErosionParams<Fixed>,
    water: Seq<Fixed>,
    order: Seq<u32>,
    receiver: Seq<i32>,
    dt: Fixed,
    start: Transport<Fixed>,
    k: nat,
    c: int,
)
    requires
        order.len() == n,
        receiver.len() == n,
        forall|i: int| 0 <= i < n ==> (#[trigger] order[i]) < n,
        start.elevation.len() == n,
        k <= n,
        0 <= c < n,
    ensures
        ({
            let t = transported(p, water, order, receiver, dt, start, k);
            t.elevation.len() == n && start.elevation[c].le(t.elevation[c])
        }),
    decreases k,
{
    if k > 0 {
        let k0 = (k - 1) as nat;
        transport_only_raises(n, p, water, order, receiver, dt, start, k0, c);
        let t0 = transported(p, water, order, receiver, dt, start, k0);
        let d = order[order.len() - k] as int;
        fixed_sediment_adds_up();
        let load = t0.carry[d];
        let share = dropped_share(p, water, dt, d);
        assert(is_share(share));
        if !load.le(Fixed::of_int(0)) {
            let amount = |f: Fixed| f.raw as int;
            assert(0 <= amount(load.mul(share)) <= amount(load));
        }
    }
}

/// Transport takes no sediment off a cell.
pub proof fn transport_takes_no_sediment_away(
    n: int,
    p: ErosionParams<Fixed>,
    water: Seq<Fixed>,
    order: Seq<u32>,
    receiver: Seq<i32>,
    dt: Fixed,
    start: Transport<Fixed>,
    k: nat,
    c: int,
)
    requires
        order.len() == n,
        receiver.len() == n,
        forall|i: int| 0 <= i < n ==> (#[trigger] order[i]) < n,
        start.sediment.len() == n,
        k <= n,
        0 <= c < n,
    ensures
        ({
            let t = transported(p, water, order, receiver, dt, start, k);
            t.sediment.len() == n && start.sediment[c].le(t.sediment[c])
        }),
    decreases k,
{
    if k > 0 {
        let k0 = (k - 1) as nat;
        transport_takes_no_sediment_away(n, p, water, order, receiver, dt, start, k0, c);
        let t0 = transported(p, water, order, receiver, dt, start, k0);
        let d = order[order.len() - k] as int;
        fixed_sediment_adds_up();
        let load = t0.carry[d];
        let share = dropped_share(p, water, dt, d);
        assert(is_share(share));
        if !load.le(Fixed::of_int(0)) {
            let amount = |f: Fixed| f.raw as int;
            assert(0 <= amount(load.mul(share)) <= amount(load));
        }
    }
}

proof fn lemma_sediment_grows<S: Scalar>(
    n: int,
    p: ErosionParams<S>,
    water: Seq<S>,
    order: Seq<u32>,
    receiver: Seq<i32>,
    dt: S,
    start: Transport<S>,
    amount: spec_fn(S) -> int,
    sum: spec_fn(S::Wide) -> int,
    limit: int,
    k: nat,
)
    requires
        sediment_adds_up(amount, sum, limit),
        order.len() == n,
        receiver.len() == n,
        forall|i: int| 0 <= i < n ==> (#[trigger] order[i]) < n,
        forall|c: int| 0 <= c < n ==> -1 <= (#[trigger] receiver[c]) < n,
        start.carry.len() == n,
        start.sediment.len() == n,
        k <= n,
        forall|c: int| 0 <= c < n ==> amount(#[trigger] start.carry[c]) >= 0,
        forall|c: int| 0 <= c < n ==> amount(#[trigger] start.sediment[c]) >= 0,
        start.deposited == S::wide_zero(),
        total(amounts(start.carry, amount)) + total(amounts(start.sediment, amount)) <= limit,
        forall|c: int| 0 <= c < n ==> is_share(#[trigger] dropped_share(p, water, dt, c)),
    ensures
        ({
            let t = transported(p, water, order, receiver, dt, start, k);
            &&& t.sediment.len() == n
            &&& forall|c: int|
                0 <= c < n ==> amount(start.sediment[c]) <= amount(#[trigger] t.sediment[c])
            &&& total(amounts(t.sediment, amount)) == total(amounts(start.sediment, amount)) + sum(
                t.deposited,
            )
        }),
    decreases k,
{
    let begun = amounts(start.sediment, amount);
    assert forall|c: int| 0 <= c < n implies #[trigger] begun[c] >= 0 by {
        assert(amount(start.sediment[c]) >= 0);
    }
    lemma_total_nonneg(begun);
    if k > 0 {
        let k0 = (k - 1) as nat;
        lemma_sediment_grows(
            n,
            p,
            water,
            order,
            receiver,
            dt,
            start,
            amount,
            sum,
            limit,
            k0,
        );
        lemma_transport_keeps_amount(
            n,
            p,
            water,
            order,
            receiver,
            dt,
            start,
            amount,
            sum,
            limit,
            k0,
        );
        let t0 = transported(p, water, order, receiver, dt, start, k0);
        let t = transported(p, water, order, receiver, dt, start, k);
        let c = order[order.len() - k] as int;
        let zero = S::of_int(0);
        let load = t0.carry[c];
        let carried = amounts(t0.carry, amount);
        let s0 = amounts(t0.sediment, amount);
        let s1 = amounts(t.sediment, amount);
        assert forall|d: int| 0 <= d < n implies #[trigger] carried[d] >= 0 by {
            assert(amount(t0.carry[d]) >= 0);
        }
        assert forall|d: int| 0 <= d < n implies #[trigger] s0[d] >= 0 by {
            assert(amount(start.sediment[d]) <= amount(t0.sediment[d]));
            assert(amount(start.sediment[d]) >= 0);
        }
        lemma_member_of_total(carried, c);
        lemma_member_of_total(s0, c);
        assert(carried[c] == amount(load));
        assert(s0[c] == amount(t0.sediment[c]));
        assert(load.le(zero) <==> amount(load) <= 0);
        if !load.le(zero) {
            let share = dropped_share(p, water, dt, c);
            assert(is_share(share));
            let drop = if receiver[c] < 0 {
                load
            } else {
                load.mul(share)
            };
            assert(0 <= amount(load.mul(share)) <= amount(load));
            assert(amount(t0.sediment[c].add(drop)) == s0[c] + amount(drop));
            assert(s1 =~= s0.update(c, s0[c] + amount(drop)));
            lemma_total_update(s0, c, s0[c] + amount(drop));
            assert(sum(t.deposited) == sum(t0.deposited) + amount(drop));
        }
        assert forall|d: int| 0 <= d < n implies amount(start.sediment[d]) <= amount(
            #[trigger] t.sediment[d],
        ) by {
            assert(amount(start.sediment[d]) <= amount(t0.sediment[d]));
        }
    }
}

proof fn lemma_member_of_total(s: Seq<int>, i: int)
    requires
        forall|k: int| 0 <= k < s.len() ==> #[trigger] s[k] >= 0,
        0 <= i < s.len(),
    ensures
        0 <= s[i] <= total(s),
{
    lemma_total_update(s, i, 0);
    let rest = s.update(i, 0);
    assert forall|k: int| 0 <= k < rest.len() implies #[trigger] rest[k] >= 0 by {
        assert(s[k] >= 0);
    }
    lemma_total_nonneg(rest);
}

/// Sediment piles up by what is deposited: no cell loses any, and all cells
/// together gain what the step deposited.
pub proof fn sediment_grows_by_what_is_deposited<S: Scalar>(
    n: int,
    p: ErosionParams<S>,
    water: Seq<S>,
    order: Seq<u32>,
    receiver: Seq<i32>,
    dt: S,
    elevation: Seq<S>,
    sediment: Seq<S>,
    cut: Seq<S>,
    amount: spec_fn(S) -> int,
    sum: spec_fn(S::Wide) -> int,
    limit: int,
)
    requires
        sediment_adds_up(amount, sum, limit),
        order.len() == n,
        receiver.len() == n,
        forall|i: int| 0 <= i < n ==> (#[trigger] order[i]) < n,
        forall|c: int| 0 <= c < n ==> -1 <= (#[trigger] receiver[c]) < n,
        cut.len() == n,
        sediment.len() == n,
        forall|c: int| 0 <= c < n ==> amount(#[trigger] cut[c]) >= 0,
        forall|c: int| 0 <= c < n ==> amount(#[trigger] sediment[c]) >= 0,
        total(amounts(cut, amount)) + total(amounts(sediment, amount)) <= limit,
        forall|c: int| 0 <= c < n ==> is_share(#[trigger] dropped_share(p, water, dt, c)),
    ensures
        ({
            let t = transported(
                p,
                water,
                order,
                receiver,
                dt,
                transport_start(elevation, sediment, cut, S::wide_zero()),
                n as nat,
            );
            &&& t.sediment.len() == n
            &&& forall|c: int|
                0 <= c < n ==> amount(sediment[c]) <= amount(#[trigger] t.sediment[c])
            &&& total(amounts(t.sediment, amount)) == total(amounts(sediment, amount)) + sum(
                t.deposited,
            )
        }),
{
    lemma_sediment_grows(
        n,
        p,
        water,
        order,
        receiver,
        dt,
        transport_start(elevation, sediment, cut, S::wide_zero()),
        amount,
        sum,
        limit,
        n as nat,
    );
}

/// Products and powers keep the order of amounts that are not negative.
pub open spec fn amounts_keep_order<S: Scalar>(exponent: S) -> bool {
    let zero = S::of_int(0);
    &&& forall|a: S, b: S, k: S|
        #![trigger a.mul(k), b.mul(k)]
        zero.le(k) && a.le(b) ==> a.mul(k).le(b.mul(k))
    &&& forall|a: S, b: S, k: S|
        #![trigger k.mul(a), k.mul(b)]
        zero.le(k) && a.le(b) ==> k.mul(a).le(k.mul(b))
    &&& forall|a: S, b: S|
        #![trigger a.pow(exponent), b.pow(exponent)]
        a.le(b) ==> a.pow(exponent).le(b.pow(exponent))
}

/// Bigger rivers cut deeper: with more water on the same slope, no less is cut.
pub proof fn bigger_rivers_cut_deeper<S: Scalar>(
    p: ErosionParams<S>,
    sea: S,
    w: int,
    elevation: Seq<S>,
    flow: Seq<S>,
    more: Seq<S>,
    water: Seq<S>,
    receiver: Seq<i32>,
    dt: S,
    c: int,
)
    requires
        linearly_ordered::<S>(),
        forall|a: S| #[trigger] a.le(a),
        amounts_keep_order(p.area_exponent),
        S::of_int(0).le(p.incision),
        S::of_int(0).le(dt),
        forall|a: S| S::of_int(0).le(#[trigger] a.pow(p.slope_exponent)),
        flow[c].le(more[c]),
    ensures
        cut_at(p, sea, w, elevation, flow, water, receiver, dt, c).le(
            cut_at(p, sea, w, elevation, more, water, receiver, dt, c),
        ),
{
    let zero = S::of_int(0);
    let r = receiver[c] as int;
    assert(zero.le(zero));
    if !(r < 0 || elevation[c].le(sea) || zero.lt(water[c])) {
        let drop = elevation[c].sub(elevation[r]);
        if !drop.le(zero) {
            let slope = drop.div(step_length(w, c, r)).pow(p.slope_exponent);
            lemma_larger(flow[c], zero);
            lemma_larger(more[c], zero);
            let a = larger(flow[c], zero);
            let b = larger(more[c], zero);
            assert(a.le(b));
            let x = a.pow(p.area_exponent);
            let y = b.pow(p.area_exponent);
            assert(x.le(y));
            assert(p.incision.mul(x).le(p.incision.mul(y)));
            assert(p.incision.mul(x).mul(slope).le(p.incision.mul(y).mul(slope)));
            let e = p.incision.mul(x).mul(slope).mul(dt);
            let f = p.incision.mul(y).mul(slope).mul(dt);
            assert(e.le(f));
            let cap = drop.mul(p.max_incision_fraction);
            lemma_smaller(e, cap);
            lemma_smaller(f, cap);
            assert(smaller(e, cap).le(smaller(f, cap)));
        } else {
            assert(zero.le(zero));
        }
    }
}

/// Fixed-point numbers keep the order that the depth of a cut goes by.
pub proof fn fixed_amounts_keep_order(exponent: Fixed)
    ensures
        amounts_keep_order(exponent),
        forall|a: Fixed| #[trigger] a.le(a),
        forall|a: Fixed| Fixed::of_int(0).le(#[trigger] a.pow(exponent)),
{
    let zero = Fixed::of_int(0);
    assert forall|a: Fixed, b: Fixed, k: Fixed|
        #![trigger a.mul(k), b.mul(k)]
        zero.le(k) && a.le(b) implies a.mul(k).le(b.mul(k)) by {
        assert(a.raw * k.raw <= b.raw * k.raw) by (nonlinear_arith)
            requires
                k.raw >= 0,
                a.raw <= b.raw,
        ;
    }
    assert forall|a: Fixed, b: Fixed, k: Fixed|
        #![trigger k.mul(a), k.mul(b)]
        zero.le(k) && a.le(b) implies k.mul(a).le(k.mul(b)) by {
        assert(k.raw * a.raw <= k.raw * b.raw) by (nonlinear_arith)
            requires
                k.raw >= 0,
                a.raw <= b.raw,
        ;
    }
    assert forall|a: Fixed, b: Fixed|
        #![trigger a.pow(exponent), b.pow(exponent)]
        a.le(b) implies a.pow(exponent).le(b.pow(exponent)) by {
        fixed_powers_keep_order(a, b, exponent);
    }
    assert forall|a: Fixed| Fixed::of_int(0).le(#[trigger] a.pow(exponent)) by {
        fixed_powers_keep_order(a, a, exponent);
    }
}

/// A river never cuts below the cell that it drains into.
pub proof fn rivers_stay_above_their_receiver(
    p: ErosionParams<Fixed>,
    sea: Fixed,
    w: int,
    elevation: Seq<Fixed>,
    flow: Seq<Fixed>,
    water: Seq<Fixed>,
    receiver: Seq<i32>,
    dt: Fixed,
    c: int,
)
    requires
        is_share(p.max_incision_fraction),
        0 <= c < elevation.len(),
        ({
            let drop = elevation[c].raw - elevation[receiver[c] as int].raw;
            0 < drop <= i64::MAX
        }),
    ensures
        ({
            let cut = cut_field(p, sea, w, elevation, flow, water, receiver, dt);
            elevation[receiver[c] as int].le(lowered(elevation, cut)[c])
        }),
{
    let cut = cut_field(p, sea, w, elevation, flow, water, receiver, dt);
    let drop = elevation[c].sub(elevation[receiver[c] as int]);
    let share = p.max_incision_fraction;
    assert(0 <= (drop.raw * share.raw) / 65536 <= drop.raw) by (nonlinear_arith)
        requires
            0 < drop.raw,
            0 <= share.raw <= 65536,
    ;
    assert(cut[c] == cut_at(p, sea, w, elevation, flow, water, receiver, dt, c));
    assert(cut[c].raw <= drop.raw);
}

/// Cells that have handed on are empty, as long as nothing comes after them.
proof fn lemma_carry_is_emptied<S: Scalar>(
    n: int,
    p: ErosionParams<S>,
    water: Seq<S>,
    order: Seq<u32>,
    receiver: Seq<i32>,
    dt: S,
    start: Transport<S>,
    k: nat,
    i: int,
)
    requires
        is_network(n, order, receiver),
        start.carry.len() == n,
        S::of_int(0).le(S::of_int(0)),
        k <= n,
        n - k <= i < n,
    ensures
        ({
            let t = transported(p, water, order, receiver, dt, start, k);
            t.carry.len() == n && t.carry[order[i] as int].le(S::of_int(0))
        }),
    decreases k,
{
    if k > 0 {
        let k0 = (k - 1) as nat;
        let at = order.len() - k;
        let c = order[at] as int;
        let t0 = transported(p, water, order, receiver, dt, start, k0);
        lemma_carry_length(n, p, water, order, receiver, dt, start, k0);
        assert(-1 <= receiver[c] < n);
        if i > at {
            lemma_carry_is_emptied(n, p, water, order, receiver, dt, start, k0, i);
            assert(order[i] != order[at]);
        }
        assert(receiver[c] != order[i]) by {
            if receiver[order[at] as int] == order[i] {
                assert(i < at);
            }
        }
    }
}

proof fn lemma_carry_length<S: Scalar>(
    n: int,
    p: ErosionParams<S>,
    water: Seq<S>,
    order: Seq<u32>,
    receiver: Seq<i32>,
    dt: S,
    start: Transport<S>,
    k: nat,
)
    requires
        is_network(n, order, receiver),
        start.carry.len() == n,
        k <= n,
    ensures
        transported(p, water, order, receiver, dt, start, k).carry.len() == n,
    decreases k,
{
    if k > 0 {
        lemma_carry_length(n, p, water, order, receiver, dt, start, (k - 1) as nat);
        let c = order[order.len() - k] as int;
        assert(-1 <= receiver[c] < n);
    }
}

/// Rivers drop all they cut: on a drainage network nothing is left in transit,
/// and what one step erodes it deposits.
pub proof fn rivers_drop_all_they_cut<S: Scalar>(
    n: int,
    p: ErosionParams<S>,
    water: Seq<S>,
    order: Seq<u32>,
    receiver: Seq<i32>,
    dt: S,
    elevation: Seq<S>,
    sediment: Seq<S>,
    cut: Seq<S>,
    amount: spec_fn(S) -> int,
    sum: spec_fn(S::Wide) -> int,
    limit: int,
)
    requires
        is_network(n, order, receiver),
        sediment_adds_up(amount, sum, limit),
        cut.len() == n,
        forall|c: int| 0 <= c < n ==> amount(#[trigger] cut[c]) >= 0,
        total(amounts(cut, amount)) <= limit,
        forall|c: int| 0 <= c < n ==> is_share(#[trigger] dropped_share(p, water, dt, c)),
    ensures
        ({
            let t = transported(
                p,
                water,
                order,
                receiver,
                dt,
                transport_start(elevation, sediment, cut, S::wide_zero()),
                n as nat,
            );
            &&& forall|c: int| 0 <= c < n ==> amount(#[trigger] t.carry[c]) == 0
            &&& sum(carry_sum(t.carry, n as nat)) == 0
            &&& sum(t.deposited) == sum(cut_sum(cut, n as nat))
        }),
{
    let zero = S::of_int(0);
    let start = transport_start(elevation, sediment, cut, S::wide_zero());
    let t = transported(p, water, order, receiver, dt, start, n as nat);
    assert(zero.le(zero)) by {
        assert(zero.le(zero) <==> amount(zero) <= 0);
    }
    lemma_transport_keeps_amount(
        n,
        p,
        water,
        order,
        receiver,
        dt,
        start,
        amount,
        sum,
        limit,
        n as nat,
    );
    lemma_distinct_cells(order, n);
    assert forall|c: int| 0 <= c < n implies amount(#[trigger] t.carry[c]) == 0 by {
        assert(order.contains(c as u32));
        let i = choose|i: int| 0 <= i < order.len() && order[i] == c as u32;
        lemma_carry_is_emptied(n, p, water, order, receiver, dt, start, n as nat, i);
        assert(t.carry[c].le(zero) <==> amount(t.carry[c]) <= 0);
    }
    sediment_is_conserved(
        n,
        p,
        water,
        order,
        receiver,
        dt,
        elevation,
        sediment,
        cut,
        amount,
        sum,
        limit,
    );
    lemma_sums(t.carry, amount, sum, limit, n as nat);
    let rest = amounts(t.carry, amount);
    assert(rest.take(n) =~= rest);
    lemma_total_of_nothing(rest);
}

proof fn lemma_total_of_nothing(s: Seq<int>)
    requires
        forall|i: int| 0 <= i < s.len() ==> #[trigger] s[i] == 0,
    ensures
        total(s) == 0,
    decreases s.len(),
{
    if s.len() > 0 {
        assert forall|i: int| 0 <= i < s.drop_last().len() implies #[trigger] s.drop_last()[i]
            == 0 by {
            assert(s[i] == 0);
        }
        lemma_total_of_nothing(s.drop_last());
        assert(s[s.len() - 1] == 0);
    }
}

proof fn lemma_neighbor_count(w: int, h: int, c: int, k: nat)
    ensures
        neighbors_by(w, h, c, k).len() <= k,
    decreases k,
{
    if k > 0 {
        lemma_neighbor_count(w, h, c, (k - 1) as nat);
    }
}

/// Between two bounds, the weighted sum over the first `k` neighbours stays
/// between the bounds times its weight, but for what halving takes away.
proof fn lemma_neighbor_sum(
    w: int,
    h: int,
    elevation: Seq<Fixed>,
    c: int,
    lo: int,
    hi: int,
    k: nat,
) -> (weight: int)
    requires
        -0x0400_0000_0000_0000 <= lo <= hi <= 0x0400_0000_0000_0000,
        forall|j: int|
            0 <= j < neighbors_of(w, h, c).len() ==> lo <= elevation[(#[trigger] neighbors_of(
                w,
                h,
                c,
            )[j]).0 as int].raw <= hi,
        k <= neighbors_of(w, h, c).len() <= 8,
    ensures
        k <= weight <= 2 * k,
        neighbor_sum(w, h, elevation, c, k).1.raw == weight * 32768,
        lo * weight - weight <= 2 * neighbor_sum(w, h, elevation, c, k).0.raw <= hi * weight,
    decreases k,
{
    let ns = neighbors_of(w, h, c);
    if k == 0 {
        assert(lo * 0 == 0 && hi * 0 == 0) by (nonlinear_arith);
        0
    } else {
        let before = lemma_neighbor_sum(w, h, elevation, c, lo, hi, (k - 1) as nat);
        let (sum, count) = neighbor_sum(w, h, elevation, c, (k - 1) as nat);
        let (n, dx, dy) = ns[k - 1];
        let e = elevation[n as int].raw as int;
        assert(lo <= e <= hi);
        assert(before <= 16);
        assert(lo * before >= -0x4000_0000_0000_0000 && hi * before <= 0x4000_0000_0000_0000)
            by (nonlinear_arith)
            requires
                -0x0400_0000_0000_0000 <= lo <= hi <= 0x0400_0000_0000_0000,
                0 <= before <= 16,
        ;
        let step: int = if dx != 0 && dy != 0 {
            1
        } else {
            2
        };
        let part = elevation[n as int].mul(creep_weight::<Fixed>(dx, dy)).raw as int;
        if step == 1 {
            assert(part == (e * 32768) / 65536);
            assert(e - 1 <= 2 * part <= e);
        } else {
            assert(part == (e * 65536) / 65536);
            assert(part == e);
        }
        let weight = before + step;
        assert(lo * weight == lo * before + lo * step && hi * weight == hi * before + hi * step)
            by (nonlinear_arith)
            requires
                weight == before + step,
        ;
        assert(lo * step <= 2 * part + 1 && 2 * part <= hi * step);
        weight
    }
}

/// Creep rounds off the terrain: it carries no cell above the highest of itself
/// and its neighbours nor, but for the smallest step that rounding takes away,
/// below the lowest of them.
pub proof fn creep_rounds_off(
    p: ErosionParams<Fixed>,
    sea: Fixed,
    w: int,
    h: int,
    elevation: Seq<Fixed>,
    dt: Fixed,
    c: int,
    lo: Fixed,
    hi: Fixed,
)
    requires
        is_grid(w, h),
        0 <= c < w * h,
        -0x0400_0000_0000_0000 <= lo.raw <= hi.raw <= 0x0400_0000_0000_0000,
        lo.le(elevation[c]) && elevation[c].le(hi),
        forall|j: int|
            0 <= j < neighbors_of(w, h, c).len() ==> {
                let e = elevation[(#[trigger] neighbors_of(w, h, c)[j]).0 as int];
                lo.le(e) && e.le(hi)
            },
    ensures
        lo.raw - 1 <= crept(p, sea, w, h, elevation, dt, c).raw <= hi.raw,
{
    lemma_row_in_grid(w, h, c);
    lemma_neighbor_count(w, h, c, 8);
    let k = neighbors_of(w, h, c).len();
    let weight = lemma_neighbor_sum(w, h, elevation, c, lo.raw as int, hi.raw as int, k);
    assert(OFFSETS8[0].0 == 1 && OFFSETS8[0].1 == 0);
    lemma_neighbor_is_listed(w, h, c, 0, 8);
    assert(neighbors_of(w, h, c) == neighbors_by(w, h, c, 8));
    assert(k >= 1);
    let (sum, count) = neighbor_sum(w, h, elevation, c, k);
    let s = sum.raw as int;
    let l = lo.raw as int;
    let u = hi.raw as int;
    let mean = (s * 65536) / (weight * 32768);
    assert(l - 1 <= mean <= u) by (nonlinear_arith)
        requires
            mean == (s * 65536) / (weight * 32768),
            weight >= 1,
            l * weight - weight <= 2 * s <= u * weight,
    ;
    assert(sum.div(count).raw == mean);
    let e = elevation[c];
    assert(l <= e.raw <= u);
    let rate = if sea.lt(e) {
        p.diffusion
    } else {
        p.diffusion.mul(p.submarine_diffusion_scale)
    };
    let t = clamped(rate.mul(dt), Fixed::of_int(0), Fixed::of_int(1)).raw as int;
    assert(0 <= t <= 65536);
    let d = mean - e.raw;
    let part = (d * t) / 65536;
    assert((d >= 0 ==> 0 <= part <= d) && (d <= 0 ==> d <= part <= 0)) by (nonlinear_arith)
        requires
            part == (d * t) / 65536,
            0 <= t <= 65536,
    ;
}

} // verus!
