//! Rainfall and water routing.
//!
//! Rivers are never drawn. They emerge from flow accumulation over the
//! heightfield, which is what lets tectonics and erosion interact: a new
//! mountain range immediately changes where the water goes.
//!
//! The routing uses priority flood with an epsilon tilt. One pass fills every
//! depression up to its outlet and yields a descending drainage direction for
//! every cell. The order in which the flood passes the cells is kept: it is a
//! topological order of the drainage network, so flow accumulation is a single
//! reverse sweep.

use crate::fixed::{fixed_numbers_are_ordered, Fixed};
use crate::flood::{
    filled_surface_covers_the_terrain, flood, flooded, is_outlet, water_comes_from_a_neighbour,
};
use crate::math::{
    delta_between, hermite, smoothstep, smoothstep_stays_between_zero_and_one, Vec2,
};
use crate::scalar::{abs_of, copied, larger, magnitude, max_of, repeated, Scalar};
use crate::world::{
    is_grid, lemma_neighbors_in_grid, lemma_row_in_grid, latitude_of, neighbor_of, neighbors_by,
    neighbors_of, World,
};
use vstd::prelude::*;

verus! {

#[derive(Clone, Copy, Debug)]
pub struct HydrologyParams<S> {
    /// Rain that falls regardless of latitude.
    pub base_rainfall: S,
    /// Extra rain where wind climbs terrain, and the rain shadow behind it.
    pub orographic_gain: S,
    pub rain_shadow: S,
    /// Amplitude and scale of the noise that breaks up the latitude bands.
    pub rain_noise: S,
    pub rain_feature_size: S,
    /// Tilt applied inside filled depressions so water still has somewhere to
    /// go.
    pub fill_epsilon: S,
}

pub open spec fn default_hydrology<S: Scalar>() -> HydrologyParams<S> {
    HydrologyParams {
        base_rainfall: S::ratio(15, 100),
        orographic_gain: S::ratio(16, 10),
        rain_shadow: S::ratio(11, 10),
        rain_noise: S::ratio(35, 100),
        rain_feature_size: S::of_int(90),
        fill_epsilon: S::ratio(1, 10_000),
    }
}

impl<S: Scalar> Default for HydrologyParams<S> {
    fn default() -> (r: Self)
        ensures
            r == default_hydrology::<S>(),
            r.base_rainfall == S::ratio(15, 100),
            r.orographic_gain == S::ratio(16, 10),
            r.rain_shadow == S::ratio(11, 10),
            r.rain_noise == S::ratio(35, 100),
            r.rain_feature_size == S::of_int(90),
            r.fill_epsilon == S::ratio(1, 10_000),
    {
        HydrologyParams {
            base_rainfall: S::fraction(15, 100),
            orographic_gain: S::fraction(16, 10),
            rain_shadow: S::fraction(11, 10),
            rain_noise: S::fraction(35, 100),
            rain_feature_size: S::whole(90),
            fill_epsilon: S::fraction(1, 10_000),
        }
    }
}

/// The drainage network for the current heightfield.
pub struct FlowNetwork<S> {
    /// Elevation with depressions filled, tilted so every cell drains.
    pub filled: Vec<S>,
    /// Downstream neighbour, or -1 for an outlet (ocean or map edge).
    pub receiver: Vec<i32>,
    /// Cells in ascending `filled` order - a topological order of the network.
    pub order: Vec<u32>,
}

impl<S: Scalar> FlowNetwork<S> {
    pub fn new(n: usize) -> (r: Self)
        ensures
            r.filled@ == Seq::new(n as nat, |i: int| S::of_int(0)),
            r.receiver@ == Seq::new(n as nat, |i: int| -1i32),
            r.order@ == Seq::<u32>::empty(),
    {
        FlowNetwork {
            filled: repeated(S::whole(0), n),
            receiver: repeated(-1, n),
            order: Vec::with_capacity(n),
        }
    }

    /// The network belongs to a world of `n` cells.
    pub open spec fn wf(&self, n: int) -> bool {
        &&& self.receiver@.len() == n
        &&& self.order@.len() == n
        &&& forall|i: int| 0 <= i < n ==> (#[trigger] self.order@[i]) < n
        &&& forall|i: int| 0 <= i < n ==> -1 <= (#[trigger] self.receiver@[i]) < n
    }
}

pub struct Hydrology<S> {
    pub params: HydrologyParams<S>,
    pub sea_level: S,
    /// The large-scale noise under the rain, one value per cell.
    pub rain_noise: Vec<S>,
}

// --- rain ------------------------------------------------------------------
pub open spec fn band_rain<S: Scalar>(lat: S) -> S {
    let t = lat.div(S::of_int(11));
    let itcz = t.mul(t).neg().exp();
    let u = magnitude(lat).sub(S::of_int(52)).div(S::of_int(16));
    let storm_track = S::ratio(55, 100).mul(u.mul(u).neg().exp());
    S::ratio(95, 100).mul(itcz).add(storm_track)
}

/// Rain by latitude: an equatorial peak, dry subtropics around 30 degrees, and
/// a secondary mid-latitude storm-track peak. Shape only - amplitude is tuned
/// by the params.
fn latitude_rainfall<S: Scalar>(lat: S) -> (r: S)
    ensures
        r == band_rain(lat),
{
    let t = lat.over(S::whole(11));
    let itcz = t.times(t).negated().exponential();
    let u = abs_of(lat).minus(S::whole(52)).over(S::whole(16));
    let storm_track = S::fraction(55, 100).times(u.times(u).negated().exponential());
    S::fraction(95, 100).times(itcz).plus(storm_track)
}

/// Trade winds and polar winds blow west, mid-latitude winds blow east.
pub open spec fn wind_at<S: Scalar>(lat: S) -> Vec2<S> {
    let a = magnitude(lat);
    if a.lt(S::of_int(30)) {
        Vec2 { x: S::of_int(-1), y: S::of_int(0) }
    } else if a.lt(S::of_int(60)) {
        Vec2 { x: S::of_int(1), y: S::of_int(0) }
    } else {
        Vec2 { x: S::of_int(-1), y: S::of_int(0) }
    }
}

/// Prevailing surface wind: trade easterlies, mid-latitude westerlies, polar
/// easterlies. Only the x direction matters for the orographic term.
fn prevailing_wind<S: Scalar>(lat: S) -> (r: Vec2<S>)
    ensures
        r == wind_at(lat),
{
    let a = abs_of(lat);
    if a.less(S::whole(30)) {
        Vec2::new(S::whole(-1), S::whole(0))
    } else if a.less(S::whole(60)) {
        Vec2::new(S::whole(1), S::whole(0))
    } else {
        Vec2::new(S::whole(-1), S::whole(0))
    }
}

/// The column offset to where the air comes from.
pub open spec fn upwind<S: Scalar>(wind: Vec2<S>) -> int {
    if S::of_int(0).lt(wind.x) {
        -1
    } else {
        1
    }
}

/// Rain on cell `c` before the terrain has its say.
pub open spec fn rain_from_above<S: Scalar>(
    p: HydrologyParams<S>,
    h: int,
    w: int,
    noise: Seq<S>,
    c: int,
) -> S {
    let band = band_rain(latitude_of::<S>(h, c / w));
    larger(band.add(p.rain_noise.mul(noise[c])), S::of_int(0)).add(p.base_rainfall)
}

/// How far the air has climbed on its way to cell `c`, over land or open water.
pub open spec fn climb_to<S: Scalar>(w: int, h: int, elevation: Seq<S>, sea: S, c: int) -> S {
    let wind = wind_at(latitude_of::<S>(h, c / w));
    let up = neighbor_of(w, h, c % w, c / w, upwind(wind), 0)->0;
    elevation[c].sub(larger(elevation[up], sea))
}

/// Rain on cell `c`.
pub open spec fn rain_at<S: Scalar>(
    p: HydrologyParams<S>,
    w: int,
    h: int,
    elevation: Seq<S>,
    sea: S,
    noise: Seq<S>,
    c: int,
) -> S {
    let rain = rain_from_above(p, h, w, noise, c);
    if sea.lt(elevation[c]) {
        let climb = climb_to(w, h, elevation, sea, c);
        let steep = S::ratio(5, 2);
        if S::of_int(0).lt(climb) {
            rain.mul(
                S::of_int(1).add(p.orographic_gain.mul(hermite(S::of_int(0), steep, climb))),
            )
        } else {
            rain.div(
                S::of_int(1).add(p.rain_shadow.mul(hermite(S::of_int(0), steep, climb.neg()))),
            )
        }
    } else {
        rain
    }
}

// --- drainage --------------------------------------------------------------
/// The distance that a step covers.
pub open spec fn stride<S: Scalar>(dx: i64, dy: i64) -> S {
    if dx != 0 && dy != 0 {
        S::of_int(2).sqrt()
    } else {
        S::of_int(1)
    }
}

/// The slope of the filled surface from `c` down to its neighbour number `j`.
pub open spec fn descent<S: Scalar>(w: int, h: int, filled: Seq<S>, c: int, j: int) -> S {
    let (n, dx, dy) = neighbors_of(w, h, c)[j];
    filled[c].sub(filled[n as int]).div(stride(dx, dy))
}

/// The steepest way down from `c` among its first `k` neighbours, and its
/// slope; -1 where none of them leads down.
pub open spec fn steepest<S: Scalar>(w: int, h: int, filled: Seq<S>, c: int, k: nat) -> (i32, S)
    decreases k,
{
    if k == 0 {
        (-1i32, S::of_int(0))
    } else {
        let (best, best_drop) = steepest(w, h, filled, c, (k - 1) as nat);
        let drop = descent(w, h, filled, c, k - 1);
        if best_drop.lt(drop) {
            (neighbors_of(w, h, c)[k - 1].0 as i32, drop)
        } else {
            (best, best_drop)
        }
    }
}

/// Where the water on cell `c` goes.
pub open spec fn receiver_of<S: Scalar>(
    w: int,
    h: int,
    elevation: Seq<S>,
    sea: S,
    filled: Seq<S>,
    c: int,
) -> i32 {
    if elevation[c].le(sea) {
        -1i32
    } else {
        steepest(w, h, filled, c, neighbors_of(w, h, c).len()).0
    }
}

/// Where the water on each cell goes.
pub open spec fn receivers<S: Scalar>(
    w: int,
    h: int,
    elevation: Seq<S>,
    sea: S,
    filled: Seq<S>,
) -> Seq<i32> {
    Seq::new((w * h) as nat, |c: int| receiver_of(w, h, elevation, sea, filled, c))
}

/// Standing water on cell `c`, where the flood rose to `level`.
pub open spec fn lake_depth<S: Scalar>(elevation: Seq<S>, sea: S, level: Seq<S>, c: int) -> S {
    if elevation[c].le(sea) {
        S::of_int(0)
    } else {
        larger(level[c].sub(elevation[c]), S::of_int(0))
    }
}

/// Flow after the last `k` cells of the order have handed theirs on.
pub open spec fn swept<S: Scalar>(
    rain: Seq<S>,
    order: Seq<u32>,
    receiver: Seq<i32>,
    k: nat,
) -> Seq<S>
    decreases k,
{
    if k == 0 {
        rain
    } else {
        let flow = swept(rain, order, receiver, (k - 1) as nat);
        let c = order[order.len() - k] as int;
        let r = receiver[c] as int;
        if r >= 0 {
            flow.update(r, flow[r].add(flow[c]))
        } else {
            flow
        }
    }
}

/// Flow accumulated down the whole network.
pub open spec fn accumulated<S: Scalar>(
    rain: Seq<S>,
    order: Seq<u32>,
    receiver: Seq<i32>,
) -> Seq<S> {
    swept(rain, order, receiver, order.len())
}

proof fn lemma_steepest_in_grid<S: Scalar>(w: int, h: int, filled: Seq<S>, c: int, k: nat)
    requires
        crate::world::is_grid(w, h),
        0 <= c < w * h <= i32::MAX,
        k <= neighbors_of(w, h, c).len(),
    ensures
        -1 <= steepest(w, h, filled, c, k).0 < w * h,
    decreases k,
{
    if k > 0 {
        lemma_steepest_in_grid(w, h, filled, c, (k - 1) as nat);
        lemma_neighbors_in_grid(w, h, c, 8);
        assert(0 <= neighbors_by(w, h, c, 8)[k - 1].0 < w * h);
    }
}

impl<S: Scalar> Hydrology<S> {
    pub fn new(params: HydrologyParams<S>, sea_level: S, rain_noise: Vec<S>) -> (r: Self)
        ensures
            r == (Hydrology { params, sea_level, rain_noise }),
    {
        Hydrology { params, sea_level, rain_noise }
    }

    /// Fill `world.rainfall`.
    ///
    /// Three ingredients: a latitude profile (wet equator, dry subtropics, wet
    /// mid-latitudes), large-scale noise so the bands are not stripes, and an
    /// orographic term that wrings rain out of air climbing terrain and starves
    /// the far side. Prevailing wind direction comes from the latitude band,
    /// which is why mountain ranges end up with a wet and a dry flank.
    pub fn rainfall(&self, world: &mut World<S>)
        requires
            old(world).wf(),
            self.rain_noise@.len() == old(world).cells(),
        ensures
            final(world).wf(),
            *final(world) == (World { rainfall: final(world).rainfall, ..*old(world) }),
            final(world).rainfall@ == Seq::new(
                old(world).cells() as nat,
                |c: int|
                    rain_at(
                        self.params,
                        old(world).width as int,
                        old(world).height as int,
                        old(world).elevation@,
                        self.sea_level,
                        self.rain_noise@,
                        c,
                    ),
            ),
    {
        let p = self.params;
        let sea = self.sea_level;
        let n: usize = world.len();
        let ghost w = world.width as int;
        let ghost h = world.height as int;
        let ghost elevation = world.elevation@;
        let mut idx: usize = 0;
        while idx < n
            invariant
                idx <= n,
                n == world.cells(),
                p == self.params,
                sea == self.sea_level,
                old(world).wf(),
                world.wf(),
                self.rain_noise@.len() == n,
                w == world.width,
                h == world.height,
                elevation == old(world).elevation@,
                *world == (World { rainfall: world.rainfall, ..*old(world) }),
                forall|c: int|
                    0 <= c < idx ==> #[trigger] world.rainfall@[c] == rain_at(
                        p,
                        w,
                        h,
                        elevation,
                        sea,
                        self.rain_noise@,
                        c,
                    ),
            decreases n - idx,
        {
            let (x, y) = world.coords(idx);
            proof {
                lemma_row_in_grid(w, h, idx as int);
            }
            let lat: S = world.latitude(y);
            let band = latitude_rainfall(lat);
            let wind = prevailing_wind(lat);
            let noise = self.rain_noise[idx];
            let mut rain = max_of(band.plus(p.rain_noise.times(noise)), S::whole(0)).plus(
                p.base_rainfall,
            );
            // Air arrives from upwind; compare terrain there to here.
            let here = world.elevation[idx];
            if sea.less(here) {
                let step: i64 = if S::whole(0).less(wind.x) {
                    -1
                } else {
                    1
                };
                let up: usize = match world.neighbor(x, y, step, 0) {
                    Some(up) => up,
                    None => idx,
                };
                let climb = here.minus(max_of(world.elevation[up], sea));
                let steep = S::fraction(5, 2);
                if S::whole(0).less(climb) {
                    rain = rain.times(
                        S::whole(1).plus(
                            p.orographic_gain.times(smoothstep(S::whole(0), steep, climb)),
                        ),
                    );
                } else {
                    rain = rain.over(
                        S::whole(1).plus(
                            p.rain_shadow.times(smoothstep(S::whole(0), steep, climb.negated())),
                        ),
                    );
                }
            }
            world.rainfall.set(idx, rain);
            idx += 1;
        }
        proof {
            assert(world.rainfall@ =~= Seq::new(
                n as nat,
                |c: int| rain_at(p, w, h, elevation, sea, self.rain_noise@, c),
            ));
        }
    }

    /// Fill depressions, pick drainage directions, and accumulate flow.
    ///
    /// Writes `world.water` (lake depth) and `world.flow` (upstream rainfall).
    pub fn route(&self, world: &mut World<S>, net: &mut FlowNetwork<S>)
        requires
            old(world).wf(),
            old(world).cells() <= i32::MAX,
        ensures
            final(world).wf(),
            *final(world) == (World {
                water: final(world).water,
                flow: final(world).flow,
                ..*old(world)
            }),
            final(net).wf(old(world).cells()),
            ({
                let w = old(world).width as int;
                let h = old(world).height as int;
                let elevation = old(world).elevation@;
                let f = flooded(w, h, elevation, self.sea_level, self.params.fill_epsilon);
                &&& final(net).filled@ == f.filled
                &&& final(net).order@ == f.order
                &&& final(net).receiver@ == receivers(w, h, elevation, self.sea_level, f.filled)
                &&& final(world).water@ == Seq::new(
                    (w * h) as nat,
                    |c: int| lake_depth(elevation, self.sea_level, f.level, c),
                )
                &&& final(world).flow@ == accumulated(
                    old(world).rainfall@,
                    f.order,
                    final(net).receiver@,
                )
            }),
    {
        let sea = self.sea_level;
        let n: usize = world.len();
        let ghost w = world.width as int;
        let ghost h = world.height as int;
        let ghost elevation = world.elevation@;
        let (filled, level, order) = flood(&*world, sea, self.params.fill_epsilon);
        let mut receiver: Vec<i32> = repeated(-1, n);
        // Steepest descent on the filled surface.
        let mut idx: usize = 0;
        while idx < n
            invariant
                idx <= n,
                n == world.cells(),
                n <= i32::MAX,
                sea == self.sea_level,
                world.wf(),
                w == world.width,
                h == world.height,
                elevation == world.elevation@,
                filled@.len() == n,
                level@.len() == n,
                receiver@.len() == n,
                *world == (World { water: world.water, ..*old(world) }),
                forall|c: int|
                    0 <= c < idx ==> #[trigger] world.water@[c] == lake_depth(
                        elevation,
                        sea,
                        level@,
                        c,
                    ),
                forall|c: int|
                    0 <= c < idx ==> #[trigger] receiver@[c] == receiver_of(
                        w,
                        h,
                        elevation,
                        sea,
                        filled@,
                        c,
                    ),
                forall|c: int| 0 <= c < n ==> -1 <= #[trigger] receiver@[c] < n,
            decreases n - idx,
        {
            let e = world.elevation[idx];
            if e.at_most(sea) {
                receiver.set(idx, -1);
                world.water.set(idx, S::whole(0));
            } else {
                world.water.set(idx, max_of(level[idx].minus(e), S::whole(0)));
                let here = filled[idx];
                let mut best: i32 = -1;
                let mut best_drop = S::whole(0);
                let ns = world.neighbors8(idx);
                let mut j: usize = 0;
                while j < ns.len()
                    invariant
                        j <= ns@.len(),
                        n == w * h,
                        n <= i32::MAX,
                        idx < n,
                        crate::world::is_grid(w, h),
                        filled@.len() == n,
                        here == filled@[idx as int],
                        ns@ == neighbors_of(w, h, idx as int),
                        forall|q: int| 0 <= q < ns@.len() ==> (#[trigger] ns@[q]).0 < n,
                        (best, best_drop) == steepest(w, h, filled@, idx as int, j as nat),
                    decreases ns@.len() - j,
                {
                    let (m, dx, dy) = ns[j];
                    let dist = if dx != 0 && dy != 0 {
                        S::whole(2).root()
                    } else {
                        S::whole(1)
                    };
                    let drop = here.minus(filled[m]).over(dist);
                    if best_drop.less(drop) {
                        best_drop = drop;
                        best = m as i32;
                    }
                    j += 1;
                }
                proof {
                    lemma_steepest_in_grid(w, h, filled@, idx as int, ns@.len());
                }
                receiver.set(idx, best);
            }
            idx += 1;
        }
        proof {
            assert(world.water@ =~= Seq::new(
                n as nat,
                |c: int| lake_depth(elevation, sea, level@, c),
            ));
            assert(receiver@ =~= receivers(w, h, elevation, sea, filled@));
        }
        // Accumulate downstream. `order` ascends, so walking it backwards
        // always visits a cell before the cell it drains into.
        world.flow = copied(&world.rainfall);
        let mut k: usize = 0;
        while k < n
            invariant
                k <= n,
                n == world.cells(),
                world.wf(),
                order@.len() == n,
                receiver@.len() == n,
                forall|i: int| 0 <= i < n ==> (#[trigger] order@[i]) < n,
                forall|c: int| 0 <= c < n ==> -1 <= #[trigger] receiver@[c] < n,
                *world == (World { water: world.water, flow: world.flow, ..*old(world) }),
                world.water@ == Seq::new(
                    (w * h) as nat,
                    |c: int| lake_depth(elevation, sea, level@, c),
                ),
                world.flow@ == swept(old(world).rainfall@, order@, receiver@, k as nat),
            decreases n - k,
        {
            let c: usize = order[n - 1 - k] as usize;
            let r: i32 = receiver[c];
            if r >= 0 {
                let sum = world.flow[r as usize].plus(world.flow[c]);
                world.flow.set(r as usize, sum);
            }
            k += 1;
        }
        net.filled = filled;
        net.receiver = receiver;
        net.order = order;
    }
}

/// Distance between a cell and its receiver, for slope calculations.
pub fn step_distance<S: Scalar>(world: &World<S>, from: usize, to: usize) -> (r: S)
    requires
        0 < world.width <= i64::MAX,
        from <= i64::MAX,
        to <= i64::MAX,
    ensures
        r == step_length::<S>(world.width as int, from as int, to as int),
{
    let (fx, fy) = world.coords(from);
    let (tx, ty) = world.coords(to);
    proof {
        lemma_row_small(world.width as int, from as int);
        lemma_row_small(world.width as int, to as int);
    }
    let d = world.delta(
        S::whole(tx as i64),
        S::whole(ty as i64),
        S::whole(fx as i64),
        S::whole(fy as i64),
    );
    max_of(d.length(), S::fraction(1, 1_000_000))
}

proof fn lemma_row_small(w: int, c: int)
    requires
        w > 0,
        c >= 0,
    ensures
        0 <= c / w <= c,
        0 <= c % w <= c,
{
    vstd::arithmetic::div_mod::lemma_fundamental_div_mod(c, w);
    vstd::arithmetic::div_mod::lemma_div_pos_is_pos(c, w);
    assert(c / w <= w * (c / w)) by (nonlinear_arith)
        requires
            w >= 1,
            c / w >= 0,
    ;
}

/// The length of the shortest way from one cell to another, kept above zero.
pub open spec fn step_length<S: Scalar>(w: int, from: int, to: int) -> S {
    let d = delta_between(
        w,
        S::of_int(to % w),
        S::of_int(to / w),
        S::of_int(from % w),
        S::of_int(from / w),
    );
    larger(d.squared().sqrt(), S::ratio(1, 1_000_000))
}

// --- laws ------------------------------------------------------------------
/// Factors above 1 make an amount no smaller, divisors above 1 make it no
/// larger, and a share of it is no more than all of it.
pub open spec fn amounts_scale<S: Scalar>() -> bool {
    let zero = S::of_int(0);
    let one = S::of_int(1);
    &&& forall|a: S, b: S| zero.le(a) && one.le(b) ==> a.le(#[trigger] a.mul(b))
    &&& forall|a: S, b: S| zero.le(a) && one.le(b) ==> (#[trigger] a.div(b)).le(a)
    &&& forall|a: S, b: S, c: S|
        #![trigger a.div(b), a.div(c)]
        zero.le(a) && one.le(b) && b.le(c) ==> a.div(c).le(a.div(b))
    &&& forall|a: S| zero.le(a) ==> one.le(#[trigger] one.add(a))
    &&& forall|a: S, b: S|
        #![trigger one.add(a), one.add(b)]
        a.le(b) ==> one.add(a).le(one.add(b))
    &&& forall|a: S, b: S|
        zero.le(a) && zero.le(b) && b.le(one) ==> zero.le(#[trigger] a.mul(b)) && a.mul(b).le(a)
}

/// Mountains wring out the rain: where the air climbs it rains no less than it
/// would on flat land, and behind the ridge no more, but never below the share
/// that the full rain shadow leaves.
pub proof fn mountains_catch_the_rain<S: Scalar>(
    p: HydrologyParams<S>,
    w: int,
    h: int,
    elevation: Seq<S>,
    sea: S,
    noise: Seq<S>,
    c: int,
)
    requires
        amounts_scale::<S>(),
        sea.lt(elevation[c]),
        S::of_int(0).le(rain_from_above(p, h, w, noise, c)),
        S::of_int(0).le(p.orographic_gain),
        S::of_int(0).le(p.rain_shadow),
        ({
            let climb = climb_to(w, h, elevation, sea, c);
            let up = hermite(S::of_int(0), S::ratio(5, 2), climb);
            let down = hermite(S::of_int(0), S::ratio(5, 2), climb.neg());
            &&& S::of_int(0).le(up) && up.le(S::of_int(1))
            &&& S::of_int(0).le(down) && down.le(S::of_int(1))
        }),
    ensures
        ({
            let rain = rain_from_above(p, h, w, noise, c);
            let climb = climb_to(w, h, elevation, sea, c);
            let r = rain_at(p, w, h, elevation, sea, noise, c);
            if S::of_int(0).lt(climb) {
                rain.le(r)
            } else {
                r.le(rain) && rain.div(S::of_int(1).add(p.rain_shadow)).le(r)
            }
        }),
{
    let zero = S::of_int(0);
    let one = S::of_int(1);
    let steep = S::ratio(5, 2);
    let rain = rain_from_above(p, h, w, noise, c);
    let climb = climb_to(w, h, elevation, sea, c);
    if zero.lt(climb) {
        let part = p.orographic_gain.mul(hermite(zero, steep, climb));
        assert(zero.le(part));
        assert(one.le(one.add(part)));
    } else {
        let part = p.rain_shadow.mul(hermite(zero, steep, climb.neg()));
        assert(zero.le(part) && part.le(p.rain_shadow));
        assert(one.le(one.add(part)));
        assert(one.add(part).le(one.add(p.rain_shadow)));
    }
}

/// Rain falls on the sea as the sky gives it, and at least the base rainfall,
/// where rain that is not negative adds to it.
pub proof fn the_sea_gets_the_rain_from_above<S: Scalar>(
    p: HydrologyParams<S>,
    w: int,
    h: int,
    elevation: Seq<S>,
    sea: S,
    noise: Seq<S>,
    c: int,
)
    requires
        !sea.lt(elevation[c]),
        ({
            let sky = larger(
                band_rain(latitude_of::<S>(h, c / w)).add(p.rain_noise.mul(noise[c])),
                S::of_int(0),
            );
            p.base_rainfall.le(sky.add(p.base_rainfall))
        }),
    ensures
        rain_at(p, w, h, elevation, sea, noise, c) == rain_from_above(p, h, w, noise, c),
        p.base_rainfall.le(rain_at(p, w, h, elevation, sea, noise, c)),
{
}

/// The air comes from the east in the trade winds and near the poles, and from
/// the west between them.
pub proof fn winds_go_by_latitude<S: Scalar>(lat: S)
    requires
        S::of_int(0).lt(S::of_int(1)),
        !S::of_int(0).lt(S::of_int(-1)),
    ensures
        upwind(wind_at(lat)) == if magnitude(lat).lt(S::of_int(30)) || !magnitude(lat).lt(
            S::of_int(60),
        ) {
            1int
        } else {
            -1int
        },
{
}

/// Fixed-point amounts scale, no rain falls short of the base rainfall, and
/// land that the air reaches on the level gets the rain of its latitude, neither
/// more nor less.
pub proof fn fixed_rain_follows_the_terrain(
    p: HydrologyParams<Fixed>,
    w: int,
    h: int,
    elevation: Seq<Fixed>,
    sea: Fixed,
    noise: Seq<Fixed>,
    c: int,
)
    requires
        Fixed::of_int(0).le(p.base_rainfall),
        Fixed::of_int(0).le(p.orographic_gain),
        Fixed::of_int(0).le(p.rain_shadow),
    ensures
        amounts_scale::<Fixed>(),
        ({
            let rain = rain_from_above(p, h, w, noise, c);
            let climb = climb_to(w, h, elevation, sea, c);
            let r = rain_at(p, w, h, elevation, sea, noise, c);
            &&& p.base_rainfall.le(rain)
            &&& !sea.lt(elevation[c]) || climb == Fixed::of_int(0) ==> r == rain
            &&& sea.lt(elevation[c]) && Fixed::of_int(0).lt(climb) ==> rain.le(r)
            &&& sea.lt(elevation[c]) && climb.lt(Fixed::of_int(0)) ==> r.le(rain) && rain.div(
                Fixed::of_int(1).add(p.rain_shadow),
            ).le(r)
        }),
{
    let zero = Fixed::of_int(0);
    let one = Fixed::of_int(1);
    assert forall|a: Fixed, b: Fixed| zero.le(a) && one.le(b) implies a.le(#[trigger] a.mul(b)) by {
        assert((a.raw * b.raw) / 65536 >= a.raw) by (nonlinear_arith)
            requires
                a.raw >= 0,
                b.raw >= 65536,
        ;
    }
    assert forall|a: Fixed, b: Fixed| zero.le(a) && one.le(b) implies (#[trigger] a.div(b)).le(
        a,
    ) by {
        assert((a.raw * 65536) / b.raw as int <= a.raw) by (nonlinear_arith)
            requires
                a.raw >= 0,
                b.raw >= 65536,
        ;
    }
    assert forall|a: Fixed, b: Fixed, c: Fixed|
        #![trigger a.div(b), a.div(c)]
        zero.le(a) && one.le(b) && b.le(c) implies a.div(c).le(a.div(b)) by {
        let n = a.raw * 65536;
        vstd::arithmetic::div_mod::lemma_div_is_ordered_by_denominator(
            n,
            b.raw as int,
            c.raw as int,
        );
    }
    assert forall|a: Fixed, b: Fixed| zero.le(a) && zero.le(b) && b.le(one) implies zero.le(
        #[trigger] a.mul(b),
    ) && a.mul(b).le(a) by {
        assert(0 <= (a.raw * b.raw) / 65536 <= a.raw) by (nonlinear_arith)
            requires
                a.raw >= 0,
                0 <= b.raw <= 65536,
        ;
    }
    let steep = Fixed::ratio(5, 2);
    let rain = rain_from_above(p, h, w, noise, c);
    let climb = climb_to(w, h, elevation, sea, c);
    smoothstep_stays_between_zero_and_one(zero, steep, climb);
    smoothstep_stays_between_zero_and_one(zero, steep, climb.neg());
    assert(zero.le(rain));
    if sea.lt(elevation[c]) {
        mountains_catch_the_rain(p, w, h, elevation, sea, noise, c);
        if climb == zero {
            assert(hermite(zero, steep, zero) == zero) by {
                assert(0int / 163840 == 0);
                assert(zero.mul(zero) == zero);
                assert forall|a: Fixed| #[trigger] zero.mul(a) == zero by {
                    assert(0 * a.raw == 0);
                }
            }
            assert(p.rain_shadow.mul(zero) == zero) by {
                assert(p.rain_shadow.raw * 0 == 0);
            }
            assert(rain.div(one) == rain) by {
                assert(one.raw == 65536);
                assert((rain.raw * 65536) / 65536 == rain.raw);
            }
        }
    }
}

/// Lakes stand at the level of the flood: on land the terrain and the water
/// above it add up to that level, and there is no lake in the sea.
pub proof fn lakes_stand_at_the_flood_level(
    w: int,
    h: int,
    elevation: Seq<Fixed>,
    sea: Fixed,
    epsilon: Fixed,
    c: int,
)
    requires
        is_grid(w, h),
        0 <= c < w * h <= u32::MAX,
        ({
            let level = flooded(w, h, elevation, sea, epsilon).level[c];
            level.raw - elevation[c].raw <= i64::MAX
        }),
    ensures
        ({
            let level = flooded(w, h, elevation, sea, epsilon).level;
            let depth = lake_depth(elevation, sea, level, c);
            &&& Fixed::of_int(0).le(depth)
            &&& elevation[c].le(sea) ==> depth == Fixed::of_int(0)
            &&& sea.lt(elevation[c]) ==> elevation[c].raw + depth.raw == level[c].raw
            &&& is_outlet(w, h, elevation, sea, c) ==> depth == Fixed::of_int(0)
        }),
{
    fixed_numbers_are_ordered();
    filled_surface_covers_the_terrain(w, h, elevation, sea, epsilon, c);
    water_comes_from_a_neighbour(w, h, elevation, sea, epsilon, c);
}

} // verus!
