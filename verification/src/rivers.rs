//! What running water does to the terrain: how deep rivers cut, and where they
//! leave what they carry.

use crate::curves::lemma_product;
use crate::erosion::{
    creep_weight, crept, cut_at, dropped_share, handed_on, lowered, neighbor_sum, transport_start,
    ErosionParams, Transport,
};
use crate::fixed::{fixed_powers_keep_order, is_root, lemma_isqrt, Fixed};
use crate::hydrology::step_length;
use crate::math::delta_between;
use crate::scalar::{clamped, larger, Scalar};
use crate::world::neighbors_of;
use vstd::prelude::*;

verus! {

// --- how deep rivers cut ---------------------------------------------------
/// A dry land cell that drains somewhere.
pub open spec fn is_river_bed(
    sea: Fixed,
    elevation: Seq<Fixed>,
    water: Seq<Fixed>,
    receiver: Seq<i32>,
    c: int,
) -> bool {
    &&& receiver[c] >= 0
    &&& sea.raw < elevation[c].raw
    &&& water[c].raw <= 0
    &&& i64::MIN <= elevation[c].raw - elevation[receiver[c] as int].raw <= i64::MAX
}

proof fn lemma_product_keeps_order(a: Fixed, b: Fixed, k: Fixed)
    requires
        0 <= a.raw <= b.raw,
        0 <= k.raw,
    ensures
        0 <= a.mul(k).raw <= b.mul(k).raw,
        0 <= k.mul(a).raw <= k.mul(b).raw,
{
    assert(0 <= a.raw * k.raw <= b.raw * k.raw && 0 <= k.raw * a.raw <= k.raw * b.raw)
        by (nonlinear_arith)
        requires
            0 <= a.raw <= b.raw,
            0 <= k.raw,
    ;
}

/// Steeper and fuller rivers cut deeper: of two river beds with steps of the
/// same length, the one that drops by more and carries no less is cut by no
/// less.
pub proof fn steeper_rivers_cut_deeper(
    p: ErosionParams<Fixed>,
    sea: Fixed,
    w: int,
    elevation: Seq<Fixed>,
    flow: Seq<Fixed>,
    water: Seq<Fixed>,
    receiver: Seq<i32>,
    dt: Fixed,
    gentle: int,
    steep: int,
)
    requires
        is_river_bed(sea, elevation, water, receiver, gentle),
        is_river_bed(sea, elevation, water, receiver, steep),
        step_length::<Fixed>(w, gentle, receiver[gentle] as int) == step_length::<Fixed>(
            w,
            steep,
            receiver[steep] as int,
        ),
        flow[gentle].raw <= flow[steep].raw,
        elevation[gentle].raw - elevation[receiver[gentle] as int].raw <= elevation[steep].raw
            - elevation[receiver[steep] as int].raw,
        0 <= p.incision.raw,
        0 <= p.max_incision_fraction.raw,
        0 <= dt.raw,
    ensures
        0 <= cut_at(p, sea, w, elevation, flow, water, receiver, dt, gentle).raw,
        cut_at(p, sea, w, elevation, flow, water, receiver, dt, gentle).le(
            cut_at(p, sea, w, elevation, flow, water, receiver, dt, steep),
        ),
{
    let zero = Fixed::of_int(0);
    let d1 = elevation[gentle].sub(elevation[receiver[gentle] as int]);
    let d2 = elevation[steep].sub(elevation[receiver[steep] as int]);
    let far = step_length::<Fixed>(w, gentle, receiver[gentle] as int);
    let f1 = larger(flow[gentle], zero);
    let f2 = larger(flow[steep], zero);
    fixed_powers_keep_order(f1, f2, p.area_exponent);
    fixed_powers_keep_order(f2, f2, p.area_exponent);
    let s1 = d1.div(far);
    let s2 = d2.div(far);
    if d2.raw > 0 {
        fixed_powers_keep_order(s2, s2, p.slope_exponent);
        let a2 = p.incision.mul(f2.pow(p.area_exponent));
        lemma_product_keeps_order(f2.pow(p.area_exponent), f2.pow(p.area_exponent), p.incision);
        lemma_product_keeps_order(a2, a2, s2.pow(p.slope_exponent));
        lemma_product_keeps_order(
            a2.mul(s2.pow(p.slope_exponent)),
            a2.mul(s2.pow(p.slope_exponent)),
            dt,
        );
        lemma_product_keeps_order(d2, d2, p.max_incision_fraction);
        if d1.raw > 0 {
            assert(s1.raw <= s2.raw) by {
                let m = far.raw as int;
                if m > 0 {
                    assert((d1.raw * 65536) / m <= (d2.raw * 65536) / m) by (nonlinear_arith)
                        requires
                            d1.raw <= d2.raw,
                            m > 0,
                    ;
                } else if m < 0 {
                    lemma_no_negative_step(w, gentle, receiver[gentle] as int);
                }
            }
            fixed_powers_keep_order(s1, s2, p.slope_exponent);
            let a1 = p.incision.mul(f1.pow(p.area_exponent));
            lemma_product_keeps_order(
                f1.pow(p.area_exponent),
                f2.pow(p.area_exponent),
                p.incision,
            );
            lemma_product_keeps_order(a1, a2, s1.pow(p.slope_exponent));
            lemma_product_keeps_order(
                s1.pow(p.slope_exponent),
                s2.pow(p.slope_exponent),
                a2,
            );
            lemma_product_keeps_order(
                a1.mul(s1.pow(p.slope_exponent)),
                a2.mul(s2.pow(p.slope_exponent)),
                dt,
            );
            lemma_product_keeps_order(d1, d2, p.max_incision_fraction);
        }
    }
}

proof fn lemma_no_negative_step(w: int, from: int, to: int)
    ensures
        0 <= step_length::<Fixed>(w, from, to).raw,
{
    assert(Fixed::ratio(1, 1_000_000).raw == 0);
}

/// The depth of a cut: below the cap it is the incision times the flow to its
/// exponent times the slope to its own times the time, where the slope is the
/// drop over the length of the step; and the cap is a share of the drop. A bed
/// that does not drop is not cut.
pub proof fn cuts_go_by_flow_and_slope(
    p: ErosionParams<Fixed>,
    sea: Fixed,
    w: int,
    elevation: Seq<Fixed>,
    flow: Seq<Fixed>,
    water: Seq<Fixed>,
    receiver: Seq<i32>,
    dt: Fixed,
    c: int,
)
    requires
        is_river_bed(sea, elevation, water, receiver, c),
        0 <= flow[c].raw,
    ensures
        ({
            let cut = cut_at(p, sea, w, elevation, flow, water, receiver, dt, c);
            let drop = elevation[c].raw - elevation[receiver[c] as int].raw;
            let fall = (Fixed { raw: drop as i64 });
            let slope = fall.div(step_length::<Fixed>(w, c, receiver[c] as int));
            let power = p.incision.mul(flow[c].pow(p.area_exponent)).mul(
                slope.pow(p.slope_exponent),
            ).mul(dt);
            let cap = fall.mul(p.max_incision_fraction);
            &&& drop <= 0 ==> cut.raw == 0
            &&& drop > 0 ==> cut.le(power) && cut.le(cap) && (cut == power || cut == cap)
        }),
{
    let drop = elevation[c].raw - elevation[receiver[c] as int].raw;
    assert(elevation[c].sub(elevation[receiver[c] as int]) == (Fixed { raw: drop as i64 }));
}

/// A step between neighbouring cells is 1 long in a straight line and the root
/// of 2 across a corner, also over the seam.
pub proof fn steps_have_their_length(w: int, from: int, dx: int, dy: int)
    requires
        3 <= w <= 0x7FFF_FFFF,
        0 <= from,
        0 <= from / w <= 0x7FFF_FFFE,
        -1 <= dx <= 1,
        -1 <= dy <= 1,
        dx != 0 || dy != 0,
        0 <= from / w + dy,
    ensures
        ({
            let to = (from / w + dy) * w + (from % w + dx) % w;
            let far = step_length::<Fixed>(w, from, to).raw;
            if dx != 0 && dy != 0 {
                far == 92681
            } else {
                far == 65536
            }
        }),
{
    let x = from % w;
    let y = from / w;
    assert(0 <= x < w);
    let u = (x + dx) % w;
    assert(u == if x + dx < 0 {
        w - 1
    } else if x + dx >= w {
        0
    } else {
        x + dx
    }) by {
        if x + dx < 0 {
            vstd::arithmetic::div_mod::lemma_mod_add_multiples_vanish(x + dx, w);
            vstd::arithmetic::div_mod::lemma_small_mod((w - 1) as nat, w as nat);
        } else if x + dx >= w {
            vstd::arithmetic::div_mod::lemma_mod_self_0(w);
        } else {
            vstd::arithmetic::div_mod::lemma_small_mod((x + dx) as nat, w as nat);
        }
    }
    let v = y + dy;
    let to = v * w + u;
    vstd::arithmetic::div_mod::lemma_fundamental_div_mod_converse(to, w, v, u);
    assert(to % w == u && to / w == v) by {
        assert(to == v * w + u);
        assert(w * v == v * w) by (nonlinear_arith);
    }
    let period = Fixed::of_int(w);
    let n = w * 65536;
    assert(period.raw == n);
    let a = Fixed::of_int(u);
    let b = Fixed::of_int(x);
    let k = (u - x) * 65536;
    assert(a.sub(b).raw == k);
    let m = k % n;
    assert(m == if u >= x {
        k
    } else {
        k + n
    }) by {
        if u >= x {
            vstd::arithmetic::div_mod::lemma_small_mod(k as nat, n as nat);
        } else {
            vstd::arithmetic::div_mod::lemma_mod_add_multiples_vanish(k, n);
            vstd::arithmetic::div_mod::lemma_small_mod((k + n) as nat, n as nat);
        }
    }
    assert(period.mul(Fixed::ratio(1, 2)).raw == n / 2) by {
        assert(Fixed::ratio(1, 2).raw == 32768);
        assert((n * 32768) / 65536 == n / 2);
    }
    let d = delta_between(w, a, Fixed::of_int(v), b, Fixed::of_int(y));
    assert(d.x.raw == dx * 65536);
    assert(d.y.raw == dy * 65536);
    let sq = d.squared();
    assert(sq.raw == (dx * dx + dy * dy) * 65536) by {
        assert((d.x.raw * d.x.raw) / 65536 == dx * dx * 65536 && (d.y.raw * d.y.raw) / 65536 == dy
            * dy * 65536) by (nonlinear_arith)
            requires
                d.x.raw == dx * 65536,
                d.y.raw == dy * 65536,
        ;
        assert(0 <= dx * dx <= 1 && 0 <= dy * dy <= 1) by (nonlinear_arith)
            requires
                -1 <= dx <= 1,
                -1 <= dy <= 1,
        ;
    }
    assert(Fixed::ratio(1, 1_000_000).raw == 0);
    assert((dx == 0 ==> dx * dx == 0) && (dx != 0 ==> dx * dx == 1) && (dy == 0 ==> dy * dy == 0)
        && (dy != 0 ==> dy * dy == 1)) by (nonlinear_arith)
        requires
            -1 <= dx <= 1,
            -1 <= dy <= 1,
    ;
    if dx != 0 && dy != 0 {
        assert(is_root(92681, 8_589_934_592));
        lemma_isqrt(8_589_934_592, 92681);
    } else {
        assert(is_root(65536, 4_294_967_296));
        lemma_isqrt(4_294_967_296, 65536);
    }
}

// --- where rivers leave their load -----------------------------------------
/// What a cell does with its load. Where it drains nowhere, or where a lake
/// stands, all of it stays: the ground and its sediment grow by the load, and
/// nothing goes on. Elsewhere the share that stays is the deposition times the
/// time, all of it at most, and the rest goes on to the cell downstream. No other
/// cell is touched.
pub proof fn rivers_drop_their_load_on_the_way(
    n: int,
    p: ErosionParams<Fixed>,
    water: Seq<Fixed>,
    receiver: Seq<i32>,
    dt: Fixed,
    t: Transport<Fixed>,
    c: int,
)
    requires
        0 <= c < n,
        t.elevation.len() == n,
        t.sediment.len() == n,
        t.carry.len() == n,
        -1 <= receiver[c] < n,
        receiver[c] != c,
        0 < t.carry[c].raw <= 0x1_0000_0000,
        -0x1000_0000_0000 <= t.elevation[c].raw <= 0x1000_0000_0000,
        -0x1000_0000_0000 <= t.sediment[c].raw <= 0x1000_0000_0000,
        receiver[c] >= 0 ==> -0x1000_0000_0000 <= t.carry[receiver[c] as int].raw
            <= 0x1000_0000_0000,
        0 <= p.deposition.raw <= 0x1_0000_0000,
        0 <= dt.raw <= 0x1_0000_0000,
    ensures
        ({
            let next = handed_on(p, water, receiver, dt, t, c);
            let r = receiver[c] as int;
            let load = t.carry[c].raw;
            let share = (p.deposition.raw * dt.raw) / 65536;
            let kept = if r < 0 || water[c].raw > 0 || share >= 65536 {
                load as int
            } else {
                (load * share) / 65536
            };
            &&& next.elevation.len() == n && next.sediment.len() == n && next.carry.len() == n
            &&& next.elevation[c].raw == t.elevation[c].raw + kept
            &&& next.sediment[c].raw == t.sediment[c].raw + kept
            &&& next.carry[c].raw == 0
            &&& r >= 0 ==> next.carry[r].raw == t.carry[r].raw + load - kept
            &&& forall|d: int|
                #![trigger next.elevation[d]]
                #![trigger next.sediment[d]]
                #![trigger next.carry[d]]
                0 <= d < n && d != c ==> {
                    &&& next.elevation[d] == t.elevation[d]
                    &&& next.sediment[d] == t.sediment[d]
                    &&& d != r ==> next.carry[d] == t.carry[d]
                }
        }),
{
    let load = t.carry[c];
    lemma_product(p.deposition, dt);
    let share = dropped_share(p, water, dt, c);
    assert(0 <= p.deposition.raw * dt.raw) by (nonlinear_arith)
        requires
            0 <= p.deposition.raw,
            0 <= dt.raw,
    ;
    assert(0 <= share.raw <= 65536);
    lemma_product(load, share);
    assert((load.raw * 65536) / 65536 == load.raw);
    assert(0 <= (load.raw * share.raw) / 65536 <= load.raw) by (nonlinear_arith)
        requires
            0 < load.raw,
            0 <= share.raw <= 65536,
    ;
}

// --- how slopes creep ------------------------------------------------------
/// The neighbours' heights, those straight ahead counted twice.
pub open spec fn weighed_heights(
    w: int,
    h: int,
    elevation: Seq<Fixed>,
    c: int,
    k: nat,
) -> (int, int)
    decreases k,
{
    if k == 0 {
        (0, 0)
    } else {
        let (sum, count) = weighed_heights(w, h, elevation, c, (k - 1) as nat);
        let (n, dx, dy) = neighbors_of(w, h, c)[k - 1];
        let times: int = if dx == 0 || dy == 0 {
            2
        } else {
            1
        };
        (sum + times * elevation[n as int].raw, count + times)
    }
}

proof fn lemma_weighed(w: int, h: int, elevation: Seq<Fixed>, c: int, k: nat)
    requires
        k <= neighbors_of(w, h, c).len() <= 8,
        forall|j: int|
            0 <= j < neighbors_of(w, h, c).len() ==> -0x0400_0000_0000_0000 <= elevation[(
            #[trigger] neighbors_of(w, h, c)[j]).0 as int].raw <= 0x0400_0000_0000_0000,
    ensures
        ({
            let (sum, count) = neighbor_sum(w, h, elevation, c, k);
            let (heights, times) = weighed_heights(w, h, elevation, c, k);
            &&& k <= times <= 2 * k
            &&& count.raw == times * 32768
            &&& heights - times <= 2 * sum.raw <= heights
            &&& -0x0400_0000_0000_0000 * times <= heights <= 0x0400_0000_0000_0000 * times
        }),
    decreases k,
{
    if k > 0 {
        lemma_weighed(w, h, elevation, c, (k - 1) as nat);
        let (sum, count) = neighbor_sum(w, h, elevation, c, (k - 1) as nat);
        let (heights, times) = weighed_heights(w, h, elevation, c, (k - 1) as nat);
        let (n, dx, dy) = neighbors_of(w, h, c)[k - 1];
        let e = elevation[n as int].raw as int;
        assert(-0x0400_0000_0000_0000 <= e <= 0x0400_0000_0000_0000);
        let part = elevation[n as int].mul(creep_weight::<Fixed>(dx, dy)).raw as int;
        if dx != 0 && dy != 0 {
            assert(part == (e * 32768) / 65536);
            assert(e - 1 <= 2 * part <= e);
        } else {
            assert(part == (e * 65536) / 65536);
            assert(part == e);
        }
    }
}

/// Slopes creep toward the mean of their surroundings, in which the cells
/// straight ahead count twice as much as those across a corner: by the diffusion
/// times the time as a share of the way, scaled down under water, and never past
/// the mean.
pub proof fn slopes_creep_toward_the_mean(
    p: ErosionParams<Fixed>,
    sea: Fixed,
    w: int,
    h: int,
    elevation: Seq<Fixed>,
    dt: Fixed,
    c: int,
) -> (mean: int)
    requires
        1 <= neighbors_of(w, h, c).len() <= 8,
        -0x0400_0000_0000_0000 <= elevation[c].raw <= 0x0400_0000_0000_0000,
        forall|j: int|
            0 <= j < neighbors_of(w, h, c).len() ==> -0x0400_0000_0000_0000 <= elevation[(
            #[trigger] neighbors_of(w, h, c)[j]).0 as int].raw <= 0x0400_0000_0000_0000,
        0 <= p.diffusion.raw <= 0x1_0000_0000,
        0 <= p.submarine_diffusion_scale.raw <= 65536,
        0 <= dt.raw <= 0x1_0000_0000,
    ensures
        ({
            let (heights, times) = weighed_heights(
                w,
                h,
                elevation,
                c,
                neighbors_of(w, h, c).len(),
            );
            let e = elevation[c].raw;
            let rate = if sea.raw < e {
                p.diffusion.raw as int
            } else {
                (p.diffusion.raw * p.submarine_diffusion_scale.raw) / 65536
            };
            let share = if (rate * dt.raw) / 65536 > 65536 {
                65536
            } else {
                (rate * dt.raw) / 65536
            };
            &&& heights - 2 * times < mean * times <= heights
            &&& crept(p, sea, w, h, elevation, dt, c).raw == e + ((mean - e) * share) / 65536
        }),
{
    let k = neighbors_of(w, h, c).len();
    lemma_weighed(w, h, elevation, c, k);
    let (sum, count) = neighbor_sum(w, h, elevation, c, k);
    let (heights, times) = weighed_heights(w, h, elevation, c, k);
    let s = sum.raw as int;
    let mean = (s * 65536) / (times * 32768);
    assert(mean * times <= 2 * s < mean * times + times) by (nonlinear_arith)
        requires
            mean == (s * 65536) / (times * 32768),
            times >= 1,
    ;
    assert(-0x0400_0000_0000_0001 <= mean <= 0x0400_0000_0000_0000) by (nonlinear_arith)
        requires
            mean * times <= 2 * s < mean * times + times,
            times >= 1,
            -0x0400_0000_0000_0000 * times - times <= 2 * s <= 0x0400_0000_0000_0000 * times,
    ;
    assert(sum.div(count).raw == mean);
    let e = elevation[c];
    lemma_product(p.diffusion, p.submarine_diffusion_scale);
    let slow = p.diffusion.mul(p.submarine_diffusion_scale);
    assert(0 <= (p.diffusion.raw * p.submarine_diffusion_scale.raw) / 65536 <= p.diffusion.raw)
        by (nonlinear_arith)
        requires
            0 <= p.diffusion.raw,
            0 <= p.submarine_diffusion_scale.raw <= 65536,
    ;
    let rate = if sea.lt(e) {
        p.diffusion
    } else {
        slow
    };
    lemma_product(rate, dt);
    assert(0 <= rate.raw * dt.raw) by (nonlinear_arith)
        requires
            0 <= rate.raw,
            0 <= dt.raw,
    ;
    let t = clamped(rate.mul(dt), Fixed::of_int(0), Fixed::of_int(1)).raw as int;
    let d = mean - e.raw;
    let part = (d * t) / 65536;
    assert((d >= 0 ==> 0 <= part <= d) && (d <= 0 ==> d <= part <= 0)) by (nonlinear_arith)
        requires
            part == (d * t) / 65536,
            0 <= t <= 65536,
    ;
    mean
}

/// What rivers cut comes off the ground, cell by cell, and is on its way as their
/// load.
pub proof fn cuts_come_off_the_ground(
    elevation: Seq<Fixed>,
    sediment: Seq<Fixed>,
    cut: Seq<Fixed>,
    c: int,
)
    requires
        0 <= c < elevation.len(),
        cut.len() == elevation.len(),
        0 <= cut[c].raw,
        i64::MIN <= elevation[c].raw - cut[c].raw,
    ensures
        ({
            let start = transport_start(lowered(elevation, cut), sediment, cut, 0i128);
            &&& start.elevation[c].raw + start.carry[c].raw == elevation[c].raw
            &&& start.carry[c] == cut[c]
            &&& start.sediment == sediment
        }),
{
}

} // verus!
