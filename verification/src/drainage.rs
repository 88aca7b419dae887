//! What holds of every drainage network: water runs downhill, always ends at an
//! outlet, and none of it gets lost.

use crate::fixed::{is_root, lemma_isqrt, Fixed};
use crate::flood::{
    flood_order_ascends, flood_passes_every_cell, flooded, is_outlet, lemma_distinct_cells,
    lemma_flood_sound, reached_from, tilt_rises, water_comes_from_a_neighbour,
};
use crate::hydrology::{accumulated, descent, receiver_of, receivers, steepest, stride, swept};
use crate::scalar::{linearly_ordered, larger, Scalar};
use crate::world::{
    is_grid, lemma_neighbors_in_grid, neighbors_are_mutual, neighbors_by, neighbors_of,
};
use vstd::prelude::*;

verus! {

// --- downhill --------------------------------------------------------------
/// A slope above zero leads down to a lower value.
pub open spec fn slopes_are_drops<S: Scalar>() -> bool {
    &&& forall|a: S, b: S, c: S| #![trigger a.lt(b), b.lt(c)] a.lt(b) && b.lt(c) ==> a.lt(c)
    &&& forall|a: S, b: S, dx: i64, dy: i64|
        S::of_int(0).lt(#[trigger] a.sub(b).div(stride(dx, dy))) ==> b.lt(a)
}

proof fn lemma_steepest<S: Scalar>(w: int, h: int, filled: Seq<S>, c: int, k: nat)
    requires
        is_grid(w, h),
        0 <= c < w * h <= i32::MAX,
        k <= neighbors_of(w, h, c).len(),
        slopes_are_drops::<S>(),
    ensures
        ({
            let (best, drop) = steepest(w, h, filled, c, k);
            if best < 0 {
                &&& best == -1
                &&& drop == S::of_int(0)
                &&& forall|j: int| 0 <= j < k ==> !S::of_int(0).lt(#[trigger] descent(w, h, filled, c, j))
            } else {
                &&& S::of_int(0).lt(drop)
                &&& best < w * h
                &&& filled[best as int].lt(filled[c])
                &&& exists|j: int| 0 <= j < k && (#[trigger] neighbors_of(w, h, c)[j]).0 == best
            }
        }),
    decreases k,
{
    if k > 0 {
        lemma_steepest(w, h, filled, c, (k - 1) as nat);
        lemma_neighbors_in_grid(w, h, c, 8);
        let ns = neighbors_of(w, h, c);
        assert(ns == neighbors_by(w, h, c, 8));
        let (n, dx, dy) = ns[k - 1];
        assert(0 <= ns[k - 1].0 < w * h);
        let (best, drop) = steepest(w, h, filled, c, k);
        let (best0, drop0) = steepest(w, h, filled, c, (k - 1) as nat);
        if drop0.lt(descent(w, h, filled, c, k - 1)) {
            assert(S::of_int(0).lt(descent(w, h, filled, c, k - 1)));
            assert(filled[n as int].lt(filled[c]));
            assert(ns[k - 1].0 == best);
        } else if best0 >= 0 {
            let j = choose|j: int| 0 <= j < k - 1 && (#[trigger] ns[j]).0 == best0;
            assert(0 <= j < k && ns[j].0 == best);
        }
    }
}

/// Water runs downhill: the cell that a cell drains into is one of its
/// neighbours, and its filled level is lower.
pub proof fn receivers_lie_downhill<S: Scalar>(
    w: int,
    h: int,
    elevation: Seq<S>,
    sea: S,
    filled: Seq<S>,
    c: int,
)
    requires
        is_grid(w, h),
        0 <= c < w * h <= i32::MAX,
        slopes_are_drops::<S>(),
    ensures
        ({
            let r = receiver_of(w, h, elevation, sea, filled, c);
            &&& -1 <= r < w * h
            &&& r >= 0 ==> filled[r as int].lt(filled[c])
            &&& r >= 0 ==> exists|j: int|
                0 <= j < neighbors_of(w, h, c).len() && (#[trigger] neighbors_of(w, h, c)[j]).0 == r
        }),
{
    lemma_steepest(w, h, filled, c, neighbors_of(w, h, c).len());
}

/// What is below something lower is lower still.
pub open spec fn lower_is_transitive<S: Scalar>() -> bool {
    forall|a: S, b: S, c: S| #![trigger a.lt(b), b.lt(c)] a.lt(b) && b.lt(c) ==> a.lt(c)
}

proof fn lemma_none_is_steeper<S: Scalar>(w: int, h: int, filled: Seq<S>, c: int, k: nat)
    requires
        is_grid(w, h),
        0 <= c < w * h <= i32::MAX,
        k <= neighbors_of(w, h, c).len(),
        lower_is_transitive::<S>(),
        forall|a: S| !#[trigger] a.lt(a),
    ensures
        ({
            let (best, drop) = steepest(w, h, filled, c, k);
            &&& forall|j: int| 0 <= j < k ==> !drop.lt(#[trigger] descent(w, h, filled, c, j))
            &&& if best < 0 {
                best == -1 && drop == S::of_int(0)
            } else {
                exists|j: int|
                    0 <= j < k && (#[trigger] neighbors_of(w, h, c)[j]).0 == best && drop
                        == descent(w, h, filled, c, j) && S::of_int(0).lt(drop)
            }
        }),
    decreases k,
{
    if k > 0 {
        lemma_none_is_steeper(w, h, filled, c, (k - 1) as nat);
        lemma_neighbors_in_grid(w, h, c, 8);
        let ns = neighbors_of(w, h, c);
        assert(ns == neighbors_by(w, h, c, 8));
        assert(0 <= ns[k - 1].0 < w * h);
        let (best0, drop0) = steepest(w, h, filled, c, (k - 1) as nat);
        let (best, drop) = steepest(w, h, filled, c, k);
        let last = descent(w, h, filled, c, k - 1);
        assert forall|j: int| 0 <= j < k implies !drop.lt(
            #[trigger] descent(w, h, filled, c, j),
        ) by {
            let d = descent(w, h, filled, c, j);
            if j < k - 1 {
                assert(!drop0.lt(d));
            }
        }
        if drop0.lt(last) {
            assert(ns[k - 1].0 == best);
        } else if best0 >= 0 {
            let j = choose|j: int|
                0 <= j < k - 1 && (#[trigger] ns[j]).0 == best0 && drop0 == descent(
                    w,
                    h,
                    filled,
                    c,
                    j,
                ) && S::of_int(0).lt(drop0);
            assert(0 <= j < k && ns[j].0 == best);
        }
    }
}

/// Water takes the steepest way down: on land it drains into a neighbour that
/// lies downhill and that no other neighbour's slope exceeds, and stays where
/// it is only where no neighbour lies downhill.
pub proof fn water_takes_the_steepest_way<S: Scalar>(
    w: int,
    h: int,
    elevation: Seq<S>,
    sea: S,
    filled: Seq<S>,
    c: int,
)
    requires
        is_grid(w, h),
        0 <= c < w * h <= i32::MAX,
        lower_is_transitive::<S>(),
        forall|a: S| !#[trigger] a.lt(a),
    ensures
        ({
            let r = receiver_of(w, h, elevation, sea, filled, c);
            let ns = neighbors_of(w, h, c);
            if elevation[c].le(sea) {
                r == -1
            } else if r < 0 {
                &&& r == -1
                &&& forall|i: int|
                    0 <= i < ns.len() ==> !S::of_int(0).lt(#[trigger] descent(w, h, filled, c, i))
            } else {
                exists|j: int|
                    0 <= j < ns.len() && (#[trigger] ns[j]).0 == r && S::of_int(0).lt(
                        descent(w, h, filled, c, j),
                    ) && (forall|i: int|
                        0 <= i < ns.len() ==> !descent(w, h, filled, c, j).lt(
                            #[trigger] descent(w, h, filled, c, i),
                        ))
            }
        }),
{
    lemma_none_is_steeper(w, h, filled, c, neighbors_of(w, h, c).len());
}

/// Fixed-point slopes compare as the steepest way asks.
pub proof fn fixed_slopes_compare()
    ensures
        lower_is_transitive::<Fixed>(),
        forall|a: Fixed| !#[trigger] a.lt(a),
{
}

/// The cell that the water of cell `c` is on after `k` steps downstream; -1
/// once it has left the network.
pub open spec fn downstream(receiver: Seq<i32>, c: int, k: nat) -> int
    decreases k,
{
    if k == 0 {
        c
    } else {
        let d = downstream(receiver, c, (k - 1) as nat);
        if d < 0 {
            -1
        } else {
            receiver[d] as int
        }
    }
}

/// On its way the water stays on the grid and only gets lower.
proof fn lemma_downstream<S: Scalar>(
    w: int,
    h: int,
    elevation: Seq<S>,
    sea: S,
    filled: Seq<S>,
    c: int,
    i: nat,
    k: nat,
)
    requires
        is_grid(w, h),
        0 <= c < w * h <= i32::MAX,
        slopes_are_drops::<S>(),
        linearly_ordered::<S>(),
        i <= k,
    ensures
        ({
            let receiver = receivers(w, h, elevation, sea, filled);
            let a = downstream(receiver, c, i);
            let b = downstream(receiver, c, k);
            &&& -1 <= b < w * h
            &&& b >= 0 ==> a >= 0
            &&& b >= 0 && i < k ==> filled[b].rank() < filled[a].rank()
        }),
    decreases k,
{
    if k > 0 {
        let receiver = receivers(w, h, elevation, sea, filled);
        let d = downstream(receiver, c, (k - 1) as nat);
        if i < k {
            lemma_downstream(w, h, elevation, sea, filled, c, i, (k - 1) as nat);
        } else {
            lemma_downstream(w, h, elevation, sea, filled, c, (k - 1) as nat, (k - 1) as nat);
        }
        if d >= 0 {
            receivers_lie_downhill(w, h, elevation, sea, filled, d);
            assert(receiver[d] == receiver_of(w, h, elevation, sea, filled, d));
        }
    }
}

/// The network has no cycle: from every cell the water has left it after at
/// most as many steps as there are cells.
pub proof fn drainage_has_no_cycle<S: Scalar>(
    w: int,
    h: int,
    elevation: Seq<S>,
    sea: S,
    filled: Seq<S>,
    c: int,
)
    requires
        is_grid(w, h),
        0 <= c < w * h <= i32::MAX,
        slopes_are_drops::<S>(),
        linearly_ordered::<S>(),
    ensures
        downstream(receivers(w, h, elevation, sea, filled), c, (w * h) as nat) == -1,
{
    let receiver = receivers(w, h, elevation, sea, filled);
    let n = (w * h) as nat;
    lemma_downstream(w, h, elevation, sea, filled, c, n, n);
    if downstream(receiver, c, n) >= 0 {
        let path = Seq::new(n + 1, |k: int| downstream(receiver, c, k as nat) as u32);
        assert forall|k: int| 0 <= k < path.len() implies (#[trigger] path[k]) < n && downstream(
            receiver,
            c,
            k as nat,
        ) == path[k] by {
            lemma_downstream(w, h, elevation, sea, filled, c, k as nat, n);
            lemma_downstream(w, h, elevation, sea, filled, c, k as nat, k as nat);
        }
        assert(path.no_duplicates()) by {
            assert forall|i: int, j: int|
                0 <= i < path.len() && 0 <= j < path.len() && i != j implies path[i] != path[j] by {
                assert(downstream(receiver, c, i as nat) == path[i]);
                assert(downstream(receiver, c, j as nat) == path[j]);
                if i < j {
                    lemma_downstream(w, h, elevation, sea, filled, c, i as nat, j as nat);
                } else {
                    lemma_downstream(w, h, elevation, sea, filled, c, j as nat, i as nat);
                }
            }
        }
        lemma_distinct_cells(path, n as int);
    }
}

// --- everything drains -----------------------------------------------------
/// A cell just above the water that it was reached from slopes down to it: the
/// tilt is not lost to rounding.
pub open spec fn tilt_shows<S: Scalar>(elevation: Seq<S>, epsilon: S, filled: Seq<S>) -> bool {
    forall|c: int, d: int, dx: i64, dy: i64|
        0 <= c < filled.len() && 0 <= d < filled.len() ==> S::of_int(0).lt(
            #[trigger] larger(elevation[d], filled[c].add(epsilon)).sub(filled[c]).div(
                stride(dx, dy),
            ),
        )
}

/// Every cell that is no outlet has somewhere to go.
pub proof fn every_cell_drains<S: Scalar>(
    w: int,
    h: int,
    elevation: Seq<S>,
    sea: S,
    epsilon: S,
    d: int,
)
    requires
        is_grid(w, h),
        0 <= d < w * h <= i32::MAX,
        slopes_are_drops::<S>(),
        tilt_shows(elevation, epsilon, flooded(w, h, elevation, sea, epsilon).filled),
        !is_outlet(w, h, elevation, sea, d),
    ensures
        receiver_of(
            w,
            h,
            elevation,
            sea,
            flooded(w, h, elevation, sea, epsilon).filled,
            d,
        ) >= 0,
{
    let f = flooded(w, h, elevation, sea, epsilon);
    lemma_flood_sound(w, h, elevation, sea, epsilon, (w * h) as nat);
    water_comes_from_a_neighbour(w, h, elevation, sea, epsilon, d);
    let c = choose|c: int| reached_from(w, h, elevation, epsilon, f, d, c);
    let j = choose|j: int|
        0 <= j < neighbors_of(w, h, c).len() && (#[trigger] neighbors_of(w, h, c)[j]).0 == d;
    let (n, dx, dy) = neighbors_of(w, h, c)[j];
    neighbors_are_mutual(w, h, c, j);
    let ns = neighbors_of(w, h, d);
    let i = choose|i: int|
        0 <= i < ns.len() && #[trigger] ns[i] == (c as usize, (-dx) as i64, (-dy) as i64);
    lemma_steepest(w, h, f.filled, d, ns.len());
    let s = stride::<S>((-dx) as i64, (-dy) as i64);
    assert(S::of_int(0).lt(larger(elevation[d], f.filled[c].add(epsilon)).sub(f.filled[c]).div(s)));
    assert(S::of_int(0).lt(descent(w, h, f.filled, d, i)));
}

/// All water ends at an outlet: following the drainage from any cell leads to
/// the sea or to a wall.
pub proof fn water_ends_at_an_outlet<S: Scalar>(
    w: int,
    h: int,
    elevation: Seq<S>,
    sea: S,
    epsilon: S,
    c: int,
)
    requires
        is_grid(w, h),
        0 <= c < w * h <= i32::MAX,
        slopes_are_drops::<S>(),
        linearly_ordered::<S>(),
        tilt_shows(elevation, epsilon, flooded(w, h, elevation, sea, epsilon).filled),
    ensures
        ({
            let receiver = receivers(
                w,
                h,
                elevation,
                sea,
                flooded(w, h, elevation, sea, epsilon).filled,
            );
            exists|k: nat|
                k < w * h && 0 <= #[trigger] downstream(receiver, c, k) < w * h && is_outlet(
                    w,
                    h,
                    elevation,
                    sea,
                    downstream(receiver, c, k),
                )
        }),
{
    let filled = flooded(w, h, elevation, sea, epsilon).filled;
    let receiver = receivers(w, h, elevation, sea, filled);
    drainage_has_no_cycle(w, h, elevation, sea, filled, c);
    let k = lemma_last_stop(receiver, c, (w * h) as nat);
    let d = downstream(receiver, c, k);
    lemma_downstream(w, h, elevation, sea, filled, c, k, k);
    assert(downstream(receiver, c, (k + 1) as nat) == receiver[d]);
    if !is_outlet(w, h, elevation, sea, d) {
        every_cell_drains(w, h, elevation, sea, epsilon, d);
    }
}

/// The last cell before the water leaves the network.
proof fn lemma_last_stop(receiver: Seq<i32>, c: int, n: nat) -> (k: nat)
    requires
        c >= 0,
        downstream(receiver, c, n) < 0,
    ensures
        k < n,
        downstream(receiver, c, k) >= 0,
        downstream(receiver, c, (k + 1) as nat) < 0,
    decreases n,
{
    if downstream(receiver, c, (n - 1) as nat) >= 0 {
        (n - 1) as nat
    } else {
        lemma_last_stop(receiver, c, (n - 1) as nat)
    }
}

// --- upstream comes first --------------------------------------------------
/// In the order, every cell comes behind the one that it drains into.
pub open spec fn is_topological(order: Seq<u32>, receiver: Seq<i32>) -> bool {
    forall|i: int, j: int|
        #![trigger order[i], order[j]]
        0 <= i < order.len() && 0 <= j < order.len() && receiver[order[j] as int] == order[i]
            ==> i < j
}

/// The order of the flood is a topological order of the drainage network:
/// walking it backwards visits every cell before the cell it drains into.
pub proof fn flood_order_is_topological<S: Scalar>(
    w: int,
    h: int,
    elevation: Seq<S>,
    sea: S,
    epsilon: S,
)
    requires
        is_grid(w, h),
        w * h <= i32::MAX,
        elevation.len() == w * h,
        forall|c: int| 0 <= c < w * h ==> (#[trigger] elevation[c]).le(elevation[c]),
        tilt_rises(epsilon),
        slopes_are_drops::<S>(),
        linearly_ordered::<S>(),
    ensures
        ({
            let f = flooded(w, h, elevation, sea, epsilon);
            is_topological(f.order, receivers(w, h, elevation, sea, f.filled))
        }),
{
    let f = flooded(w, h, elevation, sea, epsilon);
    let receiver = receivers(w, h, elevation, sea, f.filled);
    flood_passes_every_cell(w, h, elevation, sea, epsilon);
    lemma_flood_sound(w, h, elevation, sea, epsilon, (w * h) as nat);
    assert forall|i: int, j: int|
        #![trigger f.order[i], f.order[j]]
        0 <= i < f.order.len() && 0 <= j < f.order.len() && receiver[f.order[j] as int]
            == f.order[i] implies i < j by {
        let c = f.order[j] as int;
        assert(receiver[c] == receiver_of(w, h, elevation, sea, f.filled, c));
        receivers_lie_downhill(w, h, elevation, sea, f.filled, c);
        if j <= i {
            flood_order_ascends(w, h, elevation, sea, epsilon, j, i);
        }
    }
}

// --- nothing gets lost -----------------------------------------------------
/// A network over `n` cells, in a topological order that holds each of them.
pub open spec fn is_network(n: int, order: Seq<u32>, receiver: Seq<i32>) -> bool {
    &&& 0 <= n <= i32::MAX
    &&& order.len() == n
    &&& receiver.len() == n
    &&& order.no_duplicates()
    &&& forall|i: int| 0 <= i < n ==> (#[trigger] order[i]) < n
    &&& forall|c: int| 0 <= c < n ==> -1 <= (#[trigger] receiver[c]) < n
    &&& is_topological(order, receiver)
}

/// The flood's order and the receivers make up a network.
pub proof fn flood_makes_a_network<S: Scalar>(
    w: int,
    h: int,
    elevation: Seq<S>,
    sea: S,
    epsilon: S,
)
    requires
        is_grid(w, h),
        w * h <= i32::MAX,
        elevation.len() == w * h,
        forall|c: int| 0 <= c < w * h ==> (#[trigger] elevation[c]).le(elevation[c]),
        tilt_rises(epsilon),
        slopes_are_drops::<S>(),
        linearly_ordered::<S>(),
    ensures
        ({
            let f = flooded(w, h, elevation, sea, epsilon);
            is_network(w * h, f.order, receivers(w, h, elevation, sea, f.filled))
        }),
{
    assert(w * h >= 0) by (nonlinear_arith)
        requires
            w > 0,
            h >= 0,
    ;
    let f = flooded(w, h, elevation, sea, epsilon);
    flood_order_is_topological(w, h, elevation, sea, epsilon);
    flood_passes_every_cell(w, h, elevation, sea, epsilon);
    lemma_flood_sound(w, h, elevation, sea, epsilon, (w * h) as nat);
    let receiver = receivers(w, h, elevation, sea, f.filled);
    assert forall|c: int| 0 <= c < w * h implies -1 <= (#[trigger] receiver[c]) < w * h by {
        receivers_lie_downhill(w, h, elevation, sea, f.filled, c);
    }
}

/// The sum of a sequence of integers.
pub open spec fn total(s: Seq<int>) -> int
    decreases s.len(),
{
    if s.len() == 0 {
        0
    } else {
        total(s.drop_last()) + s.last()
    }
}

pub proof fn lemma_total_update(s: Seq<int>, i: int, v: int)
    requires
        0 <= i < s.len(),
    ensures
        total(s.update(i, v)) == total(s) - s[i] + v,
    decreases s.len(),
{
    if i == s.len() - 1 {
        assert(s.update(i, v).drop_last() =~= s.drop_last());
    } else {
        lemma_total_update(s.drop_last(), i, v);
        assert(s.update(i, v).drop_last() =~= s.drop_last().update(i, v));
    }
}

pub proof fn lemma_total_nonneg(s: Seq<int>)
    requires
        forall|i: int| 0 <= i < s.len() ==> #[trigger] s[i] >= 0,
    ensures
        total(s) >= 0,
    decreases s.len(),
{
    if s.len() > 0 {
        assert forall|i: int| 0 <= i < s.drop_last().len() implies #[trigger] s.drop_last()[i]
            >= 0 by {
            assert(s[i] >= 0);
        }
        lemma_total_nonneg(s.drop_last());
        assert(s[s.len() - 1] >= 0);
    }
}

/// Two members of a sequence of counts are together at most its sum.
pub proof fn lemma_two_of_total(s: Seq<int>, i: int, j: int)
    requires
        forall|k: int| 0 <= k < s.len() ==> #[trigger] s[k] >= 0,
        0 <= i < s.len(),
        0 <= j < s.len(),
        i != j,
    ensures
        s[i] + s[j] <= total(s),
{
    let t = s.update(i, 0);
    let u = t.update(j, 0);
    lemma_total_update(s, i, 0);
    lemma_total_update(t, j, 0);
    assert forall|k: int| 0 <= k < u.len() implies #[trigger] u[k] >= 0 by {
        assert(s[k] >= 0);
    }
    lemma_total_nonneg(u);
}

/// `amount` reads off how much a value stands for, and adding two values adds
/// their amounts as long as these stay within `limit`.
pub open spec fn adds_up<S: Scalar>(amount: spec_fn(S) -> int, limit: int) -> bool {
    forall|a: S, b: S| #![trigger a.add(b)]
        amount(a) >= 0 && amount(b) >= 0 && amount(a) + amount(b) <= limit ==> amount(a.add(b))
            == amount(a) + amount(b)
}

/// The amounts on all cells.
pub open spec fn amounts<S: Scalar>(values: Seq<S>, amount: spec_fn(S) -> int) -> Seq<int> {
    Seq::new(values.len(), |c: int| amount(values[c]))
}

/// The amounts on the cells that drain nowhere.
pub open spec fn amounts_at_sinks<S: Scalar>(
    values: Seq<S>,
    receiver: Seq<i32>,
    amount: spec_fn(S) -> int,
) -> Seq<int> {
    Seq::new(
        values.len(),
        |c: int|
            if receiver[c] < 0 {
                amount(values[c])
            } else {
                0
            },
    )
}

/// Cell `c` is among the last `k` cells of the order.
spec fn visited(order: Seq<u32>, c: int, k: nat) -> bool {
    exists|i: int| order.len() - k <= i < order.len() && #[trigger] order[i] == c
}

/// What is still on its way, or has arrived, after `k` cells have handed on
/// theirs.
spec fn in_play<S: Scalar>(
    values: Seq<S>,
    order: Seq<u32>,
    receiver: Seq<i32>,
    amount: spec_fn(S) -> int,
    k: nat,
) -> Seq<int> {
    Seq::new(
        values.len(),
        |c: int|
            if receiver[c] >= 0 && visited(order, c, k) {
                0
            } else {
                amount(values[c])
            },
    )
}

proof fn lemma_visit(order: Seq<u32>, c: int, k: nat)
    requires
        k < order.len(),
    ensures
        visited(order, c, (k + 1) as nat) == (visited(order, c, k) || order[order.len() - k - 1]
            == c),
{
    if visited(order, c, (k + 1) as nat) {
        let i = choose|i: int|
            order.len() - (k + 1) <= i < order.len() && #[trigger] order[i] == c;
        if i > order.len() - k - 1 {
            assert(visited(order, c, k));
        }
    }
    if visited(order, c, k) {
        let i = choose|i: int| order.len() - k <= i < order.len() && #[trigger] order[i] == c;
        assert(order[i] == c);
    }
    let last = order.len() - k - 1;
    if order[last] == c {
        assert(order.len() - (k + 1) <= last < order.len() && order[last] == c);
    }
}

proof fn lemma_sweep_keeps_amount<S: Scalar>(
    n: int,
    rain: Seq<S>,
    order: Seq<u32>,
    receiver: Seq<i32>,
    amount: spec_fn(S) -> int,
    limit: int,
    k: nat,
)
    requires
        is_network(n, order, receiver),
        rain.len() == n,
        k <= n,
        adds_up(amount, limit),
        forall|c: int| 0 <= c < n ==> amount(#[trigger] rain[c]) >= 0,
        total(amounts(rain, amount)) <= limit,
    ensures
        ({
            let flow = swept(rain, order, receiver, k);
            &&& flow.len() == n
            &&& forall|c: int| 0 <= c < n ==> amount(#[trigger] flow[c]) >= 0
            &&& total(in_play(flow, order, receiver, amount, k)) == total(amounts(rain, amount))
        }),
    decreases k,
{
    let flow = swept(rain, order, receiver, k);
    if k == 0 {
        assert(in_play(flow, order, receiver, amount, k) =~= amounts(rain, amount));
    } else {
        let k0 = (k - 1) as nat;
        lemma_sweep_keeps_amount(n, rain, order, receiver, amount, limit, k0);
        let flow0 = swept(rain, order, receiver, k0);
        let at = order.len() - k;
        let c = order[at] as int;
        let r = receiver[c] as int;
        let g0 = in_play(flow0, order, receiver, amount, k0);
        let g = in_play(flow, order, receiver, amount, k);
        assert(!visited(order, c, k0)) by {
            if visited(order, c, k0) {
                let i = choose|i: int|
                    order.len() - k0 <= i < order.len() && #[trigger] order[i] == c;
                assert(order[i] == order[at]);
            }
        }
        assert forall|d: int| 0 <= d < n implies #[trigger] visited(order, d, k) == (visited(order, d, k0)
            || d == c) by {
            lemma_visit(order, d, k0);
        }
        if r >= 0 {
            assert(!visited(order, r, k0)) by {
                if visited(order, r, k0) {
                    let i = choose|i: int|
                        order.len() - k0 <= i < order.len() && #[trigger] order[i] == r;
                    assert(receiver[order[at] as int] == order[i]);
                }
            }
            assert(r != c) by {
                if r == c {
                    assert(receiver[order[at] as int] == order[at]);
                }
            }
            assert(g0[c] == amount(flow0[c]));
            assert(g0[r] == amount(flow0[r]));
            assert forall|d: int| 0 <= d < g0.len() implies #[trigger] g0[d] >= 0 by {
                assert(amount(flow0[d]) >= 0);
            }
            lemma_two_of_total(g0, c, r);
            assert(amount(flow0[r].add(flow0[c])) == g0[r] + g0[c]);
            assert(g =~= g0.update(c, 0).update(r, g0[r] + g0[c]));
            lemma_total_update(g0, c, 0);
            lemma_total_update(g0.update(c, 0), r, g0[r] + g0[c]);
        } else {
            assert(g =~= g0);
        }
    }
}

/// Water is conserved: what reaches the cells that drain nowhere is all the
/// rain that fell.
pub proof fn all_rainfall_reaches_a_sink<S: Scalar>(
    n: int,
    rain: Seq<S>,
    order: Seq<u32>,
    receiver: Seq<i32>,
    amount: spec_fn(S) -> int,
    limit: int,
)
    requires
        is_network(n, order, receiver),
        rain.len() == n,
        adds_up(amount, limit),
        forall|c: int| 0 <= c < n ==> amount(#[trigger] rain[c]) >= 0,
        total(amounts(rain, amount)) <= limit,
    ensures
        total(amounts_at_sinks(accumulated(rain, order, receiver), receiver, amount)) == total(
            amounts(rain, amount),
        ),
{
    let flow = accumulated(rain, order, receiver);
    lemma_sweep_keeps_amount(n, rain, order, receiver, amount, limit, n as nat);
    lemma_distinct_cells(order, n);
    assert forall|c: int| 0 <= c < n implies #[trigger] visited(order, c, n as nat) by {
        assert(order.contains(c as u32));
        let i = choose|i: int| 0 <= i < order.len() && order[i] == c as u32;
        assert(order.len() - n <= i < order.len() && order[i] == c);
    }
    assert(in_play(flow, order, receiver, amount, n as nat) =~= amounts_at_sinks(
        flow,
        receiver,
        amount,
    ));
}

/// Sums of values that are not negative are not smaller than their terms.
pub open spec fn sums_grow<S: Scalar>() -> bool {
    forall|a: S, b: S| #![trigger a.add(b)]
        S::of_int(0).le(a) && S::of_int(0).le(b) ==> a.le(a.add(b)) && b.le(a.add(b))
}

/// Flow so far: nowhere negative, and handed on by all visited cells.
spec fn hands_on<S: Scalar>(flow: Seq<S>, order: Seq<u32>, receiver: Seq<i32>, k: nat) -> bool {
    &&& forall|c: int| 0 <= c < flow.len() ==> S::of_int(0).le(#[trigger] flow[c])
    &&& forall|i: int|
        order.len() - k <= i < order.len() && receiver[#[trigger] order[i] as int] >= 0
            ==> flow[order[i] as int].le(flow[receiver[order[i] as int] as int])
}

proof fn lemma_flow_grows<S: Scalar>(
    n: int,
    rain: Seq<S>,
    order: Seq<u32>,
    receiver: Seq<i32>,
    k: nat,
)
    requires
        is_network(n, order, receiver),
        rain.len() == n,
        k <= n,
        linearly_ordered::<S>(),
        sums_grow::<S>(),
        forall|c: int| 0 <= c < n ==> S::of_int(0).le(#[trigger] rain[c]),
    ensures
        swept(rain, order, receiver, k).len() == n,
        hands_on(swept(rain, order, receiver, k), order, receiver, k),
    decreases k,
{
    if k > 0 {
        let k0 = (k - 1) as nat;
        lemma_flow_grows(n, rain, order, receiver, k0);
        let flow0 = swept(rain, order, receiver, k0);
        let flow = swept(rain, order, receiver, k);
        let at = order.len() - k;
        let c = order[at] as int;
        let r = receiver[c] as int;
        if r >= 0 {
            assert(S::of_int(0).le(flow0[c]) && S::of_int(0).le(flow0[r]));
            assert(r != c) by {
                if r == c {
                    assert(receiver[order[at] as int] == order[at]);
                }
            }
            assert(flow0[r].le(flow[r]) && flow0[c].le(flow[r]));
            assert forall|d: int| 0 <= d < flow.len() implies S::of_int(0).le(#[trigger] flow[d]) by {
                assert(S::of_int(0).le(flow0[d]));
            }
            assert forall|i: int|
                order.len() - k <= i < order.len() && receiver[#[trigger] order[i] as int]
                    >= 0 implies flow[order[i] as int].le(
                flow[receiver[order[i] as int] as int],
            ) by {
                if i > at {
                    assert(order[i] != r) by {
                        if order[i] == r {
                            assert(receiver[order[at] as int] == order[i]);
                        }
                    }
                    assert(flow0[order[i] as int].le(flow0[receiver[order[i] as int] as int]));
                    assert(flow[order[i] as int] == flow0[order[i] as int]);
                }
            }
        }
    }
}

/// Flow grows downstream: no cell carries more water than the cell it drains
/// into.
pub proof fn flow_grows_downstream<S: Scalar>(
    n: int,
    rain: Seq<S>,
    order: Seq<u32>,
    receiver: Seq<i32>,
    c: int,
)
    requires
        is_network(n, order, receiver),
        rain.len() == n,
        linearly_ordered::<S>(),
        sums_grow::<S>(),
        forall|d: int| 0 <= d < n ==> S::of_int(0).le(#[trigger] rain[d]),
        0 <= c < n,
        receiver[c] >= 0,
    ensures
        accumulated(rain, order, receiver)[c].le(
            accumulated(rain, order, receiver)[receiver[c] as int],
        ),
{
    lemma_flow_grows(n, rain, order, receiver, n as nat);
    lemma_distinct_cells(order, n);
    assert(order.contains(c as u32));
    let i = choose|i: int| 0 <= i < order.len() && order[i] == c as u32;
    assert(order[i] == c);
}

/// A cell is done once everything behind it in the order has handed on.
proof fn lemma_flow_is_final<S: Scalar>(
    n: int,
    rain: Seq<S>,
    order: Seq<u32>,
    receiver: Seq<i32>,
    i: int,
    k: nat,
    m: nat,
)
    requires
        is_network(n, order, receiver),
        rain.len() == n,
        0 <= i < n,
        n - k - 1 <= i,
        k <= m <= n,
    ensures
        swept(rain, order, receiver, m).len() == n,
        swept(rain, order, receiver, m)[order[i] as int] == swept(
            rain,
            order,
            receiver,
            k,
        )[order[i] as int],
    decreases m,
{
    if m > k {
        lemma_flow_is_final(n, rain, order, receiver, i, k, (m - 1) as nat);
        let at = order.len() - m;
        let c = order[at] as int;
        if receiver[c] >= 0 {
            assert(receiver[c] != order[i]) by {
                if receiver[order[at] as int] == order[i] {
                    assert(i < at);
                }
            }
        }
    } else if m > 0 {
        lemma_sweep_length(n, rain, order, receiver, m);
    }
}

proof fn lemma_sweep_length<S: Scalar>(
    n: int,
    rain: Seq<S>,
    order: Seq<u32>,
    receiver: Seq<i32>,
    k: nat,
)
    requires
        is_network(n, order, receiver),
        rain.len() == n,
        k <= n,
    ensures
        swept(rain, order, receiver, k).len() == n,
    decreases k,
{
    if k > 0 {
        lemma_sweep_length(n, rain, order, receiver, (k - 1) as nat);
        let c = order[order.len() - k] as int;
        assert(receiver[c] < n);
    }
}

/// `start` with the flow of every cell that drains into `c` added to it, as far
/// as they are among the last `k` cells of the order.
pub open spec fn with_inflow<S: Scalar>(
    start: S,
    flow: Seq<S>,
    order: Seq<u32>,
    receiver: Seq<i32>,
    c: int,
    k: nat,
) -> S
    decreases k,
{
    if k == 0 {
        start
    } else {
        let before = with_inflow(start, flow, order, receiver, c, (k - 1) as nat);
        let d = order[order.len() - k] as int;
        if receiver[d] == c {
            before.add(flow[d])
        } else {
            before
        }
    }
}

proof fn lemma_inflow<S: Scalar>(
    n: int,
    rain: Seq<S>,
    order: Seq<u32>,
    receiver: Seq<i32>,
    c: int,
    k: nat,
)
    requires
        is_network(n, order, receiver),
        rain.len() == n,
        0 <= c < n,
        k <= n,
    ensures
        swept(rain, order, receiver, k)[c] == with_inflow(
            rain[c],
            accumulated(rain, order, receiver),
            order,
            receiver,
            c,
            k,
        ),
    decreases k,
{
    if k > 0 {
        let k0 = (k - 1) as nat;
        lemma_inflow(n, rain, order, receiver, c, k0);
        lemma_sweep_length(n, rain, order, receiver, k0);
        lemma_flow_is_final(n, rain, order, receiver, n - k, k0, n as nat);
        let d = order[n - k] as int;
        assert(-1 <= receiver[d] < n);
    }
}

/// What a cell carries is the rain on it and what the cells that drain into it
/// carry, and nothing else.
pub proof fn flow_is_rain_and_inflow<S: Scalar>(
    n: int,
    rain: Seq<S>,
    order: Seq<u32>,
    receiver: Seq<i32>,
    c: int,
)
    requires
        is_network(n, order, receiver),
        rain.len() == n,
        0 <= c < n,
    ensures
        ({
            let flow = accumulated(rain, order, receiver);
            flow[c] == with_inflow(rain[c], flow, order, receiver, c, n as nat)
        }),
{
    lemma_inflow(n, rain, order, receiver, c, n as nat);
}

// --- fixed-point numbers ---------------------------------------------------
/// Fixed-point numbers meet what the laws of the network ask of the numbers:
/// slopes are drops, a tilt that is not negative rises, amounts add up, and
/// sums grow.
pub proof fn fixed_numbers_drain(epsilon: Fixed)
    requires
        epsilon.raw >= 0,
    ensures
        slopes_are_drops::<Fixed>(),
        tilt_rises(epsilon),
        adds_up(|f: Fixed| f.raw as int, i64::MAX as int),
        sums_grow::<Fixed>(),
{
    assert forall|a: Fixed, b: Fixed, dx: i64, dy: i64|
        Fixed::of_int(0).lt(#[trigger] a.sub(b).div(stride(dx, dy))) implies b.lt(a) by {
        assert(is_root(92681, 8_589_934_592));
        lemma_isqrt(8_589_934_592, 92681);
        let s: Fixed = stride(dx, dy);
        assert(s.raw > 0);
        let d = a.sub(b).raw as int;
        if d <= 0 {
            assert((d * 65536) / s.raw as int <= 0) by (nonlinear_arith)
                requires
                    d <= 0,
                    s.raw > 0,
            ;
        }
    }
}

/// A fixed-point tilt of two units or more shows, as long as no level comes so
/// close to the largest number that the tilt does not fit above it.
pub proof fn fixed_tilt_shows(elevation: Seq<Fixed>, epsilon: Fixed, filled: Seq<Fixed>)
    requires
        epsilon.raw >= 2,
        forall|c: int|
            0 <= c < filled.len() ==> (#[trigger] filled[c]).raw + epsilon.raw <= i64::MAX,
    ensures
        tilt_shows(elevation, epsilon, filled),
{
    assert forall|c: int, d: int, dx: i64, dy: i64|
        0 <= c < filled.len() && 0 <= d < filled.len() implies Fixed::of_int(0).lt(
        #[trigger] larger(elevation[d], filled[c].add(epsilon)).sub(filled[c]).div(stride(dx, dy)),
    ) by {
        assert(is_root(92681, 8_589_934_592));
        lemma_isqrt(8_589_934_592, 92681);
        let s: Fixed = stride(dx, dy);
        let rise = larger(elevation[d], filled[c].add(epsilon)).sub(filled[c]).raw as int;
        assert(rise >= 2);
        assert((rise * 65536) / s.raw as int >= 1) by (nonlinear_arith)
            requires
                rise >= 2,
                0 < s.raw <= 131072,
        ;
    }
}

} // verus!
