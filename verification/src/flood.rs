//! Priority flood: filling every depression up to its outlet.
//!
//! Water rises from the outlets inward, always over the lowest shore it has
//! reached so far. One pass gives each cell the level at which it drains, and
//! the order in which the cells were reached ascends with that level.

use crate::heap::{comes_first, MinHeap};
use crate::scalar::{linearly_ordered, larger, max_of, repeated, Scalar};
use crate::world::{
    cell_index, is_grid, lemma_cell_in_grid, lemma_cell_of_coords, lemma_coords_of_cell,
    lemma_neighbor_is_listed, lemma_neighbors_in_grid, lemma_row_in_grid, neighbor_of,
    neighbors_are_mutual, neighbors_by, neighbors_of, World, OFFSETS8,
};
use vstd::multiset::Multiset;
use vstd::prelude::*;

verus! {

/// How far a flood has come.
#[verifier::ext_equal]
pub struct Flood<S> {
    /// The level at which a cell drains, tilted so that every cell drains.
    pub filled: Seq<S>,
    /// The same level without the tilt.
    pub level: Seq<S>,
    /// The cells that the water has reached.
    pub queued: Seq<bool>,
    /// The cells that it has moved on from, first to last.
    pub order: Seq<u32>,
}

/// Water leaves the world in the sea, and at the northern and southern walls.
pub open spec fn is_outlet<S: Scalar>(w: int, h: int, elevation: Seq<S>, sea: S, c: int) -> bool {
    elevation[c].le(sea) || c / w == 0 || c / w == h - 1
}

/// Before the flood has moved, only the outlets are under water.
pub open spec fn flood_start<S: Scalar>(w: int, h: int, elevation: Seq<S>, sea: S) -> Flood<S> {
    let n = (w * h) as nat;
    let level = Seq::new(
        n,
        |c: int|
            if is_outlet(w, h, elevation, sea, c) {
                elevation[c]
            } else {
                S::top()
            },
    );
    Flood {
        filled: level,
        level,
        queued: Seq::new(n, |c: int| is_outlet(w, h, elevation, sea, c)),
        order: Seq::empty(),
    }
}

/// The water has reached `c` and not moved on from it.
pub open spec fn pending<S>(f: Flood<S>, c: int) -> bool {
    0 <= c < f.queued.len() && f.queued[c] && !f.order.contains(c as u32)
}

pub open spec fn flood_key<S: Scalar>(f: Flood<S>, c: int) -> (i64, u32) {
    (f.filled[c].rank(), c as u32)
}

/// The lowest shore: the cell that the water moves on from next.
pub open spec fn is_next<S: Scalar>(f: Flood<S>, c: int) -> bool {
    &&& pending(f, c)
    &&& forall|d: int| #[trigger] pending(f, d) ==> comes_first(flood_key(f, c), flood_key(f, d))
}

/// The flood after it has come from `c` to its first `k` neighbours. A cell
/// reached for the first time takes its own height, or just above the water
/// that backed up to reach it.
pub open spec fn flood_reach<S: Scalar>(
    w: int,
    h: int,
    elevation: Seq<S>,
    epsilon: S,
    f: Flood<S>,
    c: int,
    k: nat,
) -> Flood<S>
    decreases k,
{
    if k == 0 {
        f
    } else {
        let g = flood_reach(w, h, elevation, epsilon, f, c, (k - 1) as nat);
        let n = neighbors_of(w, h, c)[k - 1].0 as int;
        if g.queued[n] {
            g
        } else {
            Flood {
                filled: g.filled.update(n, larger(elevation[n], f.filled[c].add(epsilon))),
                level: g.level.update(n, larger(elevation[n], f.level[c])),
                queued: g.queued.update(n, true),
                order: g.order,
            }
        }
    }
}

/// The flood after it has moved on from `c`.
pub open spec fn flood_past<S: Scalar>(
    w: int,
    h: int,
    elevation: Seq<S>,
    epsilon: S,
    f: Flood<S>,
    c: int,
) -> Flood<S> {
    flood_reach(
        w,
        h,
        elevation,
        epsilon,
        Flood { order: f.order.push(c as u32), ..f },
        c,
        neighbors_of(w, h, c).len(),
    )
}

/// The flood after it has moved on from `k` cells.
pub open spec fn flood_after<S: Scalar>(
    w: int,
    h: int,
    elevation: Seq<S>,
    sea: S,
    epsilon: S,
    k: nat,
) -> Flood<S>
    decreases k,
{
    if k == 0 {
        flood_start(w, h, elevation, sea)
    } else {
        let f = flood_after(w, h, elevation, sea, epsilon, (k - 1) as nat);
        flood_past(w, h, elevation, epsilon, f, choose|c: int| is_next(f, c))
    }
}

/// The finished flood.
pub open spec fn flooded<S: Scalar>(
    w: int,
    h: int,
    elevation: Seq<S>,
    sea: S,
    epsilon: S,
) -> Flood<S> {
    flood_after(w, h, elevation, sea, epsilon, (w * h) as nat)
}

// --- the water gets everywhere ---------------------------------------------
/// What holds of a flood at every moment.
pub open spec fn flood_sound<S: Scalar>(
    w: int,
    h: int,
    elevation: Seq<S>,
    sea: S,
    f: Flood<S>,
) -> bool {
    &&& f.filled.len() == w * h
    &&& f.level.len() == w * h
    &&& f.queued.len() == w * h
    &&& f.order.no_duplicates()
    &&& forall|i: int|
        0 <= i < f.order.len() ==> (#[trigger] f.order[i]) < w * h && f.queued[f.order[i] as int]
    &&& forall|i: int, j: int|
        #![trigger f.order[i], neighbors_of(w, h, f.order[i] as int)[j]]
        0 <= i < f.order.len() && 0 <= j < neighbors_of(w, h, f.order[i] as int).len()
            ==> f.queued[neighbors_of(w, h, f.order[i] as int)[j].0 as int]
    &&& forall|c: int|
        0 <= c < w * h && is_outlet(w, h, elevation, sea, c) ==> #[trigger] f.queued[c]
            && f.filled[c] == elevation[c] && f.level[c] == elevation[c]
}

/// Distinct cells below `n` are at most `n` many, and all of them where they
/// are `n` many.
pub proof fn lemma_distinct_cells(order: Seq<u32>, n: int)
    requires
        0 <= n <= u32::MAX,
        order.no_duplicates(),
        forall|i: int| 0 <= i < order.len() ==> (#[trigger] order[i]) < n,
    ensures
        order.len() <= n,
        order.len() == n ==> forall|c: int| 0 <= c < n ==> order.contains(#[trigger] (c as u32)),
    decreases n,
{
    if n == 0 {
        if order.len() > 0 {
            assert(order[0] < 0);
        }
    } else {
        let top = (n - 1) as u32;
        if order.contains(top) {
            let i = choose|i: int| 0 <= i < order.len() && order[i] == top;
            let rest = order.remove(i);
            assert forall|k: int| 0 <= k < rest.len() implies (#[trigger] rest[k]) < n - 1 by {
                if k < i {
                    assert(rest[k] == order[k]);
                } else {
                    assert(rest[k] == order[k + 1]);
                }
            }
            assert(rest.no_duplicates());
            lemma_distinct_cells(rest, n - 1);
            if order.len() == n {
                assert forall|c: int| 0 <= c < n implies order.contains(#[trigger] (c as u32)) by {
                    if c < n - 1 {
                        assert(rest.contains(c as u32));
                        let k = choose|k: int| 0 <= k < rest.len() && rest[k] == c as u32;
                        if k < i {
                            assert(order[k] == c as u32);
                        } else {
                            assert(order[k + 1] == c as u32);
                        }
                    }
                }
            }
        } else {
            assert forall|i: int| 0 <= i < order.len() implies (#[trigger] order[i]) < n - 1 by {
                assert(order.contains(order[i]));
            }
            lemma_distinct_cells(order, n - 1);
        }
    }
}

/// Where there is shore, there is a lowest one among the cells below `m`.
proof fn lemma_lowest_below<S: Scalar>(f: Flood<S>, m: int, d: int) -> (c: int)
    requires
        0 <= d < m,
        pending(f, d),
    ensures
        c < m,
        pending(f, c),
        forall|e: int|
            #[trigger] pending(f, e) && e < m ==> comes_first(flood_key(f, c), flood_key(f, e)),
    decreases m,
{
    if exists|e: int| #[trigger] pending(f, e) && e < m - 1 {
        let e = choose|e: int| #[trigger] pending(f, e) && e < m - 1;
        let c = lemma_lowest_below(f, m - 1, e);
        if pending(f, m - 1) && !comes_first(flood_key(f, c), flood_key(f, m - 1)) {
            m - 1
        } else {
            c
        }
    } else {
        d
    }
}

proof fn lemma_lowest_exists<S: Scalar>(f: Flood<S>, d: int)
    requires
        pending(f, d),
    ensures
        exists|c: int| is_next(f, c),
{
    let c = lemma_lowest_below(f, f.queued.len() as int, d);
    assert(is_next(f, c));
}

proof fn lemma_lowest_is_unique<S: Scalar>(f: Flood<S>, c: int, d: int)
    requires
        is_next(f, c),
        is_next(f, d),
        f.queued.len() <= u32::MAX,
    ensures
        c == d,
{
    assert(pending(f, c) && pending(f, d));
}

proof fn lemma_reach_sound<S: Scalar>(
    w: int,
    h: int,
    elevation: Seq<S>,
    sea: S,
    epsilon: S,
    f: Flood<S>,
    c: int,
    k: nat,
)
    requires
        is_grid(w, h),
        0 <= c < w * h <= u32::MAX,
        flood_sound(w, h, elevation, sea, f),
        f.queued[c],
        k <= neighbors_of(w, h, c).len(),
    ensures
        ({
            let start = Flood { order: f.order.push(c as u32), ..f };
            let g = flood_reach(w, h, elevation, epsilon, start, c, k);
            &&& g.filled.len() == w * h
            &&& g.level.len() == w * h
            &&& g.queued.len() == w * h
            &&& g.order == start.order
            &&& forall|d: int|
                0 <= d < w * h && f.queued[d] ==> #[trigger] g.queued[d] && g.filled[d]
                    == f.filled[d] && g.level[d] == f.level[d]
            &&& forall|j: int|
                0 <= j < k ==> g.queued[(#[trigger] neighbors_of(w, h, c)[j]).0 as int]
        }),
    decreases k,
{
    if k > 0 {
        lemma_reach_sound(w, h, elevation, sea, epsilon, f, c, (k - 1) as nat);
        lemma_neighbors_in_grid(w, h, c, 8);
        let start = Flood { order: f.order.push(c as u32), ..f };
        let g0 = flood_reach(w, h, elevation, epsilon, start, c, (k - 1) as nat);
        let g = flood_reach(w, h, elevation, epsilon, start, c, k);
        let ns = neighbors_of(w, h, c);
        assert(ns == neighbors_by(w, h, c, 8));
        let m = ns[k - 1].0 as int;
        assert(0 <= m < w * h);
        assert(g0.queued[m] ==> g == g0);
        assert(!g0.queued[m] ==> g.queued == g0.queued.update(m, true) && g.order == g0.order);
        assert(g.queued.len() == w * h && g.filled.len() == w * h && g.level.len() == w * h);
        assert(g.order == start.order);
        assert forall|d: int| 0 <= d < w * h && f.queued[d] implies #[trigger] g.queued[d]
            && g.filled[d] == f.filled[d] && g.level[d] == f.level[d] by {
            assert(g0.queued[d]);
        }
        assert forall|j: int| 0 <= j < k implies g.queued[(#[trigger] ns[j]).0 as int] by {
            assert(0 <= ns[j].0 < w * h);
            if j < k - 1 {
                assert(g0.queued[ns[j].0 as int]);
            }
        }
    }
}

proof fn lemma_past_sound<S: Scalar>(
    w: int,
    h: int,
    elevation: Seq<S>,
    sea: S,
    epsilon: S,
    f: Flood<S>,
    c: int,
)
    requires
        is_grid(w, h),
        w * h <= u32::MAX,
        flood_sound(w, h, elevation, sea, f),
        pending(f, c),
    ensures
        flood_sound(w, h, elevation, sea, flood_past(w, h, elevation, epsilon, f, c)),
        flood_past(w, h, elevation, epsilon, f, c).order == f.order.push(c as u32),
{
    let ns = neighbors_of(w, h, c);
    lemma_reach_sound(w, h, elevation, sea, epsilon, f, c, ns.len());
    let g = flood_past(w, h, elevation, epsilon, f, c);
    let start = Flood { order: f.order.push(c as u32), ..f };
    assert(g == flood_reach(w, h, elevation, epsilon, start, c, ns.len()));
    assert(g.filled.len() == w * h && g.level.len() == w * h && g.queued.len() == w * h);
    assert forall|d: int| 0 <= d < w * h && f.queued[d] implies #[trigger] g.queued[d]
        && g.filled[d] == f.filled[d] && g.level[d] == f.level[d] by {}
    assert forall|d: int|
        0 <= d < w * h && is_outlet(w, h, elevation, sea, d) implies #[trigger] g.queued[d]
        && g.filled[d] == elevation[d] && g.level[d] == elevation[d] by {
        assert(f.queued[d]);
    }
    assert forall|i: int, j: int|
        #![trigger g.order[i], neighbors_of(w, h, g.order[i] as int)[j]]
        0 <= i < g.order.len() && 0 <= j < neighbors_of(
            w,
            h,
            g.order[i] as int,
        ).len() implies g.queued[neighbors_of(w, h, g.order[i] as int)[j].0 as int] by {
        if i < f.order.len() {
            assert(g.order[i] == f.order[i]);
            let d = f.order[i] as int;
            lemma_neighbors_in_grid(w, h, d, 8);
            assert(0 <= neighbors_by(w, h, d, 8)[j].0 < w * h);
            assert(f.queued[neighbors_of(w, h, d)[j].0 as int]);
        } else {
            assert(g.order[i] == c as u32);
        }
    }
    assert forall|i: int| 0 <= i < g.order.len() implies (#[trigger] g.order[i]) < w * h
        && g.queued[g.order[i] as int] by {
        if i < f.order.len() {
            assert(g.order[i] == f.order[i]);
        }
    }
    assert(g.order.no_duplicates()) by {
        assert forall|i: int, j: int|
            0 <= i < g.order.len() && 0 <= j < g.order.len() && i != j implies g.order[i]
            != g.order[j] by {
            if i < f.order.len() {
                assert(f.order.contains(f.order[i]));
            }
            if j < f.order.len() {
                assert(f.order.contains(f.order[j]));
            }
        }
    }
}

/// Where no shore is left, the water has been everywhere.
proof fn lemma_flood_fills_row<S: Scalar>(
    w: int,
    h: int,
    elevation: Seq<S>,
    sea: S,
    f: Flood<S>,
    x: int,
    y: int,
)
    requires
        is_grid(w, h),
        w * h <= u32::MAX,
        flood_sound(w, h, elevation, sea, f),
        forall|c: int| !(#[trigger] pending(f, c)),
        0 <= x < w,
        0 <= y < h,
    ensures
        f.order.contains(cell_index(w, x, y) as u32),
    decreases y,
{
    let c = cell_index(w, x, y);
    lemma_cell_in_grid(w, h, x, y);
    lemma_coords_of_cell(w, x, y);
    if y == 0 {
        assert(is_outlet(w, h, elevation, sea, c));
        assert(f.queued[c]);
    } else {
        lemma_flood_fills_row(w, h, elevation, sea, f, x, y - 1);
        let north = cell_index(w, x, y - 1);
        lemma_cell_in_grid(w, h, x, y - 1);
        lemma_coords_of_cell(w, x, y - 1);
        assert(OFFSETS8[2].0 == 0 && OFFSETS8[2].1 == 1);
        assert((x + 0) % w == x) by {
            vstd::arithmetic::div_mod::lemma_small_mod(x as nat, w as nat);
        }
        assert(neighbor_of(w, h, north % w, north / w, 0, 1) == Some(c));
        lemma_neighbor_is_listed(w, h, north, 2, 8);
        let i = choose|i: int| 0 <= i < f.order.len() && f.order[i] == north as u32;
        let ns = neighbors_of(w, h, f.order[i] as int);
        assert(ns == neighbors_by(w, h, north, 8));
        let j = choose|j: int|
            0 <= j < ns.len() && #[trigger] ns[j] == (c as usize, OFFSETS8[2].0, OFFSETS8[2].1);
        assert(f.queued[ns[j].0 as int]);
    }
    assert(!pending(f, c));
}

/// A flood that has moved on from `k` cells is sound; it stops when it has
/// moved on from all of them, and not before.
pub proof fn lemma_flood_sound<S: Scalar>(
    w: int,
    h: int,
    elevation: Seq<S>,
    sea: S,
    epsilon: S,
    k: nat,
)
    requires
        is_grid(w, h),
        w * h <= u32::MAX,
        k <= w * h,
    ensures
        ({
            let f = flood_after(w, h, elevation, sea, epsilon, k);
            &&& flood_sound(w, h, elevation, sea, f)
            &&& f.order.len() == k
            &&& k < w * h <==> exists|c: int| is_next(f, c)
        }),
    decreases k,
{
    let f = flood_after(w, h, elevation, sea, epsilon, k);
    if k > 0 {
        lemma_flood_sound(w, h, elevation, sea, epsilon, (k - 1) as nat);
        let f0 = flood_after(w, h, elevation, sea, epsilon, (k - 1) as nat);
        let c = choose|c: int| is_next(f0, c);
        assert(is_next(f0, c));
        lemma_past_sound(w, h, elevation, sea, epsilon, f0, c);
    }
    lemma_distinct_cells(f.order, w * h);
    if k < w * h {
        if forall|c: int| !(#[trigger] pending(f, c)) {
            assert forall|c: int| 0 <= c < w * h implies f.order.contains(#[trigger] (c as u32)) by {
                lemma_row_in_grid(w, h, c);
                lemma_cell_of_coords(w, c);
                lemma_flood_fills_row(w, h, elevation, sea, f, c % w, c / w);
            }
            lemma_all_cells(f.order, w * h);
        }
        let d = choose|d: int| #[trigger] pending(f, d);
        lemma_lowest_exists(f, d);
    } else {
        assert forall|c: int| !is_next(f, c) by {
            if is_next(f, c) {
                assert(pending(f, c));
                assert(f.order.contains(c as u32));
            }
        }
    }
}

/// All cells below `n` are at least `n` many.
proof fn lemma_all_cells(order: Seq<u32>, n: int)
    requires
        0 <= n <= u32::MAX,
        forall|c: int| 0 <= c < n ==> order.contains(#[trigger] (c as u32)),
    ensures
        order.len() >= n,
{
    if order.len() < n {
        // The place of each cell in the order: distinct places below `n`, and
        // so all of them.
        let places = Seq::new(
            n as nat,
            |c: int| (choose|i: int| 0 <= i < order.len() && order[i] == c as u32) as u32,
        );
        assert forall|c: int| 0 <= c < n implies (#[trigger] places[c]) < order.len()
            && order[places[c] as int] == c as u32 by {
            assert(order.contains(c as u32));
        }
        assert(places.no_duplicates()) by {
            assert forall|c: int, d: int|
                0 <= c < places.len() && 0 <= d < places.len() && c != d implies places[c]
                != places[d] by {
                assert(order[places[c] as int] == c as u32);
                assert(order[places[d] as int] == d as u32);
            }
        }
        lemma_distinct_cells(places, order.len() as int);
    }
}

// --- the flood -------------------------------------------------------------
spec fn holds_shore<S: Scalar>(contents: Multiset<(i64, u32)>, f: Flood<S>) -> bool {
    forall|e: (i64, u32)| #[trigger]
        contents.count(e) == if pending(f, e.1 as int) && e.0 == f.filled[e.1 as int].rank() {
            1nat
        } else {
            0
        }
}

/// Flood the world from its outlets: the tilted level of each cell, the level
/// without the tilt, and the order in which the cells were passed.
pub fn flood<S: Scalar>(world: &World<S>, sea: S, epsilon: S) -> (r: (Vec<S>, Vec<S>, Vec<u32>))
    requires
        world.wf(),
        world.cells() <= u32::MAX,
    ensures
        ({
            let f = flooded(
                world.width as int,
                world.height as int,
                world.elevation@,
                sea,
                epsilon,
            );
            r.0@ == f.filled && r.1@ == f.level && r.2@ == f.order
        }),
        r.0@.len() == world.cells(),
        r.1@.len() == world.cells(),
        r.2@.len() == world.cells(),
        r.2@.no_duplicates(),
        forall|i: int| 0 <= i < r.2@.len() ==> (#[trigger] r.2@[i]) < world.cells(),
{
    let n: usize = world.len();
    let ghost w = world.width as int;
    let ghost h = world.height as int;
    let ghost elevation = world.elevation@;
    let mut filled: Vec<S> = repeated(S::largest(), n);
    let mut level: Vec<S> = repeated(S::largest(), n);
    let mut queued: Vec<bool> = repeated(false, n);
    let mut order: Vec<u32> = Vec::new();
    let mut heap = MinHeap::new();
    let mut i: usize = 0;
    while i < n
        invariant
            i <= n,
            n == world.cells(),
            n <= u32::MAX,
            world.wf(),
            w == world.width,
            h == world.height,
            elevation == world.elevation@,
            filled@.len() == n,
            level@.len() == n,
            queued@.len() == n,
            order@ == Seq::<u32>::empty(),
            heap.wf(),
            forall|c: int|
                #![trigger queued@[c]]
                #![trigger filled@[c]]
                #![trigger level@[c]]
                0 <= c < i ==> {
                    &&& queued@[c] == is_outlet(w, h, elevation, sea, c)
                    &&& filled@[c] == (if queued@[c] {
                        elevation[c]
                    } else {
                        S::top()
                    })
                    &&& level@[c] == filled@[c]
                },
            forall|c: int|
                #![trigger queued@[c]]
                #![trigger filled@[c]]
                #![trigger level@[c]]
                i <= c < n ==> !queued@[c] && filled@[c] == S::top() && level@[c] == S::top(),
            holds_shore(
                heap.contents(),
                (Flood { filled: filled@, level: level@, queued: queued@, order: order@ }),
            ),
        decreases n - i,
    {
        let (_, y) = world.coords(i);
        proof {
            lemma_row_in_grid(w, h, i as int);
        }
        let e = world.elevation[i];
        let is_edge = y == 0 || y == world.height - 1;
        if e.at_most(sea) || is_edge {
            filled.set(i, e);
            level.set(i, e);
            queued.set(i, true);
            heap.push((e.order_key(), i as u32));
        }
        i += 1;
    }
    proof {
        let s = flood_start(w, h, elevation, sea);
        assert(filled@ =~= s.filled);
        assert(level@ =~= s.level);
        assert(queued@ =~= s.queued);
    }
    let ghost mut k: nat = 0;
    loop
        invariant
            n == world.cells(),
            n <= u32::MAX,
            world.wf(),
            w == world.width,
            h == world.height,
            elevation == world.elevation@,
            k <= n,
            heap.wf(),
            (Flood { filled: filled@, level: level@, queued: queued@, order: order@ })
                == flood_after(w, h, elevation, sea, epsilon, k),
            holds_shore(heap.contents(), flood_after(w, h, elevation, sea, epsilon, k)),
        ensures
            (Flood { filled: filled@, level: level@, queued: queued@, order: order@ })
                == flooded(w, h, elevation, sea, epsilon),
        decreases n - k,
    {
        let ghost f = flood_after(w, h, elevation, sea, epsilon, k);
        let ghost contents = heap.contents();
        proof {
            lemma_flood_sound(w, h, elevation, sea, epsilon, k);
        }
        match heap.pop() {
            None => {
                proof {
                    assert forall|c: int| !is_next(f, c) by {
                        if is_next(f, c) {
                            assert(pending(f, c));
                            assert(contents.count(flood_key(f, c)) == 1);
                        }
                    }
                    assert(k == n);
                }
                break;
            },
            Some((key, cell)) => {
                let idx: usize = cell as usize;
                proof {
                    assert(contents.count((key, cell)) == 1);
                    assert(pending(f, idx as int));
                    assert forall|d: int| #[trigger] pending(f, d) implies comes_first(
                        flood_key(f, idx as int),
                        flood_key(f, d),
                    ) by {
                        assert(contents.count(flood_key(f, d)) == 1);
                    }
                    assert(is_next(f, idx as int));
                    let c0 = choose|c: int| is_next(f, c);
                    lemma_lowest_is_unique(f, idx as int, c0);
                }
                order.push(cell);
                let here = filled[idx];
                let water = level[idx];
                let ns = world.neighbors8(idx);
                let ghost start = Flood { order: f.order.push(cell), ..f };
                let mut j: usize = 0;
                proof {
                    assert forall|e: (i64, u32)| #[trigger]
                        heap.contents().count(e) == if pending(start, e.1 as int) && e.0
                            == start.filled[e.1 as int].rank() {
                            1nat
                        } else {
                            0
                        } by {
                        assert(contents.count(e) == if pending(f, e.1 as int) && e.0
                            == f.filled[e.1 as int].rank() {
                            1nat
                        } else {
                            0
                        });
                        assert(start.order.contains(e.1) == (f.order.contains(e.1) || e.1 == cell))
                            by {
                            if f.order.contains(e.1) {
                                let q = choose|q: int| 0 <= q < f.order.len() && f.order[q] == e.1;
                                assert(start.order[q] == e.1);
                            }
                            assert(start.order[f.order.len() as int] == cell);
                        }
                    }
                    assert(start =~= (Flood {
                        filled: filled@,
                        level: level@,
                        queued: queued@,
                        order: order@,
                    }));
                }
                while j < ns.len()
                    invariant
                        j <= ns@.len(),
                        n == world.cells(),
                        n <= u32::MAX,
                        world.wf(),
                        w == world.width,
                        h == world.height,
                        elevation == world.elevation@,
                        idx < n,
                        idx == cell,
                        here == start.filled[idx as int],
                        water == start.level[idx as int],
                        ns@ == neighbors_of(w, h, idx as int),
                        forall|q: int| 0 <= q < ns@.len() ==> (#[trigger] ns@[q]).0 < n,
                        flood_sound(w, h, elevation, sea, f),
                        f.queued[idx as int],
                        start == (Flood { order: f.order.push(cell), ..f }),
                        heap.wf(),
                        (Flood { filled: filled@, level: level@, queued: queued@, order: order@ })
                            == flood_reach(w, h, elevation, epsilon, start, idx as int, j as nat),
                        holds_shore(
                            heap.contents(),
                            flood_reach(w, h, elevation, epsilon, start, idx as int, j as nat),
                        ),
                    decreases ns@.len() - j,
                {
                    let ghost g = flood_reach(
                        w,
                        h,
                        elevation,
                        epsilon,
                        start,
                        idx as int,
                        j as nat,
                    );
                    let ghost contents = heap.contents();
                    proof {
                        lemma_reach_sound(w, h, elevation, sea, epsilon, f, idx as int, j as nat);
                    }
                    let m: usize = ns[j].0;
                    if !queued[m] {
                        let up = max_of(world.elevation[m], here.plus(epsilon));
                        queued.set(m, true);
                        filled.set(m, up);
                        level.set(m, max_of(world.elevation[m], water));
                        proof {
                            assert(!start.order.contains(m as u32)) by {
                                if start.order.contains(m as u32) {
                                    let q = choose|q: int|
                                        0 <= q < start.order.len() && start.order[q] == m as u32;
                                    if q < f.order.len() {
                                        assert(f.order[q] == m as u32);
                                        assert(f.queued[m as int]);
                                        assert(g.queued[m as int]);
                                    } else {
                                        assert(g.queued[m as int]);
                                    }
                                }
                            }
                        }
                        heap.push((up.order_key(), m as u32));
                        proof {
                            let g2 = flood_reach(
                                w,
                                h,
                                elevation,
                                epsilon,
                                start,
                                idx as int,
                                (j + 1) as nat,
                            );
                            assert(g2.order == start.order);
                            assert forall|e: (i64, u32)| #[trigger]
                                heap.contents().count(e) == if pending(g2, e.1 as int) && e.0
                                    == g2.filled[e.1 as int].rank() {
                                    1nat
                                } else {
                                    0
                                } by {
                                assert(contents.count(e) == if pending(g, e.1 as int) && e.0
                                    == g.filled[e.1 as int].rank() {
                                    1nat
                                } else {
                                    0
                                });
                            }
                        }
                    }
                    j += 1;
                }
                proof {
                    k = k + 1;
                    lemma_flood_sound(w, h, elevation, sea, epsilon, (k - 1) as nat);
                }
            },
        }
    }
    proof {
        lemma_flood_sound(w, h, elevation, sea, epsilon, n as nat);
    }
    (filled, level, order)
}
// --- laws ------------------------------------------------------------------
/// What the flood does to a cell that it reaches from `c`.
proof fn lemma_reach_new<S: Scalar>(
    w: int,
    h: int,
    elevation: Seq<S>,
    sea: S,
    epsilon: S,
    f: Flood<S>,
    c: int,
    k: nat,
    d: int,
)
    requires
        is_grid(w, h),
        0 <= c < w * h <= u32::MAX,
        flood_sound(w, h, elevation, sea, f),
        f.queued[c],
        k <= neighbors_of(w, h, c).len(),
        0 <= d < w * h,
        !f.queued[d],
    ensures
        ({
            let start = Flood { order: f.order.push(c as u32), ..f };
            let g = flood_reach(w, h, elevation, epsilon, start, c, k);
            g.queued[d] ==> {
                &&& g.filled[d] == larger(elevation[d], f.filled[c].add(epsilon))
                &&& g.level[d] == larger(elevation[d], f.level[c])
                &&& exists|j: int| 0 <= j < k && (#[trigger] neighbors_of(w, h, c)[j]).0 == d
            }
        }),
    decreases k,
{
    if k > 0 {
        lemma_reach_new(w, h, elevation, sea, epsilon, f, c, (k - 1) as nat, d);
        lemma_reach_sound(w, h, elevation, sea, epsilon, f, c, (k - 1) as nat);
        lemma_neighbors_in_grid(w, h, c, 8);
        let ns = neighbors_of(w, h, c);
        assert(ns == neighbors_by(w, h, c, 8));
        assert(0 <= ns[k - 1].0 < w * h);
        let start = Flood { order: f.order.push(c as u32), ..f };
        let g0 = flood_reach(w, h, elevation, epsilon, start, c, (k - 1) as nat);
        if g0.queued[d] {
            let j = choose|j: int| 0 <= j < k - 1 && (#[trigger] ns[j]).0 == d;
            assert(0 <= j < k && ns[j].0 == d);
        }
    }
}

/// The water came to `d` from its neighbour `c`: `d` drains at its own height,
/// or just above the level of `c`.
pub open spec fn reached_from<S: Scalar>(
    w: int,
    h: int,
    elevation: Seq<S>,
    epsilon: S,
    f: Flood<S>,
    d: int,
    c: int,
) -> bool {
    &&& 0 <= c < w * h
    &&& exists|j: int|
        0 <= j < neighbors_of(w, h, c).len() && (#[trigger] neighbors_of(w, h, c)[j]).0 == d
    &&& f.filled[d] == larger(elevation[d], f.filled[c].add(epsilon))
    &&& f.level[d] == larger(elevation[d], f.level[c])
}

proof fn lemma_reached_from<S: Scalar>(
    w: int,
    h: int,
    elevation: Seq<S>,
    sea: S,
    epsilon: S,
    k: nat,
    d: int,
)
    requires
        is_grid(w, h),
        w * h <= u32::MAX,
        k <= w * h,
        0 <= d < w * h,
        !is_outlet(w, h, elevation, sea, d),
    ensures
        ({
            let f = flood_after(w, h, elevation, sea, epsilon, k);
            f.queued[d] ==> exists|c: int|
                f.queued[c] && #[trigger] reached_from(w, h, elevation, epsilon, f, d, c)
        }),
    decreases k,
{
    if k > 0 {
        lemma_reached_from(w, h, elevation, sea, epsilon, (k - 1) as nat, d);
        lemma_flood_sound(w, h, elevation, sea, epsilon, (k - 1) as nat);
        let f0 = flood_after(w, h, elevation, sea, epsilon, (k - 1) as nat);
        let f = flood_after(w, h, elevation, sea, epsilon, k);
        let c = choose|c: int| is_next(f0, c);
        assert(is_next(f0, c) && pending(f0, c));
        let len = neighbors_of(w, h, c).len();
        lemma_reach_sound(w, h, elevation, sea, epsilon, f0, c, len);
        if f0.queued[d] {
            let b = choose|b: int|
                f0.queued[b] && #[trigger] reached_from(w, h, elevation, epsilon, f0, d, b);
            assert(f.queued[d] && f.queued[b]);
            assert(reached_from(w, h, elevation, epsilon, f, d, b));
        } else if f.queued[d] {
            lemma_reach_new(w, h, elevation, sea, epsilon, f0, c, len, d);
            assert(f.queued[c]);
            assert(reached_from(w, h, elevation, epsilon, f, d, c));
        }
    }
}

/// The flood reaches every cell, and passes each of them once.
pub proof fn flood_passes_every_cell<S: Scalar>(
    w: int,
    h: int,
    elevation: Seq<S>,
    sea: S,
    epsilon: S,
)
    requires
        is_grid(w, h),
        w * h <= u32::MAX,
    ensures
        ({
            let f = flooded(w, h, elevation, sea, epsilon);
            &&& f.order.len() == w * h
            &&& f.order.no_duplicates()
            &&& forall|c: int| 0 <= c < w * h ==> f.order.contains(#[trigger] (c as u32))
        }),
{
    assert(w * h >= 0) by (nonlinear_arith)
        requires
            w > 0,
            h >= 0,
    ;
    lemma_flood_sound(w, h, elevation, sea, epsilon, (w * h) as nat);
    lemma_distinct_cells(flooded(w, h, elevation, sea, epsilon).order, w * h);
}

/// Outlets keep their own height. Every other cell is reached from one of its
/// neighbours, and drains at its own height or just above that neighbour's
/// level.
pub proof fn water_comes_from_a_neighbour<S: Scalar>(
    w: int,
    h: int,
    elevation: Seq<S>,
    sea: S,
    epsilon: S,
    d: int,
)
    requires
        is_grid(w, h),
        w * h <= u32::MAX,
        0 <= d < w * h,
    ensures
        ({
            let f = flooded(w, h, elevation, sea, epsilon);
            if is_outlet(w, h, elevation, sea, d) {
                f.filled[d] == elevation[d] && f.level[d] == elevation[d]
            } else {
                exists|c: int| reached_from(w, h, elevation, epsilon, f, d, c)
            }
        }),
{
    let n = (w * h) as nat;
    lemma_flood_sound(w, h, elevation, sea, epsilon, n);
    flood_passes_every_cell(w, h, elevation, sea, epsilon);
    let f = flooded(w, h, elevation, sea, epsilon);
    assert(f.order.contains(d as u32));
    assert(f.queued[d]);
    if !is_outlet(w, h, elevation, sea, d) {
        lemma_reached_from(w, h, elevation, sea, epsilon, n, d);
    }
}

/// The filled surface never dips below the terrain, with the tilt or without.
pub proof fn filled_surface_covers_the_terrain<S: Scalar>(
    w: int,
    h: int,
    elevation: Seq<S>,
    sea: S,
    epsilon: S,
    d: int,
)
    requires
        is_grid(w, h),
        w * h <= u32::MAX,
        0 <= d < w * h,
        linearly_ordered::<S>(),
        elevation[d].finite(),
    ensures
        elevation[d].le(flooded(w, h, elevation, sea, epsilon).filled[d]),
        elevation[d].le(flooded(w, h, elevation, sea, epsilon).level[d]),
{
    water_comes_from_a_neighbour(w, h, elevation, sea, epsilon, d);
    assert(elevation[d].le(elevation[d]));
}

/// The tilt never puts a cell below the water that it was reached from.
pub open spec fn tilt_rises<S: Scalar>(epsilon: S) -> bool {
    forall|e: S, l: S|
        e.le(e) && l.le(l) ==> {
            let up = #[trigger] larger(e, l.add(epsilon));
            up.le(up) && l.rank() <= up.rank()
        }
}

/// What was passed was passed in ascending order, and lies below the shore.
spec fn ascends<S: Scalar>(f: Flood<S>) -> bool {
    &&& forall|i: int, j: int|
        #![trigger f.order[i], f.order[j]]
        0 <= i < j < f.order.len() ==> f.filled[f.order[i] as int].rank()
            <= f.filled[f.order[j] as int].rank()
    &&& forall|i: int, d: int|
        #![trigger f.order[i], pending(f, d)]
        0 <= i < f.order.len() && pending(f, d) ==> f.filled[f.order[i] as int].rank()
            <= f.filled[d].rank()
    &&& forall|c: int|
        0 <= c < f.queued.len() && #[trigger] f.queued[c] ==> f.filled[c].le(f.filled[c])
}

proof fn lemma_ascends<S: Scalar>(
    w: int,
    h: int,
    elevation: Seq<S>,
    sea: S,
    epsilon: S,
    k: nat,
)
    requires
        is_grid(w, h),
        w * h <= u32::MAX,
        k <= w * h,
        tilt_rises(epsilon),
        elevation.len() == w * h,
        forall|c: int| 0 <= c < w * h ==> (#[trigger] elevation[c]).le(elevation[c]),
    ensures
        ascends(flood_after(w, h, elevation, sea, epsilon, k)),
    decreases k,
{
    if k > 0 {
        lemma_ascends(w, h, elevation, sea, epsilon, (k - 1) as nat);
        lemma_flood_sound(w, h, elevation, sea, epsilon, (k - 1) as nat);
        let f0 = flood_after(w, h, elevation, sea, epsilon, (k - 1) as nat);
        let f = flood_after(w, h, elevation, sea, epsilon, k);
        let c = choose|c: int| is_next(f0, c);
        assert(is_next(f0, c) && pending(f0, c));
        let len = neighbors_of(w, h, c).len();
        lemma_reach_sound(w, h, elevation, sea, epsilon, f0, c, len);
        assert(f.order == f0.order.push(c as u32));
        assert(f.queued[c]);
        let up = f0.filled[c].add(epsilon);
        assert forall|d: int| 0 <= d < f.queued.len() && #[trigger] f.queued[d] implies f.filled[d].le(
            f.filled[d],
        ) && (!f0.queued[d] ==> f0.filled[c].rank() <= f.filled[d].rank()) && (f0.queued[d]
            ==> f.filled[d] == f0.filled[d]) by {
            if !f0.queued[d] {
                lemma_reach_new(w, h, elevation, sea, epsilon, f0, c, len, d);
                assert(elevation[d].le(elevation[d]));
                assert(f.filled[d] == larger(elevation[d], up));
            }
        }
        assert forall|i: int| 0 <= i < f0.order.len() implies f0.queued[#[trigger] f0.order[i] as int]
            && f0.filled[f0.order[i] as int].rank() <= f0.filled[c].rank() && f.filled[f0.order[i] as int]
            == f0.filled[f0.order[i] as int] by {
            assert(f.queued[f0.order[i] as int]);
        }
        assert forall|i: int, j: int|
            #![trigger f.order[i], f.order[j]]
            0 <= i < j < f.order.len() implies f.filled[f.order[i] as int].rank()
            <= f.filled[f.order[j] as int].rank() by {
            assert(f.order[i] == f0.order[i]);
            if j < f0.order.len() {
                assert(f.order[j] == f0.order[j]);
            }
        }
        assert forall|i: int, d: int|
            #![trigger f.order[i], pending(f, d)]
            0 <= i < f.order.len() && pending(f, d) implies f.filled[f.order[i] as int].rank()
            <= f.filled[d].rank() by {
            assert(f.queued[d]);
            if f0.queued[d] {
                assert(!f0.order.contains(d as u32)) by {
                    if f0.order.contains(d as u32) {
                        let q = choose|q: int| 0 <= q < f0.order.len() && f0.order[q] == d as u32;
                        assert(f.order[q] == d as u32);
                    }
                }
                assert(pending(f0, d));
                assert(comes_first(flood_key(f0, c), flood_key(f0, d)));
            }
            if i < f0.order.len() {
                assert(f.order[i] == f0.order[i]);
            }
        }
    }
}

/// Cells are passed in ascending order of their filled level.
pub proof fn flood_order_ascends<S: Scalar>(
    w: int,
    h: int,
    elevation: Seq<S>,
    sea: S,
    epsilon: S,
    i: int,
    j: int,
)
    requires
        is_grid(w, h),
        w * h <= u32::MAX,
        tilt_rises(epsilon),
        elevation.len() == w * h,
        forall|c: int| 0 <= c < w * h ==> (#[trigger] elevation[c]).le(elevation[c]),
        0 <= i <= j < w * h,
    ensures
        ({
            let f = flooded(w, h, elevation, sea, epsilon);
            f.filled[f.order[i] as int].rank() <= f.filled[f.order[j] as int].rank()
        }),
{
    lemma_ascends(w, h, elevation, sea, epsilon, (w * h) as nat);
    lemma_flood_sound(w, h, elevation, sea, epsilon, (w * h) as nat);
}

/// The water came to `d` from the `i`-th cell that it passed, and had passed no
/// neighbour of `d` before.
spec fn first_reached<S: Scalar>(
    w: int,
    h: int,
    elevation: Seq<S>,
    epsilon: S,
    f: Flood<S>,
    d: int,
    i: int,
) -> bool {
    &&& 0 <= i < f.order.len()
    &&& reached_from(w, h, elevation, epsilon, f, d, f.order[i] as int)
    &&& forall|p: int, j: int|
        #![trigger f.order[p], neighbors_of(w, h, f.order[p] as int)[j]]
        0 <= p < i && 0 <= j < neighbors_of(w, h, f.order[p] as int).len() ==> neighbors_of(
            w,
            h,
            f.order[p] as int,
        )[j].0 != d
}

proof fn lemma_first_reached<S: Scalar>(
    w: int,
    h: int,
    elevation: Seq<S>,
    sea: S,
    epsilon: S,
    k: nat,
    d: int,
)
    requires
        is_grid(w, h),
        w * h <= u32::MAX,
        k <= w * h,
        0 <= d < w * h,
        !is_outlet(w, h, elevation, sea, d),
    ensures
        ({
            let f = flood_after(w, h, elevation, sea, epsilon, k);
            f.queued[d] ==> exists|i: int| first_reached(w, h, elevation, epsilon, f, d, i)
        }),
    decreases k,
{
    if k > 0 {
        lemma_first_reached(w, h, elevation, sea, epsilon, (k - 1) as nat, d);
        lemma_flood_sound(w, h, elevation, sea, epsilon, (k - 1) as nat);
        let f0 = flood_after(w, h, elevation, sea, epsilon, (k - 1) as nat);
        let f = flood_after(w, h, elevation, sea, epsilon, k);
        let c = choose|c: int| is_next(f0, c);
        assert(is_next(f0, c) && pending(f0, c));
        let len = neighbors_of(w, h, c).len();
        lemma_reach_sound(w, h, elevation, sea, epsilon, f0, c, len);
        assert(f.order == f0.order.push(c as u32));
        if f0.queued[d] {
            let i = choose|i: int| first_reached(w, h, elevation, epsilon, f0, d, i);
            let b = f0.order[i] as int;
            assert(f0.queued[b]);
            assert(f.queued[d] && f.queued[b]);
            assert(f.order[i] == f0.order[i]);
            assert forall|p: int, j: int|
                #![trigger f.order[p], neighbors_of(w, h, f.order[p] as int)[j]]
                0 <= p < i && 0 <= j < neighbors_of(
                    w,
                    h,
                    f.order[p] as int,
                ).len() implies neighbors_of(w, h, f.order[p] as int)[j].0 != d by {
                assert(f.order[p] == f0.order[p]);
                assert(neighbors_of(w, h, f0.order[p] as int)[j].0 != d);
            }
            assert(first_reached(w, h, elevation, epsilon, f, d, i));
        } else if f.queued[d] {
            lemma_reach_new(w, h, elevation, sea, epsilon, f0, c, len, d);
            assert(f.queued[c]);
            let i = f0.order.len() as int;
            assert(f.order[i] == c as u32);
            assert forall|p: int, j: int|
                #![trigger f.order[p], neighbors_of(w, h, f.order[p] as int)[j]]
                0 <= p < i && 0 <= j < neighbors_of(
                    w,
                    h,
                    f.order[p] as int,
                ).len() implies neighbors_of(w, h, f.order[p] as int)[j].0 != d by {
                assert(f.order[p] == f0.order[p]);
                assert(f0.queued[neighbors_of(w, h, f0.order[p] as int)[j].0 as int]);
            }
            assert(first_reached(w, h, elevation, epsilon, f, d, i));
        }
    }
}

/// No neighbour of `d` lies lower than its neighbour `c`.
pub open spec fn lowest_neighbor<S: Scalar>(
    w: int,
    h: int,
    filled: Seq<S>,
    d: int,
    c: int,
) -> bool {
    &&& exists|j: int|
        0 <= j < neighbors_of(w, h, d).len() && (#[trigger] neighbors_of(w, h, d)[j]).0 == c
    &&& forall|j: int|
        0 <= j < neighbors_of(w, h, d).len() ==> filled[c].le(
            filled[(#[trigger] neighbors_of(w, h, d)[j]).0 as int],
        )
}

/// The water takes the lowest way in: off the outlets, a cell is filled to its
/// own height, or to just above the lowest of its neighbours where that is
/// higher.
pub proof fn water_takes_the_lowest_way<S: Scalar>(
    w: int,
    h: int,
    elevation: Seq<S>,
    sea: S,
    epsilon: S,
    d: int,
)
    requires
        is_grid(w, h),
        w * h <= u32::MAX,
        tilt_rises(epsilon),
        linearly_ordered::<S>(),
        elevation.len() == w * h,
        forall|c: int| 0 <= c < w * h ==> (#[trigger] elevation[c]).le(elevation[c]),
        0 <= d < w * h,
        !is_outlet(w, h, elevation, sea, d),
    ensures
        ({
            let f = flooded(w, h, elevation, sea, epsilon);
            exists|c: int| #[trigger]
                lowest_neighbor(w, h, f.filled, d, c) && 0 <= c < w * h && f.filled[d] == larger(
                    elevation[d],
                    f.filled[c].add(epsilon),
                ) && f.level[d] == larger(elevation[d], f.level[c])
        }),
{
    let n = (w * h) as nat;
    let f = flooded(w, h, elevation, sea, epsilon);
    lemma_flood_sound(w, h, elevation, sea, epsilon, n);
    flood_passes_every_cell(w, h, elevation, sea, epsilon);
    assert(f.order.contains(d as u32));
    assert(f.queued[d]);
    lemma_first_reached(w, h, elevation, sea, epsilon, n, d);
    lemma_ascends(w, h, elevation, sea, epsilon, n);
    let i = choose|i: int| first_reached(w, h, elevation, epsilon, f, d, i);
    let c = f.order[i] as int;
    let out = choose|j: int|
        0 <= j < neighbors_of(w, h, c).len() && (#[trigger] neighbors_of(w, h, c)[j]).0 == d;
    neighbors_are_mutual(w, h, c, out);
    let (_, dx, dy) = neighbors_of(w, h, c)[out];
    let ns = neighbors_of(w, h, d);
    let back = choose|q: int|
        0 <= q < ns.len() && #[trigger] ns[q] == (c as usize, (-dx) as i64, (-dy) as i64);
    assert(ns[back].0 == c);
    lemma_neighbors_in_grid(w, h, d, 8);
    assert(ns == neighbors_by(w, h, d, 8));
    assert forall|j: int| 0 <= j < ns.len() implies f.filled[c].le(
        f.filled[(#[trigger] ns[j]).0 as int],
    ) by {
        let m = ns[j].0 as int;
        assert(0 <= m < w * h);
        assert(f.order.contains(m as u32));
        let p = choose|p: int| 0 <= p < f.order.len() && f.order[p] == m as u32;
        neighbors_are_mutual(w, h, d, j);
        let (_, ex, ey) = ns[j];
        let there = choose|q: int|
            0 <= q < neighbors_of(w, h, m).len() && #[trigger] neighbors_of(w, h, m)[q] == (
                d as usize,
                (-ex) as i64,
                (-ey) as i64,
            );
        if p < i {
            assert(neighbors_of(w, h, f.order[p] as int)[there].0 != d);
        }
        assert(f.filled[f.order[i] as int].rank() <= f.filled[f.order[p] as int].rank());
        assert(f.queued[f.order[i] as int] && f.queued[f.order[p] as int]);
        assert(f.filled[c].le(f.filled[c]) && f.filled[m].le(f.filled[m]));
        assert(!f.filled[m].lt(f.filled[c]));
    }
    assert(lowest_neighbor(w, h, f.filled, d, c));
}

} // verus!
