//! Boundary detection and classification.
//!
//! A boundary record is produced per (cell, neighbouring plate) pair along the
//! edge of a Voronoi region. Because a Voronoi edge is the perpendicular
//! bisector of its two sites, the boundary normal is simply the direction from
//! one site to the other.
//!
//! Classification comes entirely from relative plate velocity, so changing a
//! plate's velocity changes the behaviour of all of its boundaries.

pub use crate::distance::NO_SOURCE;
use crate::distance::{cylinder_distance2, distance_is_exact, nearest_seed, nearest_seeds, MAX_SIDE};
use crate::fixed::Fixed;
use crate::math::{delta_between, normalize_or_zero, perp, turned, Vec2};
use crate::plate::{Plate, PlateId};
use crate::scalar::{abs_of, linearly_ordered, magnitude, repeated, Scalar};
use crate::world::{
    is_grid, lemma_cell_in_grid, lemma_row_in_grid, neighbor_of, steps_are_reversible, World,
};
use vstd::prelude::*;

verus! {

#[derive(Clone, Copy, Debug, PartialEq, Eq, Structural)]
pub enum BoundaryKind {
    Convergent,
    Divergent,
    Transform,
}

#[derive(Clone, Copy, Debug)]
pub struct Boundary<S> {
    /// The cell this record sits on; it belongs to `plate_a`.
    pub cell: u32,
    pub plate_a: PlateId,
    /// The plate on the far side.
    pub plate_b: PlateId,
    /// Unit normal, pointing from a's site toward b's site.
    pub normal: Vec2<S>,
    /// `dot(v_a - v_b, normal)`. Positive closes the gap, negative opens it.
    pub convergence: S,
    /// Relative motion along the boundary itself.
    pub shear: S,
    pub kind: BoundaryKind,
    /// Magnitude driving this boundary's effects.
    pub strength: S,
}

/// For every cell: the closest boundary record, and how far away it is.
///
/// Each cell is attributed to one boundary, so that a mountain range can be
/// traced to the boundary that raised it.
pub struct NearestBoundary<S> {
    pub dist: Vec<S>,
    pub source: Vec<u32>,
    pub max_radius: S,
}

// --- detection -------------------------------------------------------------
/// Offsets of a 4-connected walk.
pub const NEIGHBORS4: [(i64, i64); 4] = [(1, 0), (-1, 0), (0, 1), (0, -1)];

/// The cell one step away from `c` in one of the four directions.
pub open spec fn beside(w: int, h: int, c: int, k: int) -> Option<int> {
    neighbor_of(w, h, c % w, c / w, NEIGHBORS4[k].0 as int, NEIGHBORS4[k].1 as int)
}

/// The other plates that the first `k` neighbours of cell `c` belong to, each
/// once, in the order in which they are met.
pub open spec fn foreign_plates(w: int, h: int, ids: Seq<PlateId>, c: int, k: nat) -> Seq<PlateId>
    decreases k,
{
    if k == 0 {
        Seq::empty()
    } else {
        let met = foreign_plates(w, h, ids, c, (k - 1) as nat);
        match beside(w, h, c, k - 1) {
            Some(n) => if ids[n] == ids[c] || met.contains(ids[n]) {
                met
            } else {
                met.push(ids[n])
            },
            None => met,
        }
    }
}

/// The record for a cell of plate `a` next to plate `b`.
pub open spec fn classified<S: Scalar>(
    w: int,
    plates: Seq<Plate<S>>,
    cell: u32,
    a: PlateId,
    b: PlateId,
    transform_threshold: S,
) -> Boundary<S> {
    let pa = plates[a as int];
    let pb = plates[b as int];
    let cx = S::of_int(cell as int % w);
    let cy = S::of_int(cell as int / w);
    let to_a = delta_between(w, pa.position.x, pa.position.y, cx, cy);
    let to_b = delta_between(w, pb.position.x, pb.position.y, cx, cy);
    let normal = to_b.taken(to_a).unit();
    let relative = pa.velocity.taken(pb.velocity);
    let convergence = relative.inner(normal);
    let shear = relative.inner(turned(normal));
    Boundary {
        cell,
        plate_a: a,
        plate_b: b,
        normal,
        convergence,
        shear,
        kind: kind_of(convergence, transform_threshold),
        strength: strength_of(convergence, shear, transform_threshold),
    }
}

/// Closing faster than the threshold, opening faster than the threshold, or
/// neither.
pub open spec fn kind_of<S: Scalar>(convergence: S, threshold: S) -> BoundaryKind {
    if threshold.lt(convergence) {
        BoundaryKind::Convergent
    } else if convergence.lt(threshold.neg()) {
        BoundaryKind::Divergent
    } else {
        BoundaryKind::Transform
    }
}

pub open spec fn strength_of<S: Scalar>(convergence: S, shear: S, threshold: S) -> S {
    match kind_of(convergence, threshold) {
        BoundaryKind::Convergent => convergence,
        BoundaryKind::Divergent => convergence.neg(),
        BoundaryKind::Transform => magnitude(shear),
    }
}

/// The records of one cell.
pub open spec fn cell_records<S: Scalar>(
    w: int,
    h: int,
    ids: Seq<PlateId>,
    plates: Seq<Plate<S>>,
    threshold: S,
    c: int,
) -> Seq<Boundary<S>> {
    foreign_plates(w, h, ids, c, 4).map_values(
        |b: PlateId| classified(w, plates, c as u32, ids[c], b, threshold),
    )
}

/// The records of all cells below `n`, cell by cell.
pub open spec fn records_before<S: Scalar>(
    w: int,
    h: int,
    ids: Seq<PlateId>,
    plates: Seq<Plate<S>>,
    threshold: S,
    n: nat,
) -> Seq<Boundary<S>>
    decreases n,
{
    if n == 0 {
        Seq::empty()
    } else {
        records_before(w, h, ids, plates, threshold, (n - 1) as nat) + cell_records(
            w,
            h,
            ids,
            plates,
            threshold,
            n - 1,
        )
    }
}

/// All boundary records of a world.
pub open spec fn detected<S: Scalar>(
    w: int,
    h: int,
    ids: Seq<PlateId>,
    plates: Seq<Plate<S>>,
    threshold: S,
) -> Seq<Boundary<S>> {
    records_before(w, h, ids, plates, threshold, (w * h) as nat)
}

/// Wherever two plates meet, both are among the `count` plates of the world.
pub open spec fn meeting_plates_known(w: int, h: int, ids: Seq<PlateId>, count: int) -> bool {
    forall|c: int|
        #![trigger foreign_plates(w, h, ids, c, 4)]
        0 <= c < w * h && foreign_plates(w, h, ids, c, 4).len() > 0 ==> {
            &&& ids[c] < count
            &&& forall|i: int|
                0 <= i < foreign_plates(w, h, ids, c, 4).len() ==> #[trigger] foreign_plates(
                    w,
                    h,
                    ids,
                    c,
                    4,
                )[i] < count
        }
}

/// What is met early stays met.
proof fn lemma_foreign_grows(w: int, h: int, ids: Seq<PlateId>, c: int, k: nat, m: nat)
    requires
        k <= m,
    ensures
        foreign_plates(w, h, ids, c, k).len() <= foreign_plates(w, h, ids, c, m).len(),
        forall|i: int|
            0 <= i < foreign_plates(w, h, ids, c, k).len() ==> #[trigger] foreign_plates(
                w,
                h,
                ids,
                c,
                k,
            )[i] == foreign_plates(w, h, ids, c, m)[i],
    decreases m,
{
    if k < m {
        lemma_foreign_grows(w, h, ids, c, k, (m - 1) as nat);
    }
}

/// The foreign plates of a cell are those of its neighbours that differ from
/// its own, each of them once.
proof fn lemma_foreign_plates(w: int, h: int, ids: Seq<PlateId>, c: int, m: nat)
    requires
        m <= 4,
    ensures
        foreign_plates(w, h, ids, c, m).len() <= m,
        forall|b: PlateId|
            #![trigger foreign_plates(w, h, ids, c, m).contains(b)]
            foreign_plates(w, h, ids, c, m).contains(b) <==> b != ids[c] && exists|k: int|
                0 <= k < m && (#[trigger] beside(w, h, c, k)) is Some && ids[beside(w, h, c, k)->0]
                    == b,
        foreign_plates(w, h, ids, c, m).no_duplicates(),
    decreases m,
{
    let now = foreign_plates(w, h, ids, c, m);
    if m > 0 {
        let met = foreign_plates(w, h, ids, c, (m - 1) as nat);
        lemma_foreign_plates(w, h, ids, c, (m - 1) as nat);
        assert forall|b: PlateId| now.contains(b) <==> b != ids[c] && exists|k: int|
            0 <= k < m && (#[trigger] beside(w, h, c, k)) is Some && ids[beside(w, h, c, k)->0]
                == b by {
            if now.contains(b) {
                let i = choose|i: int| 0 <= i < now.len() && now[i] == b;
                if i < met.len() {
                    assert(met[i] == b);
                    assert(met.contains(b));
                } else {
                    assert(beside(w, h, c, m - 1) is Some);
                }
            }
            if b != ids[c] && exists|k: int|
                0 <= k < m && (#[trigger] beside(w, h, c, k)) is Some && ids[beside(w, h, c, k)->0]
                    == b {
                let k = choose|k: int|
                    0 <= k < m && (#[trigger] beside(w, h, c, k)) is Some && ids[beside(
                        w,
                        h,
                        c,
                        k,
                    )->0] == b;
                if k < m - 1 {
                    assert(met.contains(b));
                }
                if met.contains(b) {
                    let i = choose|i: int| 0 <= i < met.len() && met[i] == b;
                    assert(now[i] == b);
                } else {
                    assert(now.last() == b);
                }
            }
        }
    }
}

fn contains_id(v: &Vec<PlateId>, id: PlateId) -> (r: bool)
    ensures
        r == v@.contains(id),
{
    let mut i: usize = 0;
    while i < v.len()
        invariant
            i <= v@.len(),
            forall|j: int| 0 <= j < i ==> v@[j] != id,
        decreases v@.len() - i,
    {
        if v[i] == id {
            assert(v@[i as int] == id);
            return true;
        }
        i += 1;
    }
    false
}

/// Find every boundary cell and classify it.
///
/// `transform_threshold` is the normal-motion magnitude below which a boundary
/// is treated as pure strike-slip.
pub fn detect<S: Scalar>(
    world: &World<S>,
    plates: &Vec<Plate<S>>,
    transform_threshold: S,
) -> (out: Vec<Boundary<S>>)
    requires
        world.wf(),
        world.cells() <= u32::MAX,
        meeting_plates_known(
            world.width as int,
            world.height as int,
            world.plate_id@,
            plates@.len() as int,
        ),
    ensures
        out@ == detected(
            world.width as int,
            world.height as int,
            world.plate_id@,
            plates@,
            transform_threshold,
        ),
{
    let mut out: Vec<Boundary<S>> = Vec::new();
    let n: usize = world.len();
    let ghost w = world.width as int;
    let ghost h = world.height as int;
    let ghost ids = world.plate_id@;
    let mut idx: usize = 0;
    while idx < n
        invariant
            idx <= n,
            n == world.cells(),
            world.wf(),
            n <= u32::MAX,
            w == world.width,
            h == world.height,
            ids == world.plate_id@,
            meeting_plates_known(w, h, ids, plates@.len() as int),
            out@ == records_before(w, h, ids, plates@, transform_threshold, idx as nat),
        decreases n - idx,
    {
        let ghost before = out@;
        let (x, y) = world.coords(idx);
        proof {
            lemma_row_in_grid(w, h, idx as int);
        }
        let a: PlateId = world.plate_id[idx];
        let mut met: Vec<PlateId> = Vec::new();
        let mut k: usize = 0;
        while k < 4
            invariant
                k <= 4,
                idx < n,
                n == world.cells(),
                world.wf(),
                n <= u32::MAX,
                w == world.width,
                h == world.height,
                ids == world.plate_id@,
                a == ids[idx as int],
                x == idx as int % w,
                y == idx as int / w,
                0 <= x < w,
                0 <= y < h,
                meeting_plates_known(w, h, ids, plates@.len() as int),
                met@ == foreign_plates(w, h, ids, idx as int, k as nat),
                out@ == before + met@.map_values(
                    |b: PlateId|
                        classified(w, plates@, idx as u32, ids[idx as int], b, transform_threshold),
                ),
            decreases 4 - k,
        {
            let (dx, dy) = NEIGHBORS4[k];
            assert(-1 <= dx <= 1 && -1 <= dy <= 1);
            if let Some(m) = world.neighbor(x, y, dx, dy) {
                assert(beside(w, h, idx as int, k as int) == Some(m as int));
                let b: PlateId = world.plate_id[m];
                if b != a && !contains_id(&met, b) {
                    let ghost met0 = met@;
                    met.push(b);
                    proof {
                        lemma_foreign_grows(w, h, ids, idx as int, (k + 1) as nat, 4);
                        let all = foreign_plates(w, h, ids, idx as int, 4);
                        let next = foreign_plates(w, h, ids, idx as int, (k + 1) as nat);
                        assert(met@ == next);
                        assert(next[met0.len() as int] == b);
                        assert(all[met0.len() as int] == b);
                        assert(all.len() > 0);
                    }
                    out.push(classify(world, plates, idx as u32, a, b, transform_threshold));
                    proof {
                        assert(out@ =~= before + met@.map_values(
                            |b: PlateId|
                                classified(
                                    w,
                                    plates@,
                                    idx as u32,
                                    ids[idx as int],
                                    b,
                                    transform_threshold,
                                ),
                        ));
                    }
                }
            }
            k += 1;
        }
        idx += 1;
    }
    out
}

fn classify<S: Scalar>(
    world: &World<S>,
    plates: &Vec<Plate<S>>,
    cell: u32,
    a: PlateId,
    b: PlateId,
    transform_threshold: S,
) -> (r: Boundary<S>)
    requires
        world.wf(),
        a < plates@.len(),
        b < plates@.len(),
        cell < world.cells(),
    ensures
        r == classified(world.width as int, plates@, cell, a, b, transform_threshold),
{
    let pa = plates[a as usize];
    let pb = plates[b as usize];
    // On a cylinder two plates meet along two boundaries, and the correct
    // normal is opposite at each. Measuring both sites relative to this cell
    // picks the site images that are local to it.
    let (x, y) = world.coords(cell as usize);
    proof {
        lemma_row_in_grid(world.width as int, world.height as int, cell as int);
    }
    let cx = S::whole(x as i64);
    let cy = S::whole(y as i64);
    let to_a = world.delta(pa.position.x, pa.position.y, cx, cy);
    let to_b = world.delta(pb.position.x, pb.position.y, cx, cy);
    let normal = normalize_or_zero(to_b.minus(to_a));
    let tangent = perp(normal);
    let relative = pa.velocity.minus(pb.velocity);
    let convergence = relative.dot(normal);
    let shear = relative.dot(tangent);
    let kind = if transform_threshold.less(convergence) {
        BoundaryKind::Convergent
    } else if convergence.less(transform_threshold.negated()) {
        BoundaryKind::Divergent
    } else {
        BoundaryKind::Transform
    };
    let strength = match kind {
        BoundaryKind::Convergent => convergence,
        BoundaryKind::Divergent => convergence.negated(),
        BoundaryKind::Transform => abs_of(shear),
    };
    Boundary { cell, plate_a: a, plate_b: b, normal, convergence, shear, kind, strength }
}

// --- distance --------------------------------------------------------------
/// The record on cell `c` that stands for it, among the first `k` records: the
/// first one that no later one is stronger than. `NO_SOURCE` where there is
/// none.
pub open spec fn strongest_at<S: Scalar>(bs: Seq<Boundary<S>>, c: int, k: nat) -> u32
    decreases k,
{
    if k == 0 {
        NO_SOURCE
    } else {
        let before = strongest_at(bs, c, (k - 1) as nat);
        if bs[k - 1].cell == c && (before == NO_SOURCE || bs[before as int].strength.lt(
            bs[k - 1].strength,
        )) {
            (k - 1) as u32
        } else {
            before
        }
    }
}

/// The record that stands for each of `n` cells.
pub open spec fn seeds_of<S: Scalar>(bs: Seq<Boundary<S>>, n: nat) -> Seq<u32> {
    Seq::new(n, |c: int| strongest_at(bs, c, bs.len()))
}

/// The boundary that affects cell `c`, and its distance: the closest one, if it
/// is within the radius.
pub open spec fn affecting<S: Scalar>(
    w: int,
    h: int,
    bs: Seq<Boundary<S>>,
    max_radius: S,
    c: int,
) -> Option<(u32, S)> {
    match nearest_seed(seeds_of(bs, (w * h) as nat), w, h, c) {
        Some((s, d2)) => if S::of_int(d2).sqrt().le(max_radius) {
            Some((s, S::of_int(d2).sqrt()))
        } else {
            None
        },
        None => None,
    }
}

proof fn lemma_strongest<S: Scalar>(bs: Seq<Boundary<S>>, c: int, k: nat)
    requires
        k <= bs.len() < NO_SOURCE,
    ensures
        ({
            let s = strongest_at(bs, c, k);
            s == NO_SOURCE || (0 <= s < k && bs[s as int].cell == c)
        }),
        forall|i: int|
            0 <= i < k && #[trigger] bs[i].cell == c ==> strongest_at(bs, c, k) != NO_SOURCE,
    decreases k,
{
    if k > 0 {
        lemma_strongest(bs, c, (k - 1) as nat);
    }
}

/// The values `s` and `d` stand for `found`.
spec fn is_report<S: Scalar>(found: Option<(u32, S)>, s: u32, d: S, count: nat) -> bool {
    if found is Some {
        found->0 == (s, d) && s != NO_SOURCE && s < count
    } else {
        s == NO_SOURCE && d == S::top()
    }
}

impl<S: Scalar> NearestBoundary<S> {
    pub open spec fn lookup(&self, c: int) -> Option<(u32, S)> {
        if self.source@[c] == NO_SOURCE {
            None
        } else {
            Some((self.source@[c], self.dist@[c]))
        }
    }

    /// The boundary affecting `idx`, if one is within range.
    pub fn at(&self, idx: usize) -> (r: Option<(u32, S)>)
        requires
            idx < self.source@.len(),
            idx < self.dist@.len(),
        ensures
            r == self.lookup(idx as int),
    {
        let s: u32 = self.source[idx];
        if s == NO_SOURCE {
            None
        } else {
            Some((s, self.dist[idx]))
        }
    }
}

/// Distance to the nearest boundary cell, plus which boundary that was.
///
/// Several boundaries can share a cell where three plates meet; the strongest
/// one wins, so the visible feature is the dominant process. Outside the radius
/// nothing is affected at all.
pub fn nearest_boundary<S: Scalar>(
    world: &World<S>,
    boundaries: &Vec<Boundary<S>>,
    max_radius: S,
) -> (r: NearestBoundary<S>)
    requires
        world.wf(),
        world.width <= MAX_SIDE,
        world.height <= MAX_SIDE,
        boundaries@.len() < NO_SOURCE,
        forall|i: int|
            0 <= i < boundaries@.len() ==> #[trigger] boundaries@[i].cell < world.cells(),
    ensures
        r.max_radius == max_radius,
        r.dist@.len() == world.cells(),
        r.source@.len() == world.cells(),
        forall|c: int|
            0 <= c < world.cells() ==> #[trigger] r.lookup(c) == affecting(
                world.width as int,
                world.height as int,
                boundaries@,
                max_radius,
                c,
            ),
        forall|c: int|
            0 <= c < world.cells() && #[trigger] r.source@[c] == NO_SOURCE ==> r.dist@[c] == S::top(),
        forall|c: int|
            0 <= c < world.cells() && #[trigger] r.source@[c] != NO_SOURCE ==> r.source@[c]
                < boundaries@.len(),
{
    let n: usize = world.len();
    let ghost w = world.width as int;
    let ghost h = world.height as int;
    let mut seed: Vec<u32> = repeated(NO_SOURCE, n);
    let mut i: usize = 0;
    while i < boundaries.len()
        invariant
            i <= boundaries@.len() < NO_SOURCE,
            n == world.cells(),
            seed@.len() == n,
            forall|j: int|
                0 <= j < boundaries@.len() ==> #[trigger] boundaries@[j].cell < world.cells(),
            forall|c: int|
                0 <= c < n ==> #[trigger] seed@[c] == strongest_at(boundaries@, c, i as nat),
        decreases boundaries@.len() - i,
    {
        let b = &boundaries[i];
        let c: usize = b.cell as usize;
        let current: u32 = seed[c];
        proof {
            lemma_strongest(boundaries@, c as int, i as nat);
        }
        if current == NO_SOURCE || boundaries[current as usize].strength.less(b.strength) {
            seed.set(c, i as u32);
        }
        i += 1;
    }
    proof {
        assert(seed@ =~= seeds_of(boundaries@, n as nat));
    }
    let (source2, dist2) = nearest_seeds(&seed, world.width, world.height);
    let mut dist: Vec<S> = repeated(S::largest(), n);
    let mut source: Vec<u32> = repeated(NO_SOURCE, n);
    let mut c: usize = 0;
    while c < n
        invariant
            c <= n,
            n == world.cells(),
            w == world.width,
            h == world.height,
            0 < w,
            is_grid(w, h),
            n == w * h,
            boundaries@.len() < NO_SOURCE,
            seed@ == seeds_of(boundaries@, n as nat),
            seed@.len() == n,
            source2@.len() == n,
            dist2@.len() == n,
            dist@.len() == n,
            source@.len() == n,
            forall|j: int|
                #![trigger source2@[j]]
                #![trigger dist2@[j]]
                0 <= j < n ==> match nearest_seed(seed@, w, h, j) {
                    Some((s, d2)) => source2@[j] == s && dist2@[j] == d2,
                    None => source2@[j] == NO_SOURCE && dist2@[j] == 0,
                },
            forall|j: int|
                #![trigger source@[j]]
                #![trigger dist@[j]]
                0 <= j < c ==> is_report(
                    affecting(w, h, boundaries@, max_radius, j),
                    source@[j],
                    dist@[j],
                    boundaries@.len(),
                ),
            forall|j: int|
                #![trigger source@[j]]
                #![trigger dist@[j]]
                c <= j < n ==> source@[j] == NO_SOURCE && dist@[j] == S::top(),
        decreases n - c,
    {
        let s: u32 = source2[c];
        proof {
            distance_is_exact(seed@, w, h, c as int);
            assert(nearest_seed(seed@, w, h, c as int) is Some ==> s != NO_SOURCE && s
                < boundaries@.len()) by {
                if nearest_seed(seed@, w, h, c as int) is Some {
                    let s0 = choose|s0: int|
                        #![trigger seed@[s0]]
                        0 <= s0 < seed@.len() && seed@[s0] == s && s != NO_SOURCE
                            && cylinder_distance2(w, c as int, s0) == dist2@[c as int];
                    lemma_strongest(boundaries@, s0, boundaries@.len());
                }
            }
        }
        if s != NO_SOURCE {
            let d = S::whole(dist2[c]).root();
            assert(nearest_seed(seed@, w, h, c as int) == Some((s, dist2@[c as int] as int)));
            if d.at_most(max_radius) {
                dist.set(c, d);
                source.set(c, s);
            }
        }
        proof {
            assert(seeds_of(boundaries@, (w * h) as nat) == seed@);
            assert(is_report(
                affecting(w, h, boundaries@, max_radius, c as int),
                source@[c as int],
                dist@[c as int],
                boundaries@.len(),
            ));
        }
        c += 1;
    }
    NearestBoundary { dist, source, max_radius }
}

// --- laws ------------------------------------------------------------------
/// A record for a cell of plate `a` next to plate `b` is among the records.
pub open spec fn has_record<S: Scalar>(
    bs: Seq<Boundary<S>>,
    c: int,
    a: PlateId,
    b: PlateId,
) -> bool {
    exists|i: int|
        0 <= i < bs.len() && (#[trigger] bs[i]).cell == c && bs[i].plate_a == a && bs[i].plate_b == b
}

proof fn lemma_records<S: Scalar>(
    w: int,
    h: int,
    ids: Seq<PlateId>,
    plates: Seq<Plate<S>>,
    threshold: S,
    n: nat,
    c: int,
    a: PlateId,
    b: PlateId,
)
    requires
        n <= u32::MAX,
    ensures
        has_record(records_before(w, h, ids, plates, threshold, n), c, a, b) <==> 0 <= c < n && a
            == ids[c] && foreign_plates(w, h, ids, c, 4).contains(b),
        records_before(w, h, ids, plates, threshold, n).len() <= 4 * n,
        forall|i: int|
            0 <= i < records_before(w, h, ids, plates, threshold, n).len()
                ==> (#[trigger] records_before(w, h, ids, plates, threshold, n)[i]).cell < n,
        forall|i: int, j: int|
            #![trigger records_before(w, h, ids, plates, threshold, n)[i], records_before(w, h, ids, plates, threshold, n)[j]]
            0 <= i < j < records_before(w, h, ids, plates, threshold, n).len() ==> {
                let r = records_before(w, h, ids, plates, threshold, n);
                r[i].cell != r[j].cell || r[i].plate_b != r[j].plate_b
            },
    decreases n,
{
    let now = records_before(w, h, ids, plates, threshold, n);
    if n > 0 {
        let last = n - 1;
        let before = records_before(w, h, ids, plates, threshold, last as nat);
        let own = cell_records(w, h, ids, plates, threshold, last);
        let met = foreign_plates(w, h, ids, last, 4);
        lemma_records(w, h, ids, plates, threshold, last as nat, c, a, b);
        lemma_foreign_plates(w, h, ids, last, 4);
        assert(now == before + own);
        assert forall|i: int| 0 <= i < now.len() implies (#[trigger] now[i]).cell < n by {
            if i < before.len() {
                assert(now[i] == before[i]);
            } else {
                assert(now[i] == own[i - before.len()]);
            }
        }
        assert forall|i: int, j: int|
            #![trigger now[i], now[j]]
            0 <= i < j < now.len() implies now[i].cell != now[j].cell || now[i].plate_b
            != now[j].plate_b by {
            if j < before.len() {
                assert(now[i] == before[i] && now[j] == before[j]);
            } else if i < before.len() {
                assert(now[i] == before[i] && now[j] == own[j - before.len()]);
            } else {
                assert(now[i] == own[i - before.len()] && now[j] == own[j - before.len()]);
                assert(met[i - before.len()] != met[j - before.len()]);
            }
        }
        if has_record(now, c, a, b) {
            let i = choose|i: int|
                0 <= i < now.len() && (#[trigger] now[i]).cell == c && now[i].plate_a == a
                    && now[i].plate_b == b;
            if i < before.len() {
                assert(before[i] == now[i]);
                assert(has_record(before, c, a, b));
            } else {
                assert(now[i] == own[i - before.len()]);
                assert(met[i - before.len()] == b);
            }
        }
        if 0 <= c < n && a == ids[c] && foreign_plates(w, h, ids, c, 4).contains(b) {
            if c < last {
                assert(has_record(before, c, a, b));
                let i = choose|i: int|
                    0 <= i < before.len() && (#[trigger] before[i]).cell == c && before[i].plate_a
                        == a && before[i].plate_b == b;
                assert(now[i] == before[i]);
            } else {
                let i = choose|i: int| 0 <= i < met.len() && met[i] == b;
                assert(now[before.len() + i] == own[i]);
            }
        }
    }
}

/// Boundaries are found on both sides and nowhere else: a cell has a record for
/// plate `b` exactly where it belongs to another plate and one of its four
/// neighbours belongs to `b`; and no cell has two records for one plate.
pub proof fn boundaries_are_found_where_plates_meet<S: Scalar>(
    w: int,
    h: int,
    ids: Seq<PlateId>,
    plates: Seq<Plate<S>>,
    threshold: S,
    c: int,
    b: PlateId,
)
    requires
        is_grid(w, h),
        w * h <= u32::MAX,
        0 <= c < w * h,
    ensures
        has_record(detected(w, h, ids, plates, threshold), c, ids[c], b) <==> b != ids[c]
            && exists|k: int|
            0 <= k < 4 && (#[trigger] beside(w, h, c, k)) is Some && ids[beside(w, h, c, k)->0]
                == b,
        forall|i: int, j: int|
            #![trigger detected(w, h, ids, plates, threshold)[i], detected(w, h, ids, plates, threshold)[j]]
            0 <= i < j < detected(w, h, ids, plates, threshold).len() ==> {
                let r = detected(w, h, ids, plates, threshold);
                r[i].cell != r[j].cell || r[i].plate_b != r[j].plate_b
            },
{
    assert(w * h >= 0) by (nonlinear_arith)
        requires
            w > 0,
            h >= 0,
    ;
    lemma_records(w, h, ids, plates, threshold, (w * h) as nat, c, ids[c], b);
    lemma_foreign_plates(w, h, ids, c, 4);
}

/// Of two neighbouring cells of different plates each has a record for the
/// plate of the other.
pub proof fn boundaries_have_two_sides<S: Scalar>(
    w: int,
    h: int,
    ids: Seq<PlateId>,
    plates: Seq<Plate<S>>,
    threshold: S,
    c: int,
    k: int,
)
    requires
        is_grid(w, h),
        w * h <= u32::MAX,
        0 <= c < w * h,
        0 <= k < 4,
        beside(w, h, c, k) is Some,
        ids[beside(w, h, c, k)->0] != ids[c],
    ensures
        ({
            let n = beside(w, h, c, k)->0;
            let r = detected(w, h, ids, plates, threshold);
            has_record(r, c, ids[c], ids[n]) && has_record(r, n, ids[n], ids[c])
        }),
{
    let n = beside(w, h, c, k)->0;
    lemma_row_in_grid(w, h, c);
    let back: int = if k == 0 {
        1
    } else if k == 1 {
        0
    } else if k == 2 {
        3
    } else {
        2
    };
    let dx = NEIGHBORS4[k].0 as int;
    let dy = NEIGHBORS4[k].1 as int;
    steps_are_reversible(w, h, c % w, c / w, dx, dy);
    crate::world::lemma_cell_of_coords(w, c);
    lemma_cell_in_grid(w, h, (c % w + dx) % w, c / w + dy);
    assert(NEIGHBORS4[back].0 == -dx && NEIGHBORS4[back].1 == -dy);
    assert(beside(w, h, n, back) == Some(c));
    boundaries_are_found_where_plates_meet(w, h, ids, plates, threshold, c, ids[n]);
    boundaries_are_found_where_plates_meet(w, h, ids, plates, threshold, n, ids[c]);
}

/// Plates that all drift along, on top of their own motion.
pub open spec fn drifting<S: Scalar>(plates: Seq<Plate<S>>, drift: Vec2<S>) -> Seq<Plate<S>> {
    plates.map_values(
        |p: Plate<S>|
            Plate {
                velocity: Vec2 { x: p.velocity.x.add(drift.x), y: p.velocity.y.add(drift.y) },
                ..p
            },
    )
}

/// A common drift cancels out between any two of the plates.
pub open spec fn drift_cancels<S: Scalar>(plates: Seq<Plate<S>>, drift: Vec2<S>) -> bool {
    forall|i: int, j: int|
        #![trigger plates[i], plates[j]]
        0 <= i < plates.len() && 0 <= j < plates.len() ==> {
            let a = plates[i].velocity;
            let b = plates[j].velocity;
            &&& a.x.add(drift.x).sub(b.x.add(drift.x)) == a.x.sub(b.x)
            &&& a.y.add(drift.y).sub(b.y.add(drift.y)) == a.y.sub(b.y)
        }
}

proof fn lemma_records_ignore_drift<S: Scalar>(
    w: int,
    h: int,
    ids: Seq<PlateId>,
    plates: Seq<Plate<S>>,
    threshold: S,
    drift: Vec2<S>,
    n: nat,
)
    requires
        drift_cancels(plates, drift),
        n <= w * h,
        meeting_plates_known(w, h, ids, plates.len() as int),
    ensures
        records_before(w, h, ids, drifting(plates, drift), threshold, n) == records_before(
            w,
            h,
            ids,
            plates,
            threshold,
            n,
        ),
    decreases n,
{
    if n > 0 {
        lemma_records_ignore_drift(w, h, ids, plates, threshold, drift, (n - 1) as nat);
        let c = n - 1;
        let own = cell_records(w, h, ids, plates, threshold, c);
        let along = cell_records(w, h, ids, drifting(plates, drift), threshold, c);
        let met = foreign_plates(w, h, ids, c, 4);
        assert forall|i: int| 0 <= i < met.len() implies along[i] == #[trigger] own[i] by {
            assert(met.len() > 0);
            assert(ids[c] < plates.len() && met[i] < plates.len());
            let pa = plates[ids[c] as int];
            let pb = plates[met[i] as int];
            assert(pa.velocity.x.add(drift.x).sub(pb.velocity.x.add(drift.x))
                == pa.velocity.x.sub(pb.velocity.x));
            assert(pa.velocity.y.add(drift.y).sub(pb.velocity.y.add(drift.y))
                == pa.velocity.y.sub(pb.velocity.y));
        }
        assert(along =~= own);
    }
}

/// Only relative velocity counts: plates that all drift along the same way have
/// the boundaries that they had without the drift.
pub proof fn common_drift_changes_no_boundary<S: Scalar>(
    w: int,
    h: int,
    ids: Seq<PlateId>,
    plates: Seq<Plate<S>>,
    threshold: S,
    drift: Vec2<S>,
)
    requires
        w * h >= 0,
        drift_cancels(plates, drift),
        meeting_plates_known(w, h, ids, plates.len() as int),
    ensures
        detected(w, h, ids, drifting(plates, drift), threshold) == detected(
            w,
            h,
            ids,
            plates,
            threshold,
        ),
{
    lemma_records_ignore_drift(w, h, ids, plates, threshold, drift, (w * h) as nat);
}

/// With fixed-point numbers a common drift cancels out exactly, as long as no
/// velocity leaves the range of the numbers.
pub proof fn fixed_drift_cancels(plates: Seq<Plate<Fixed>>, drift: Vec2<Fixed>)
    requires
        forall|i: int|
            0 <= i < plates.len() ==> {
                let v = (#[trigger] plates[i]).velocity;
                &&& i64::MIN <= v.x.raw + drift.x.raw <= i64::MAX
                &&& i64::MIN <= v.y.raw + drift.y.raw <= i64::MAX
            },
    ensures
        drift_cancels(plates, drift),
{
}

/// Turning two velocities around turns around what they come to along an axis:
/// the differences, the products and their sum.
pub open spec fn motion_mirrors<S: Scalar>(a: Vec2<S>, b: Vec2<S>, axis: Vec2<S>) -> bool {
    let x = a.x.sub(b.x);
    let y = a.y.sub(b.y);
    let along = x.mul(axis.x);
    let across = y.mul(axis.y);
    &&& a.x.neg().sub(b.x.neg()) == x.neg()
    &&& a.y.neg().sub(b.y.neg()) == y.neg()
    &&& x.neg().mul(axis.x) == along.neg()
    &&& y.neg().mul(axis.y) == across.neg()
    &&& along.neg().add(across.neg()) == along.add(across).neg()
}

/// Turning a motion around twice changes nothing, and once reverses how it
/// stands to the threshold and keeps the size of its shear.
pub open spec fn threshold_mirrors<S: Scalar>(convergence: S, shear: S, threshold: S) -> bool {
    &&& convergence.neg().neg() == convergence
    &&& threshold.lt(convergence.neg()) <==> convergence.lt(threshold.neg())
    &&& convergence.neg().lt(threshold.neg()) <==> threshold.lt(convergence)
    &&& !(threshold.lt(convergence) && convergence.lt(threshold.neg()))
    &&& magnitude(shear.neg()) == magnitude(shear)
}

/// All that turning the plates around asks of the numbers in one record.
pub open spec fn record_mirrors<S: Scalar>(
    plates: Seq<Plate<S>>,
    record: Boundary<S>,
    threshold: S,
) -> bool {
    let a = plates[record.plate_a as int].velocity;
    let b = plates[record.plate_b as int].velocity;
    &&& motion_mirrors(a, b, record.normal)
    &&& motion_mirrors(a, b, turned(record.normal))
    &&& threshold_mirrors(record.convergence, record.shear, threshold)
}

/// Closing and opening exchanged.
pub open spec fn opposite(kind: BoundaryKind) -> BoundaryKind {
    match kind {
        BoundaryKind::Convergent => BoundaryKind::Divergent,
        BoundaryKind::Divergent => BoundaryKind::Convergent,
        BoundaryKind::Transform => BoundaryKind::Transform,
    }
}

/// Plates that move the other way.
pub open spec fn reversed<S: Scalar>(plates: Seq<Plate<S>>) -> Seq<Plate<S>> {
    plates.map_values(
        |p: Plate<S>|
            Plate { velocity: Vec2 { x: p.velocity.x.neg(), y: p.velocity.y.neg() }, ..p },
    )
}

/// A record with its motion turned around.
pub open spec fn turned_around<S: Scalar>(b: Boundary<S>) -> Boundary<S> {
    Boundary {
        convergence: b.convergence.neg(),
        shear: b.shear.neg(),
        kind: opposite(b.kind),
        ..b
    }
}

/// What closes in one direction opens in the other, as fast.
pub proof fn reversed_motion_swaps_the_kinds<S: Scalar>(convergence: S, shear: S, threshold: S)
    requires
        threshold_mirrors(convergence, shear, threshold),
    ensures
        kind_of(convergence.neg(), threshold) == opposite(kind_of(convergence, threshold)),
        strength_of(convergence.neg(), shear.neg(), threshold) == strength_of(
            convergence,
            shear,
            threshold,
        ),
{
}

/// With fixed-point numbers what closes in one direction opens in the other, as
/// fast, for every motion but the most negative number; strengths are never
/// negative.
pub proof fn fixed_motion_swaps_the_kinds(convergence: Fixed, shear: Fixed, threshold: Fixed)
    requires
        Fixed::of_int(0).le(threshold),
        i64::MIN < convergence.raw,
        i64::MIN < shear.raw,
    ensures
        Fixed::of_int(0).le(strength_of(convergence, shear, threshold)),
        kind_of(convergence.neg(), threshold) == opposite(kind_of(convergence, threshold)),
        strength_of(convergence.neg(), shear.neg(), threshold) == strength_of(
            convergence,
            shear,
            threshold,
        ),
{
    reversed_motion_swaps_the_kinds(convergence, shear, threshold);
}

/// One record with both plates moving the other way.
pub proof fn reversed_plates_reverse_a_record<S: Scalar>(
    w: int,
    plates: Seq<Plate<S>>,
    cell: u32,
    a: PlateId,
    b: PlateId,
    threshold: S,
)
    requires
        a < plates.len(),
        b < plates.len(),
        record_mirrors(plates, classified(w, plates, cell, a, b, threshold), threshold),
    ensures
        classified(w, reversed(plates), cell, a, b, threshold) == turned_around(
            classified(w, plates, cell, a, b, threshold),
        ),
{
    let r = classified(w, plates, cell, a, b, threshold);
    let q = classified(w, reversed(plates), cell, a, b, threshold);
    assert(q.normal == r.normal);
    assert(q.convergence == r.convergence.neg());
    assert(q.shear == r.shear.neg());
    reversed_motion_swaps_the_kinds(r.convergence, r.shear, threshold);
}

proof fn lemma_records_turn_around<S: Scalar>(
    w: int,
    h: int,
    ids: Seq<PlateId>,
    plates: Seq<Plate<S>>,
    threshold: S,
    n: nat,
)
    requires
        n <= w * h,
        meeting_plates_known(w, h, ids, plates.len() as int),
        ({
            let records = records_before(w, h, ids, plates, threshold, n);
            forall|i: int|
                0 <= i < records.len() ==> record_mirrors(plates, #[trigger] records[i], threshold)
        }),
    ensures
        records_before(w, h, ids, reversed(plates), threshold, n) == records_before(
            w,
            h,
            ids,
            plates,
            threshold,
            n,
        ).map_values(|b: Boundary<S>| turned_around(b)),
    decreases n,
{
    let f = |b: Boundary<S>| turned_around(b);
    if n == 0 {
        assert(records_before(w, h, ids, plates, threshold, 0).map_values(f) =~= Seq::empty());
    } else {
        let c = n - 1;
        let now = records_before(w, h, ids, plates, threshold, n);
        let before = records_before(w, h, ids, plates, threshold, (n - 1) as nat);
        let own = cell_records(w, h, ids, plates, threshold, c);
        let back = cell_records(w, h, ids, reversed(plates), threshold, c);
        let met = foreign_plates(w, h, ids, c, 4);
        assert forall|i: int| 0 <= i < before.len() implies record_mirrors(
            plates,
            #[trigger] before[i],
            threshold,
        ) by {
            assert(now[i] == before[i]);
        }
        lemma_records_turn_around(w, h, ids, plates, threshold, (n - 1) as nat);
        assert(back =~= own.map_values(f)) by {
            assert forall|i: int| 0 <= i < met.len() implies back[i] == turned_around(
                #[trigger] own[i],
            ) by {
                assert(met.len() > 0);
                assert(ids[c] < plates.len() && met[i] < plates.len());
                assert(now[before.len() + i] == own[i]);
                reversed_plates_reverse_a_record(
                    w,
                    plates,
                    c as u32,
                    ids[c],
                    met[i],
                    threshold,
                );
            }
        }
        assert((before + own).map_values(f) =~= before.map_values(f) + own.map_values(f));
    }
}

/// Boundary behaviour falls out of relative velocity: with every plate moving
/// the other way the records are the same, cell by cell and plate by plate,
/// with the same normals and strengths; what closed now opens, and what opened
/// now closes. All that it takes is that negation passes through the
/// differences, products and sums of these very records.
pub proof fn reversed_plates_reverse_their_boundaries<S: Scalar>(
    w: int,
    h: int,
    ids: Seq<PlateId>,
    plates: Seq<Plate<S>>,
    threshold: S,
)
    requires
        is_grid(w, h),
        meeting_plates_known(w, h, ids, plates.len() as int),
        ({
            let records = detected(w, h, ids, plates, threshold);
            forall|i: int|
                0 <= i < records.len() ==> record_mirrors(plates, #[trigger] records[i], threshold)
        }),
    ensures
        detected(w, h, ids, reversed(plates), threshold) == detected(
            w,
            h,
            ids,
            plates,
            threshold,
        ).map_values(|b: Boundary<S>| turned_around(b)),
{
    assert(w * h >= 0) by (nonlinear_arith)
        requires
            w > 0,
            h >= 0,
    ;
    let records = detected(w, h, ids, plates, threshold);
    let n = (w * h) as nat;
    assert(records == records_before(w, h, ids, plates, threshold, n));
    assert forall|i: int| 0 <= i < records.len() implies record_mirrors(
        plates,
        #[trigger] records_before(w, h, ids, plates, threshold, n)[i],
        threshold,
    ) by {
        assert(record_mirrors(plates, records[i], threshold));
    }
    lemma_records_turn_around(w, h, ids, plates, threshold, n);
}

/// A fixed-point velocity that is far from the ends of the range.
pub open spec fn is_moderate(v: Vec2<Fixed>) -> bool {
    &&& -0x1000_0000_0000 <= v.x.raw <= 0x1000_0000_0000
    &&& -0x1000_0000_0000 <= v.y.raw <= 0x1000_0000_0000
}

/// The fixed-point products along an axis come out even, so that nothing is
/// rounded.
pub open spec fn comes_out_even(a: Vec2<Fixed>, b: Vec2<Fixed>, axis: Vec2<Fixed>) -> bool {
    &&& ((a.x.raw - b.x.raw) * axis.x.raw) % 65536 == 0
    &&& ((a.y.raw - b.y.raw) * axis.y.raw) % 65536 == 0
}

/// A moderate fixed-point motion along an axis of moderate length: its parts
/// are what integers give, rounded down.
proof fn lemma_fixed_motion(a: Vec2<Fixed>, b: Vec2<Fixed>, axis: Vec2<Fixed>)
    requires
        is_moderate(a),
        is_moderate(b),
        -131072 <= axis.x.raw <= 131072,
        -131072 <= axis.y.raw <= 131072,
    ensures
        ({
            let x = a.x.raw - b.x.raw;
            let y = a.y.raw - b.y.raw;
            &&& a.x.sub(b.x).raw == x && a.y.sub(b.y).raw == y
            &&& a.x.neg().sub(b.x.neg()).raw == -x && a.y.neg().sub(b.y.neg()).raw == -y
            &&& -0x4000_0000_0000_0000 <= x * axis.x.raw <= 0x4000_0000_0000_0000
            &&& -0x4000_0000_0000_0000 <= y * axis.y.raw <= 0x4000_0000_0000_0000
            &&& a.x.sub(b.x).mul(axis.x).raw == (x * axis.x.raw) / 65536
            &&& a.y.sub(b.y).mul(axis.y).raw == (y * axis.y.raw) / 65536
            &&& a.taken(b).inner(axis).raw == (x * axis.x.raw) / 65536 + (y * axis.y.raw) / 65536
            &&& a.x.sub(b.x).neg().mul(axis.x).raw == (-(x * axis.x.raw)) / 65536
            &&& a.y.sub(b.y).neg().mul(axis.y).raw == (-(y * axis.y.raw)) / 65536
        }),
{
    let x = a.x.raw - b.x.raw;
    let y = a.y.raw - b.y.raw;
    let u = axis.x.raw as int;
    let v = axis.y.raw as int;
    assert(-0x4000_0000_0000_0000 <= x * u <= 0x4000_0000_0000_0000 && (-x) * u == -(x * u))
        by (nonlinear_arith)
        requires
            -0x2000_0000_0000 <= x <= 0x2000_0000_0000,
            -131072 <= u <= 131072,
    ;
    assert(-0x4000_0000_0000_0000 <= y * v <= 0x4000_0000_0000_0000 && (-y) * v == -(y * v))
        by (nonlinear_arith)
        requires
            -0x2000_0000_0000 <= y <= 0x2000_0000_0000,
            -131072 <= v <= 131072,
    ;
}

/// With fixed-point numbers a record mirrors wherever its products come out
/// even, as they do for whole velocities and for normals along the axes.
pub proof fn fixed_record_mirrors(
    w: int,
    plates: Seq<Plate<Fixed>>,
    cell: u32,
    a: PlateId,
    b: PlateId,
    threshold: Fixed,
)
    requires
        Fixed::of_int(0).le(threshold),
        is_moderate(plates[a as int].velocity),
        is_moderate(plates[b as int].velocity),
        ({
            let normal = classified(w, plates, cell, a, b, threshold).normal;
            let u = plates[a as int].velocity;
            let v = plates[b as int].velocity;
            &&& -131072 <= normal.x.raw <= 131072
            &&& -131072 <= normal.y.raw <= 131072
            &&& comes_out_even(u, v, normal)
            &&& comes_out_even(u, v, turned(normal))
        }),
    ensures
        record_mirrors(plates, classified(w, plates, cell, a, b, threshold), threshold),
{
    let r = classified(w, plates, cell, a, b, threshold);
    let u = plates[a as int].velocity;
    let v = plates[b as int].velocity;
    lemma_fixed_motion(u, v, r.normal);
    lemma_fixed_motion(u, v, turned(r.normal));
}

proof fn lemma_fixed_turn(a: Vec2<Fixed>, b: Vec2<Fixed>, axis: Vec2<Fixed>)
    requires
        is_moderate(a),
        is_moderate(b),
        -131072 <= axis.x.raw <= 131072,
        -131072 <= axis.y.raw <= 131072,
    ensures
        ({
            let c = Vec2 { x: a.x.neg(), y: a.y.neg() };
            let d = Vec2 { x: b.x.neg(), y: b.y.neg() };
            &&& -2 <= c.taken(d).inner(axis).raw + a.taken(b).inner(axis).raw <= 0
            &&& -0x6000_0000_0000_0000 <= a.taken(b).inner(axis).raw <= 0x6000_0000_0000_0000
        }),
{
    let c = Vec2 { x: a.x.neg(), y: a.y.neg() };
    let d = Vec2 { x: b.x.neg(), y: b.y.neg() };
    lemma_fixed_motion(a, b, axis);
    lemma_fixed_motion(c, d, axis);
    let x = a.x.raw - b.x.raw;
    let y = a.y.raw - b.y.raw;
    let u = axis.x.raw as int;
    let v = axis.y.raw as int;
    assert((-x) * u == -(x * u) && (-y) * v == -(y * v)) by (nonlinear_arith);
}

proof fn lemma_kinds_nearly_swap(
    convergence: Fixed,
    shear: Fixed,
    back: Fixed,
    sheared: Fixed,
    threshold: Fixed,
)
    requires
        Fixed::of_int(0).le(threshold),
        -2 <= back.raw + convergence.raw <= 0,
        -2 <= sheared.raw + shear.raw <= 0,
        -0x6000_0000_0000_0000 <= convergence.raw <= 0x6000_0000_0000_0000,
        -0x6000_0000_0000_0000 <= shear.raw <= 0x6000_0000_0000_0000,
    ensures
        Fixed::of_int(0).le(strength_of(convergence, shear, threshold)),
        !(threshold.raw - 2 <= convergence.raw <= threshold.raw + 2) && !(-threshold.raw - 2
            <= convergence.raw <= -threshold.raw + 2) ==> kind_of(back, threshold) == opposite(
            kind_of(convergence, threshold),
        ) && -2 <= strength_of(back, sheared, threshold).raw - strength_of(
            convergence,
            shear,
            threshold,
        ).raw <= 2,
{
}

/// With fixed-point numbers every record of moderate motion is turned around by
/// turning the plates around, up to what rounding takes away: convergence and
/// shear change sign to within two of the smallest steps, and the kind swaps
/// unless the motion is that close to the threshold.
pub proof fn fixed_records_nearly_turn_around(
    w: int,
    plates: Seq<Plate<Fixed>>,
    cell: u32,
    a: PlateId,
    b: PlateId,
    threshold: Fixed,
)
    requires
        a < plates.len(),
        b < plates.len(),
        Fixed::of_int(0).le(threshold),
        is_moderate(plates[a as int].velocity),
        is_moderate(plates[b as int].velocity),
        ({
            let normal = classified(w, plates, cell, a, b, threshold).normal;
            &&& -131072 <= normal.x.raw <= 131072
            &&& -131072 <= normal.y.raw <= 131072
        }),
    ensures
        ({
            let r = classified(w, plates, cell, a, b, threshold);
            let q = classified(w, reversed(plates), cell, a, b, threshold);
            &&& q.cell == r.cell && q.plate_a == r.plate_a && q.plate_b == r.plate_b
            &&& q.normal == r.normal
            &&& -2 <= q.convergence.raw + r.convergence.raw <= 0
            &&& -2 <= q.shear.raw + r.shear.raw <= 0
            &&& Fixed::of_int(0).le(r.strength)
            &&& !(threshold.raw - 2 <= r.convergence.raw <= threshold.raw + 2) && !(-threshold.raw
                - 2 <= r.convergence.raw <= -threshold.raw + 2) ==> q.kind == opposite(r.kind)
                && -2 <= q.strength.raw - r.strength.raw <= 2
        }),
{
    let r = classified(w, plates, cell, a, b, threshold);
    let q = classified(w, reversed(plates), cell, a, b, threshold);
    let u = plates[a as int].velocity;
    let v = plates[b as int].velocity;
    assert(q.normal == r.normal);
    lemma_fixed_turn(u, v, r.normal);
    lemma_fixed_turn(u, v, turned(r.normal));
    lemma_kinds_nearly_swap(r.convergence, r.shear, q.convergence, q.shear, threshold);
}

/// A world detects at most four records per cell, all of them on its cells.
pub proof fn detected_records_are_on_the_grid<S: Scalar>(
    w: int,
    h: int,
    ids: Seq<PlateId>,
    plates: Seq<Plate<S>>,
    threshold: S,
)
    requires
        is_grid(w, h),
        w * h <= u32::MAX,
    ensures
        detected(w, h, ids, plates, threshold).len() <= 4 * (w * h),
        forall|i: int|
            0 <= i < detected(w, h, ids, plates, threshold).len() ==> (#[trigger] detected(
                w,
                h,
                ids,
                plates,
                threshold,
            )[i]).cell < w * h,
{
    assert(w * h >= 0) by (nonlinear_arith)
        requires
            w > 0,
            h >= 0,
    ;
    lemma_records(w, h, ids, plates, threshold, (w * h) as nat, 0, 0, 0);
}

/// Where several records share a cell, the strongest one stands for it.
pub proof fn strongest_record_wins<S: Scalar>(bs: Seq<Boundary<S>>, c: int, k: nat, i: int)
    requires
        linearly_ordered::<S>(),
        k <= bs.len() < NO_SOURCE,
        0 <= i < k,
        bs[i].cell == c,
        forall|j: int|
            0 <= j < k && (#[trigger] bs[j]).cell == c ==> bs[j].strength.le(bs[j].strength),
    ensures
        ({
            let s = strongest_at(bs, c, k);
            &&& s < k
            &&& bs[s as int].cell == c
            &&& bs[i].strength.le(bs[s as int].strength)
        }),
    decreases k,
{
    lemma_strongest(bs, c, k);
    lemma_strongest(bs, c, (k - 1) as nat);
    let before = strongest_at(bs, c, (k - 1) as nat);
    if i < k - 1 {
        strongest_record_wins(bs, c, (k - 1) as nat, i);
        assert(bs[before as int].strength.le(bs[before as int].strength));
    }
}

/// Effects stay local: where a boundary affects a cell, its distance is within
/// the radius, it is a record of the world, and it is the record that stands
/// for a cell no other boundary cell is closer than.
pub proof fn affecting_boundary_is_the_nearest<S: Scalar>(
    w: int,
    h: int,
    bs: Seq<Boundary<S>>,
    max_radius: S,
    c: int,
)
    requires
        is_grid(w, h),
        0 <= c < w * h,
        bs.len() < NO_SOURCE,
        affecting(w, h, bs, max_radius, c) is Some,
    ensures
        ({
            let (s, d) = affecting(w, h, bs, max_radius, c)->0;
            &&& d.le(max_radius)
            &&& s < bs.len()
            &&& d == S::of_int(cylinder_distance2(w, c, bs[s as int].cell as int)).sqrt()
            &&& forall|i: int|
                0 <= i < bs.len() && 0 <= (#[trigger] bs[i]).cell < w * h ==> cylinder_distance2(
                    w,
                    c,
                    bs[s as int].cell as int,
                ) <= cylinder_distance2(w, c, bs[i].cell as int)
        }),
{
    let seed = seeds_of(bs, (w * h) as nat);
    distance_is_exact(seed, w, h, c);
    let (s, d2) = nearest_seed(seed, w, h, c)->0;
    let s0 = choose|s0: int|
        #![trigger seed[s0]]
        0 <= s0 < seed.len() && seed[s0] == s && s != NO_SOURCE && cylinder_distance2(w, c, s0)
            == d2;
    lemma_strongest(bs, s0, bs.len());
    assert(bs[s as int].cell == s0);
    assert forall|i: int| 0 <= i < bs.len() && 0 <= (#[trigger] bs[i]).cell < w * h implies d2
        <= cylinder_distance2(w, c, bs[i].cell as int) by {
        lemma_strongest(bs, bs[i].cell as int, bs.len());
        assert(seed[bs[i].cell as int] != NO_SOURCE);
    }
}

/// Foreign plates are plates of cells of the grid.
proof fn lemma_foreign_known(w: int, h: int, ids: Seq<PlateId>, c: int, k: nat, count: int)
    requires
        is_grid(w, h),
        0 <= c < w * h,
        k <= 4,
        forall|d: int| 0 <= d < w * h ==> (#[trigger] ids[d]) < count,
    ensures
        forall|i: int|
            0 <= i < foreign_plates(w, h, ids, c, k).len() ==> (#[trigger] foreign_plates(
                w,
                h,
                ids,
                c,
                k,
            )[i]) < count,
    decreases k,
{
    if k > 0 {
        lemma_foreign_known(w, h, ids, c, (k - 1) as nat, count);
        lemma_row_in_grid(w, h, c);
        let met = foreign_plates(w, h, ids, c, (k - 1) as nat);
        let now = foreign_plates(w, h, ids, c, k);
        if let Some(n) = beside(w, h, c, k - 1) {
            let (dx, dy) = NEIGHBORS4[k - 1];
            lemma_cell_in_grid(w, h, (c % w + dx) % w, c / w + dy);
            assert(ids[n] < count);
        }
        assert forall|i: int| 0 <= i < now.len() implies (#[trigger] now[i]) < count by {
            if i < met.len() {
                assert(now[i] == met[i]);
            }
        }
    }
}

/// Where every cell belongs to a listed plate, so do all that meet, and every
/// record is of two listed plates.
pub proof fn listed_owners_make_listed_records<S: Scalar>(
    w: int,
    h: int,
    ids: Seq<PlateId>,
    plates: Seq<Plate<S>>,
    threshold: S,
    n: nat,
)
    requires
        is_grid(w, h),
        n <= w * h,
        forall|d: int| 0 <= d < w * h ==> (#[trigger] ids[d]) < plates.len(),
    ensures
        meeting_plates_known(w, h, ids, plates.len() as int),
        forall|i: int|
            0 <= i < records_before(w, h, ids, plates, threshold, n).len() ==> ({
                let r = #[trigger] records_before(w, h, ids, plates, threshold, n)[i];
                r.plate_a < plates.len() && r.plate_b < plates.len()
            }),
    decreases n,
{
    let count = plates.len() as int;
    assert forall|c: int|
        #![trigger foreign_plates(w, h, ids, c, 4)]
        0 <= c < w * h && foreign_plates(w, h, ids, c, 4).len() > 0 implies {
        &&& ids[c] < count
        &&& forall|i: int|
            0 <= i < foreign_plates(w, h, ids, c, 4).len() ==> #[trigger] foreign_plates(
                w,
                h,
                ids,
                c,
                4,
            )[i] < count
    } by {
        lemma_foreign_known(w, h, ids, c, 4, count);
    }
    if n > 0 {
        listed_owners_make_listed_records(w, h, ids, plates, threshold, (n - 1) as nat);
        lemma_foreign_known(w, h, ids, n - 1, 4, count);
        let before = records_before(w, h, ids, plates, threshold, (n - 1) as nat);
        let own = cell_records(w, h, ids, plates, threshold, n - 1);
        let now = records_before(w, h, ids, plates, threshold, n);
        assert(now == before + own);
        assert forall|i: int| 0 <= i < now.len() implies ({
            let r = #[trigger] now[i];
            r.plate_a < plates.len() && r.plate_b < plates.len()
        }) by {
            if i < before.len() {
                assert(now[i] == before[i]);
            } else {
                assert(now[i] == own[i - before.len()]);
                assert(foreign_plates(w, h, ids, n - 1, 4)[i - before.len()] < count);
                assert(ids[n - 1] < count);
            }
        }
    }
}

} // verus!
