//! The exact Euclidean distance transform on the cylinder.
//!
//! Some cells of the grid are seeds. For every cell the transform finds the
//! closest seed: a vertical sweep per column, then a lower envelope of
//! parabolas per row, both linear in the number of cells. The x wrap is handled
//! by running the row pass over three copies of the row and keeping the middle
//! one, so that the closest seed may be reached the short way around.
//!
//! All of it is integer arithmetic on squared distances, so nothing is rounded.

use crate::scalar::repeated;
use crate::world::{cell_index, lemma_cell_in_grid, lemma_cell_of_coords, lemma_row_in_grid};
use vstd::arithmetic::div_mod::{
    lemma_fundamental_div_mod, lemma_mod_multiples_vanish, lemma_small_mod,
};
use vstd::prelude::*;

verus! {

/// Marker for "no seed".
pub const NO_SOURCE: u32 = 4294967295;

/// The longest side of a grid whose squared distances can be computed.
pub const MAX_SIDE: usize = 0x2000_0000;

/// There is a seed in column `x`, row `r`.
pub open spec fn seeded(seed: Seq<u32>, w: int, x: int, r: int) -> bool {
    seed[cell_index(w, x, r)] != NO_SOURCE
}

/// A seed's row together with one of the three copies of its column.
pub open spec fn is_candidate(seed: Seq<u32>, w: int, h: int, p: int, r: int) -> bool {
    0 <= p < 3 * w && 0 <= r < h && seeded(seed, w, p % w, r)
}

/// Squared distance from cell `c`, in the middle copy, to column `p`, row `r`
/// of the tiling.
pub open spec fn reach(w: int, c: int, p: int, r: int) -> int {
    (c % w + w - p) * (c % w + w - p) + (c / w - r) * (c / w - r)
}

/// Closer, or as close and further left, or in the same column and further up.
pub open spec fn preferred(a: (int, int, int), b: (int, int, int)) -> bool {
    a.0 < b.0 || (a.0 == b.0 && (a.1 < b.1 || (a.1 == b.1 && a.2 <= b.2)))
}

/// `(p, r)` is the candidate that cell `c` is closest to.
pub open spec fn is_nearest(seed: Seq<u32>, w: int, h: int, c: int, p: int, r: int) -> bool {
    &&& is_candidate(seed, w, h, p, r)
    &&& forall|p2: int, r2: int|
        #[trigger] is_candidate(seed, w, h, p2, r2) ==> preferred(
            (reach(w, c, p, r), p, r),
            (reach(w, c, p2, r2), p2, r2),
        )
}

/// The closest seed of a cell, and its squared distance; `None` where the grid
/// holds no seed.
pub open spec fn nearest_seed(seed: Seq<u32>, w: int, h: int, c: int) -> Option<(u32, int)> {
    if exists|p: int, r: int| is_nearest(seed, w, h, c, p, r) {
        let (p, r) = choose|p: int, r: int| is_nearest(seed, w, h, c, p, r);
        Some((seed[cell_index(w, p % w, r)], reach(w, c, p, r)))
    } else {
        None
    }
}

proof fn lemma_nearest_is_unique(
    seed: Seq<u32>,
    w: int,
    h: int,
    c: int,
    p: int,
    r: int,
    p2: int,
    r2: int,
)
    requires
        is_nearest(seed, w, h, c, p, r),
        is_nearest(seed, w, h, c, p2, r2),
    ensures
        p == p2,
        r == r2,
{
    assert(is_candidate(seed, w, h, p, r));
    assert(is_candidate(seed, w, h, p2, r2));
}

// --- columns ---------------------------------------------------------------
spec fn gap(a: int, b: int) -> int {
    if a < b {
        b - a
    } else {
        a - b
    }
}

/// Row `r` is the closest seeded row of column `x` among the rows below `hi`.
spec fn is_near_row(seed: Seq<u32>, w: int, hi: int, x: int, y: int, r: int) -> bool {
    &&& 0 <= r < hi
    &&& seeded(seed, w, x, r)
    &&& forall|r2: int|
        0 <= r2 < hi && #[trigger] seeded(seed, w, x, r2) ==> gap(y, r) < gap(y, r2) || (gap(y, r)
            == gap(y, r2) && r <= r2)
}

/// The last seeded row of column `x` at or above row `y`, or -1.
spec fn is_row_above(seed: Seq<u32>, w: int, x: int, y: int, r: int) -> bool {
    &&& -1 <= r <= y
    &&& r >= 0 ==> seeded(seed, w, x, r)
    &&& forall|r2: int| r < r2 <= y && 0 <= r2 ==> !#[trigger] seeded(seed, w, x, r2)
}

/// The first seeded row of column `x` at or below row `y`, or -1.
spec fn is_row_below(seed: Seq<u32>, w: int, h: int, x: int, y: int, r: int) -> bool {
    &&& r == -1 || y <= r < h
    &&& r >= 0 ==> seeded(seed, w, x, r)
    &&& forall|r2: int|
        y <= r2 < h && (r == -1 || r2 < r) ==> !#[trigger] seeded(seed, w, x, r2)
}

/// What the column pass leaves in a cell: the closest seeded row, or -1.
spec fn is_column_result(seed: Seq<u32>, w: int, h: int, x: int, y: int, r: int) -> bool {
    if r == -1 {
        forall|r2: int| 0 <= r2 < h ==> !#[trigger] seeded(seed, w, x, r2)
    } else {
        is_near_row(seed, w, h, x, y, r)
    }
}

/// For every cell the closest seeded row of its column, the upper one of two
/// that are equally close, or -1 where the column holds no seed.
fn nearest_rows(seed: &Vec<u32>, w: usize, h: usize) -> (rows: Vec<i64>)
    requires
        0 < w <= MAX_SIDE,
        h <= MAX_SIDE,
        w * h <= usize::MAX,
        seed@.len() == w * h,
    ensures
        rows@.len() == w * h,
        forall|x: int, y: int|
            0 <= x < w && 0 <= y < h ==> is_column_result(
                seed@,
                w as int,
                h as int,
                x,
                y,
                #[trigger] rows@[cell_index(w as int, x, y)] as int,
            ),
{
    let mut rows: Vec<i64> = repeated(-1, w * h);
    let mut x: usize = 0;
    while x < w
        invariant
            x <= w,
            0 < w <= MAX_SIDE,
            h <= MAX_SIDE,
            w * h <= usize::MAX,
            seed@.len() == w * h,
            rows@.len() == w * h,
            forall|x1: int, y1: int|
                0 <= x1 < x && 0 <= y1 < h ==> is_column_result(
                    seed@,
                    w as int,
                    h as int,
                    x1,
                    y1,
                    #[trigger] rows@[cell_index(w as int, x1, y1)] as int,
                ),
        decreases w - x,
    {
        let ghost start = rows@;
        let mut best: i64 = -1;
        let mut y: usize = 0;
        while y < h
            invariant
                x < w,
                y <= h,
                0 < w <= MAX_SIDE,
                h <= MAX_SIDE,
                w * h <= usize::MAX,
                seed@.len() == w * h,
                rows@.len() == w * h,
                is_row_above(seed@, w as int, x as int, y - 1, best as int),
                forall|x1: int, y1: int|
                    0 <= x1 < w && 0 <= y1 < h && x1 != x ==> #[trigger] rows@[cell_index(
                        w as int,
                        x1,
                        y1,
                    )] == start[cell_index(w as int, x1, y1)],
                forall|y1: int|
                    0 <= y1 < y ==> is_row_above(
                        seed@,
                        w as int,
                        x as int,
                        y1,
                        #[trigger] rows@[cell_index(w as int, x as int, y1)] as int,
                    ),
            decreases h - y,
        {
            proof {
                lemma_cell_in_grid(w as int, h as int, x as int, y as int);
            }
            let c: usize = y * w + x;
            if seed[c] != NO_SOURCE {
                best = y as i64;
            }
            let ghost old_rows = rows@;
            rows.set(c, best);
            proof {
                assert forall|x1: int, y1: int|
                    0 <= x1 < w && 0 <= y1 < h && (x1 != x || y1 != y) implies rows@[cell_index(
                    w as int,
                    x1,
                    y1,
                )] == old_rows[cell_index(w as int, x1, y1)] by {
                    lemma_cell_in_grid(w as int, h as int, x1, y1);
                    crate::world::lemma_coords_of_cell(w as int, x1, y1);
                    crate::world::lemma_coords_of_cell(w as int, x as int, y as int);
                }
                assert(seeded(seed@, w as int, x as int, y as int) == (seed@[c as int] != NO_SOURCE));
                assert forall|y1: int| 0 <= y1 < y + 1 implies is_row_above(
                    seed@,
                    w as int,
                    x as int,
                    y1,
                    #[trigger] rows@[cell_index(w as int, x as int, y1)] as int,
                ) by {
                    if y1 < y {
                        assert(rows@[cell_index(w as int, x as int, y1)] == old_rows[cell_index(
                            w as int,
                            x as int,
                            y1,
                        )]);
                    }
                }
            }
            y += 1;
        }
        let ghost downward = rows@;
        best = -1;
        let mut left: usize = h;
        while left > 0
            invariant
                x < w,
                left <= h,
                0 < w <= MAX_SIDE,
                h <= MAX_SIDE,
                w * h <= usize::MAX,
                seed@.len() == w * h,
                rows@.len() == w * h,
                downward.len() == w * h,
                is_row_below(seed@, w as int, h as int, x as int, left as int, best as int),
                forall|x1: int, y1: int|
                    0 <= x1 < w && 0 <= y1 < h && x1 != x ==> #[trigger] rows@[cell_index(
                        w as int,
                        x1,
                        y1,
                    )] == start[cell_index(w as int, x1, y1)],
                forall|y1: int|
                    0 <= y1 < h ==> is_row_above(
                        seed@,
                        w as int,
                        x as int,
                        y1,
                        #[trigger] downward[cell_index(w as int, x as int, y1)] as int,
                    ),
                forall|y1: int|
                    0 <= y1 < left ==> #[trigger] rows@[cell_index(w as int, x as int, y1)]
                        == downward[cell_index(w as int, x as int, y1)],
                forall|y1: int|
                    left <= y1 < h ==> is_column_result(
                        seed@,
                        w as int,
                        h as int,
                        x as int,
                        y1,
                        #[trigger] rows@[cell_index(w as int, x as int, y1)] as int,
                    ),
            decreases left,
        {
            let y: usize = left - 1;
            proof {
                lemma_cell_in_grid(w as int, h as int, x as int, y as int);
            }
            let c: usize = y * w + x;
            if seed[c] != NO_SOURCE {
                best = y as i64;
            }
            let above: i64 = rows[c];
            proof {
                assert(seeded(seed@, w as int, x as int, y as int) == (seed@[c as int] != NO_SOURCE));
                assert(above == downward[cell_index(w as int, x as int, y as int)]);
                assert(is_row_above(seed@, w as int, x as int, y as int, above as int));
            }
            let ghost old_rows = rows@;
            if best >= 0 && (above < 0 || best - (y as i64) < (y as i64) - above) {
                rows.set(c, best);
            }
            proof {
                assert forall|x1: int, y1: int|
                    0 <= x1 < w && 0 <= y1 < h && (x1 != x || y1 != y) implies rows@[cell_index(
                    w as int,
                    x1,
                    y1,
                )] == old_rows[cell_index(w as int, x1, y1)] by {
                    lemma_cell_in_grid(w as int, h as int, x1, y1);
                    crate::world::lemma_coords_of_cell(w as int, x1, y1);
                    crate::world::lemma_coords_of_cell(w as int, x as int, y as int);
                }
                assert(is_row_below(seed@, w as int, h as int, x as int, y as int, best as int));
                assert(is_column_result(
                    seed@,
                    w as int,
                    h as int,
                    x as int,
                    y as int,
                    rows@[c as int] as int,
                ));
                assert forall|y1: int| y <= y1 < h implies is_column_result(
                    seed@,
                    w as int,
                    h as int,
                    x as int,
                    y1,
                    #[trigger] rows@[cell_index(w as int, x as int, y1)] as int,
                ) by {
                    if y1 != y {
                        assert(rows@[cell_index(w as int, x as int, y1)] == old_rows[cell_index(
                            w as int,
                            x as int,
                            y1,
                        )]);
                    }
                }
                assert forall|y1: int| 0 <= y1 < y implies #[trigger] rows@[cell_index(
                    w as int,
                    x as int,
                    y1,
                )] == downward[cell_index(w as int, x as int, y1)] by {
                    assert(rows@[cell_index(w as int, x as int, y1)] == old_rows[cell_index(
                        w as int,
                        x as int,
                        y1,
                    )]);
                }
            }
            left = y;
        }
        proof {
            assert forall|x1: int, y1: int| 0 <= x1 < x + 1 && 0 <= y1 < h implies is_column_result(
                seed@,
                w as int,
                h as int,
                x1,
                y1,
                #[trigger] rows@[cell_index(w as int, x1, y1)] as int,
            ) by {
                if x1 != x {
                    assert(rows@[cell_index(w as int, x1, y1)] == start[cell_index(
                        w as int,
                        x1,
                        y1,
                    )]);
                }
            }
        }
        x += 1;
    }
    rows
}

// --- rows ------------------------------------------------------------------
/// Value at `t` of the parabola with its apex at column `p`.
spec fn parabola(f: Seq<i64>, p: int, t: int) -> int {
    (t - p) * (t - p) + f[p]
}

/// Column `p` is the first of the columns below `n` with the smallest value at
/// `t`; a negative `f` stands for a column without a parabola.
spec fn is_lowest(f: Seq<i64>, n: int, p: int, t: int) -> bool {
    &&& 0 <= p < n
    &&& f[p] >= 0
    &&& forall|p2: int|
        #![trigger f[p2]]
        0 <= p2 < n && f[p2] >= 0 ==> parabola(f, p, t) < parabola(f, p2, t) || (parabola(f, p, t)
            == parabola(f, p2, t) && p <= p2)
}

/// The first position from which on the parabola of `q` is below that of `p`.
spec fn takeover(f: Seq<i64>, p: int, q: int) -> int {
    ((f[q] + q * q) - (f[p] + p * p)) / (2 * (q - p)) + 1
}

proof fn lemma_takeover(f: Seq<i64>, p: int, q: int, t: int)
    requires
        p < q,
    ensures
        parabola(f, q, t) < parabola(f, p, t) <==> t >= takeover(f, p, q),
{
    let num = (f[q] + q * q) - (f[p] + p * p);
    let den = 2 * (q - p);
    lemma_fundamental_div_mod(num, den);
    let k = num / den;
    assert((t - p) * (t - p) - (t - q) * (t - q) == t * den + p * p - q * q) by (nonlinear_arith)
        requires
            den == 2 * (q - p),
    ;
    assert(parabola(f, q, t) < parabola(f, p, t) <==> num < t * den);
    if t >= k + 1 {
        assert(t * den >= k * den + den) by (nonlinear_arith)
            requires
                t >= k + 1,
                den > 0,
        ;
        assert(den * k == k * den) by (nonlinear_arith);
    } else {
        assert(t * den <= k * den) by (nonlinear_arith)
            requires
                t <= k,
                den > 0,
        ;
        assert(den * k == k * den) by (nonlinear_arith);
    }
}

fn first_win(f: &Vec<i64>, p: usize, q: usize) -> (r: i64)
    requires
        p < q < f@.len(),
        f@.len() <= 3 * MAX_SIDE,
        0 <= f@[p as int] <= 0x400_0000_0000_0000,
        0 <= f@[q as int] <= 0x400_0000_0000_0000,
    ensures
        r == takeover(f@, p as int, q as int),
{
    assert(0 <= q * q <= 0x2400_0000_0000_0000) by (nonlinear_arith)
        requires
            0 <= q <= 0x6000_0000,
    ;
    assert(0 <= p * p <= 0x2400_0000_0000_0000) by (nonlinear_arith)
        requires
            0 <= p <= 0x6000_0000,
    ;
    let a: i64 = f[q] + (q as i64) * (q as i64);
    let b: i64 = f[p] + (p as i64) * (p as i64);
    let den: i64 = 2 * (q as i64 - p as i64);
    let d: i64 = a - b;
    assert(-0x4000_0000_0000_0000 <= d as int / den as int <= 0x4000_0000_0000_0000) by (nonlinear_arith)
        requires
            -0x4000_0000_0000_0000 <= d <= 0x4000_0000_0000_0000,
            den >= 2,
    ;
    let k: i64 = d.checked_div_euclid(den).unwrap();
    k + 1
}

/// For every position the column whose parabola is lowest there, the leftmost
/// one of several.
fn lower_envelope(f: &Vec<i64>) -> (arg: Vec<usize>)
    requires
        f@.len() <= 3 * MAX_SIDE,
        forall|p: int| 0 <= p < f@.len() ==> #[trigger] f@[p] <= 0x400_0000_0000_0000,
    ensures
        (exists|p: int| 0 <= p < f@.len() && #[trigger] f@[p] >= 0) ==> {
            &&& arg@.len() == f@.len()
            &&& forall|t: int|
                0 <= t < f@.len() ==> is_lowest(
                    f@,
                    f@.len() as int,
                    (#[trigger] arg@[t]) as int,
                    t,
                )
        },
        (forall|p: int| 0 <= p < f@.len() ==> #[trigger] f@[p] < 0) ==> arg@.len() == 0,
{
    let n: usize = f.len();
    // The columns of the envelope so far, and the position from which on each
    // of them is the lowest.
    let mut v: Vec<usize> = Vec::new();
    let mut z: Vec<i64> = Vec::new();
    let mut q: usize = 0;
    while q < n
        invariant
            q <= n,
            n == f@.len(),
            n <= 3 * MAX_SIDE,
            forall|p: int| 0 <= p < f@.len() ==> #[trigger] f@[p] <= 0x400_0000_0000_0000,
            is_envelope(f@, q as int, v@, z@),
        decreases n - q,
    {
        if f[q] >= 0 {
            let ghost v0 = v@;
            let ghost z0 = z@;
            let mut s: i64 = 0;
            if v.len() > 0 {
                s = first_win(f, v[v.len() - 1], q);
                while v.len() > 1 && s <= z[z.len() - 1]
                    invariant
                        1 <= v@.len() <= v0.len(),
                        v@.len() == z@.len(),
                        v@ == v0.take(v@.len() as int),
                        z@ == z0.take(z@.len() as int),
                        q < n,
                        n == f@.len(),
                        n <= 3 * MAX_SIDE,
                        f@[q as int] >= 0,
                        forall|p: int| 0 <= p < f@.len() ==> #[trigger] f@[p] <= 0x400_0000_0000_0000,
                        is_envelope(f@, q as int, v0, z0),
                        s == takeover(f@, v@.last() as int, q as int),
                        forall|j: int|
                            v@.len() <= j < v0.len() ==> takeover(
                                f@,
                                #[trigger] v0[j] as int,
                                q as int,
                            ) <= z0[j],
                    decreases v@.len(),
                {
                    let ghost k = v@.len() as int;
                    assert(v0[k - 1] == v@.last() && z0[k - 1] == z@.last());
                    v.pop();
                    z.pop();
                    assert(v@ =~= v0.take(k - 1));
                    assert(z@ =~= z0.take(k - 1));
                    assert(v0[k - 2] == v@.last());
                    s = first_win(f, v[v.len() - 1], q);
                }
            }
            proof {
                lemma_envelope_grows(f@, q as int, v0, z0, v@.len() as int, s as int);
                if v0.len() == 0 {
                    assert(v@ =~= v0.take(0));
                    assert(z@ =~= z0.take(0));
                }
            }
            v.push(q);
            z.push(s);
        } else {
            proof {
                lemma_envelope_skips(f@, q as int, v@, z@);
            }
        }
        q += 1;
    }
    let mut arg: Vec<usize> = Vec::new();
    if v.len() == 0 {
        return arg;
    }
    proof {
        assert(f@[v@[0] as int] >= 0);
    }
    let mut k: usize = 0;
    let mut t: usize = 0;
    while t < n
        invariant
            t <= n,
            n == f@.len(),
            is_envelope(f@, n as int, v@, z@),
            k < v@.len(),
            arg@.len() == t,
            k == 0 || z@[k as int] <= t,
            forall|i: int|
                0 <= i < t ==> is_lowest(f@, n as int, (#[trigger] arg@[i]) as int, i),
        decreases n - t,
    {
        while k + 1 < v.len() && z[k + 1] <= t as i64
            invariant
                v@.len() == z@.len(),
                k < v@.len() <= n,
                t < n,
                n <= 3 * MAX_SIDE,
                k == 0 || z@[k as int] <= t,
            decreases v@.len() - k,
        {
            k += 1;
        }
        assert(is_lowest(f@, n as int, v@[k as int] as int, t as int));
        arg.push(v[k]);
        t += 1;
    }
    arg
}

/// `v` holds the columns, among those below `n`, that are lowest somewhere to
/// the right of where they take over from the one before, `z` where they do.
spec fn is_envelope(f: Seq<i64>, n: int, v: Seq<usize>, z: Seq<i64>) -> bool {
    &&& n <= f.len() <= 3 * MAX_SIDE
    &&& v.len() == z.len()
    &&& v.len() <= n
    &&& forall|i: int| 0 <= i < v.len() ==> 0 <= #[trigger] v[i] < n && f[v[i] as int] >= 0
    &&& forall|i: int, j: int| 0 < i < j < z.len() ==> #[trigger] z[i] < #[trigger] z[j]
    &&& v.len() == 0 ==> forall|p: int| 0 <= p < n ==> #[trigger] f[p] < 0
    &&& forall|i: int, t: int|
        #![trigger is_lowest(f, n, v[i] as int, t)]
        0 <= i < v.len() && (i == 0 || z[i] <= t) && (i + 1 == v.len() || t < z[i + 1])
            ==> is_lowest(f, n, v[i] as int, t)
}

/// A column without a parabola changes nothing.
proof fn lemma_envelope_skips(f: Seq<i64>, q: int, v: Seq<usize>, z: Seq<i64>)
    requires
        is_envelope(f, q, v, z),
        0 <= q < f.len(),
        f[q] < 0,
    ensures
        is_envelope(f, q + 1, v, z),
{
    assert forall|i: int, t: int|
        #![trigger is_lowest(f, q + 1, v[i] as int, t)]
        0 <= i < v.len() && (i == 0 || z[i] <= t) && (i + 1 == v.len() || t < z[i + 1]) implies is_lowest(
        f,
        q + 1,
        v[i] as int,
        t,
    ) by {
        assert(is_lowest(f, q, v[i] as int, t));
    }
}

/// The segment of the envelope that a position lies in.
proof fn lemma_segment(f: Seq<i64>, n: int, v: Seq<usize>, z: Seq<i64>, t: int, m: int) -> (i: int)
    requires
        is_envelope(f, n, v, z),
        0 < m <= v.len(),
        m == v.len() || t < z[m],
    ensures
        0 <= i < m,
        i == 0 || z[i] <= t,
        i + 1 == v.len() || t < z[i + 1],
        is_lowest(f, n, v[i] as int, t),
    decreases m,
{
    if m == 1 || z[m - 1] <= t {
        assert(is_lowest(f, n, v[m - 1] as int, t));
        m - 1
    } else {
        lemma_segment(f, n, v, z, t, m - 1)
    }
}

/// The envelope of the columns up to and with `q`: the columns that `q` hides
/// are dropped from the end, and `q` takes over where it passes the last one
/// that is left.
proof fn lemma_envelope_grows(f: Seq<i64>, q: int, v: Seq<usize>, z: Seq<i64>, k: int, s: int)
    requires
        is_envelope(f, q, v, z),
        0 <= q < f.len(),
        f[q] >= 0,
        0 <= k <= v.len(),
        v.len() > 0 ==> k > 0,
        k > 0 ==> s == takeover(f, v[k - 1] as int, q),
        k > 1 ==> s > z[k - 1],
        forall|j: int| k <= j < v.len() ==> takeover(f, #[trigger] v[j] as int, q) <= z[j],
        i64::MIN <= s <= i64::MAX,
    ensures
        is_envelope(f, q + 1, v.take(k).push(q as usize), z.take(k).push(s as i64)),
{
    let v1 = v.take(k).push(q as usize);
    let z1 = z.take(k).push(s as i64);
    assert forall|i: int, j: int| 0 < i < j < z1.len() implies #[trigger] z1[i] < #[trigger] z1[j] by {
        if j == k && i < k - 1 {
            assert(z[i] < z[k - 1]);
        }
    }
    assert forall|i: int, t: int|
        #![trigger is_lowest(f, q + 1, v1[i] as int, t)]
        0 <= i < v1.len() && (i == 0 || z1[i] <= t) && (i + 1 == v1.len() || t < z1[i + 1]) implies is_lowest(
        f,
        q + 1,
        v1[i] as int,
        t,
    ) by {
        if v.len() == 0 {
            assert(v1[0] == q);
            assert forall|p2: int| #![trigger f[p2]] 0 <= p2 < q + 1 && f[p2] >= 0 implies parabola(
                f,
                q,
                t,
            ) < parabola(f, p2, t) || (parabola(f, q, t) == parabola(f, p2, t) && q <= p2) by {}
        } else if i == k {
            // From its takeover on, the new column is below all earlier ones.
            let w = lemma_segment(f, q, v, z, t, v.len() as int);
            let p = v[w] as int;
            if w < k - 1 {
                assert(z1[k] == s);
                assert(t < z[w + 1]);
                if w + 1 < k - 1 {
                    assert(z[w + 1] < z[k - 1]);
                }
                assert(false);
            }
            lemma_takeover(f, p, q, t);
            assert(parabola(f, q, t) < parabola(f, p, t));
            assert forall|p2: int| #![trigger f[p2]] 0 <= p2 < q + 1 && f[p2] >= 0 implies parabola(
                f,
                q,
                t,
            ) < parabola(f, p2, t) || (parabola(f, q, t) == parabola(f, p2, t) && q <= p2) by {
                if p2 < q {
                    assert(parabola(f, p, t) <= parabola(f, p2, t));
                }
            }
        } else {
            // Before it, the earlier columns keep their places.
            let p = v[i] as int;
            assert(v1[i] == v[i] && z1[i] == z[i]);
            let last = v[k - 1] as int;
            lemma_takeover(f, last, q, t);
            if i + 1 < k {
                assert(z1[i + 1] == z[i + 1]);
                if i + 1 < k - 1 {
                    assert(z[i + 1] < z[k - 1]);
                }
                assert(t < s);
                assert(is_lowest(f, q, v[i] as int, t));
            } else {
                assert(i == k - 1);
                if k < v.len() {
                    // Columns dropped between here and the takeover of `q`
                    // would have been passed by it already.
                    if t >= z[k] {
                        let w = lemma_segment(f, q, v, z, t, v.len() as int);
                        if w < k {
                            assert(t < z[w + 1]);
                            if w + 1 < k {
                                assert(z[w + 1] < z[k]);
                            }
                            assert(false);
                        }
                        lemma_takeover(f, v[w] as int, q, t);
                        assert(takeover(f, v[w] as int, q) <= z[w]);
                        assert(parabola(f, q, t) < parabola(f, v[w] as int, t));
                        assert(f[last] >= 0);
                        assert(parabola(f, v[w] as int, t) <= parabola(f, last, t));
                        assert(false);
                    }
                }
                assert(is_lowest(f, q, v[i] as int, t));
            }
            assert(f[last] >= 0);
            assert(parabola(f, p, t) <= parabola(f, last, t));
            assert(parabola(f, last, t) <= parabola(f, q, t));
            assert forall|p2: int| #![trigger f[p2]] 0 <= p2 < q + 1 && f[p2] >= 0 implies parabola(
                f,
                p,
                t,
            ) < parabola(f, p2, t) || (parabola(f, p, t) == parabola(f, p2, t) && p <= p2) by {}
        }
    }
}

// --- both ------------------------------------------------------------------
proof fn lemma_squares_ordered(a: int, b: int)
    requires
        0 <= a,
        0 <= b,
    ensures
        a < b <==> a * a < b * b,
        a == b <==> a * a == b * b,
{
    assert(a < b ==> a * a < b * b) by (nonlinear_arith)
        requires
            0 <= a,
            0 <= b,
    ;
    assert(b < a ==> b * b < a * a) by (nonlinear_arith)
        requires
            0 <= a,
            0 <= b,
    ;
}

proof fn lemma_gap_squared(y: int, r: int)
    ensures
        gap(y, r) * gap(y, r) == (y - r) * (y - r),
{
    assert((r - y) * (r - y) == (y - r) * (y - r)) by (nonlinear_arith);
}

/// The column that is lowest at a cell's position, with its closest row, is the
/// candidate the cell is closest to.
proof fn lemma_row_result(
    seed: Seq<u32>,
    w: int,
    h: int,
    rows: Seq<i64>,
    f: Seq<i64>,
    c: int,
    p: int,
)
    requires
        0 < w,
        0 <= c < w * h,
        rows.len() == w * h,
        f.len() == 3 * w,
        forall|x: int, y: int|
            0 <= x < w && 0 <= y < h ==> is_column_result(
                seed,
                w,
                h,
                x,
                y,
                #[trigger] rows[cell_index(w, x, y)] as int,
            ),
        forall|p2: int|
            0 <= p2 < 3 * w ==> #[trigger] f[p2] == column_value(
                rows[cell_index(w, p2 % w, c / w)] as int,
                c / w,
            ),
        is_lowest(f, 3 * w, p, c % w + w),
    ensures
        is_nearest(seed, w, h, c, p, rows[cell_index(w, p % w, c / w)] as int),
        reach(w, c, p, rows[cell_index(w, p % w, c / w)] as int) == parabola(f, p, c % w + w),
{
    let y = c / w;
    let t = c % w + w;
    lemma_row_in_grid(w, h, c);
    let r = rows[cell_index(w, p % w, y)] as int;
    assert(f[p] == column_value(r, y));
    assert(is_column_result(seed, w, h, p % w, y, r));
    assert forall|p2: int, r2: int| #[trigger] is_candidate(seed, w, h, p2, r2) implies preferred(
        (reach(w, c, p, r), p, r),
        (reach(w, c, p2, r2), p2, r2),
    ) by {
        let r3 = rows[cell_index(w, p2 % w, y)] as int;
        assert(is_column_result(seed, w, h, p2 % w, y, r3));
        assert(seeded(seed, w, p2 % w, r2));
        assert(f[p2] == column_value(r3, y));
        lemma_gap_squared(y, r3);
        lemma_gap_squared(y, r2);
        lemma_squares_ordered(gap(y, r3), gap(y, r2));
        assert((y - r3) * (y - r3) >= 0) by (nonlinear_arith);
        assert(f[p2] >= 0);
        assert(parabola(f, p2, t) == (t - p2) * (t - p2) + (y - r3) * (y - r3));
        assert(reach(w, c, p2, r2) == (t - p2) * (t - p2) + (y - r2) * (y - r2));
    }
}

/// The squared vertical distance to row `r`, or -1 where there is none.
spec fn column_value(r: int, y: int) -> int {
    if r < 0 {
        -1
    } else {
        (y - r) * (y - r)
    }
}

/// Without a parabola in any column there is no candidate.
proof fn lemma_no_candidate(
    seed: Seq<u32>,
    w: int,
    h: int,
    rows: Seq<i64>,
    f: Seq<i64>,
    c: int,
    y: int,
)
    requires
        0 < w,
        0 <= y < h,
        0 <= c < w * h,
        rows.len() == w * h,
        f.len() == 3 * w,
        forall|x: int, y1: int|
            0 <= x < w && 0 <= y1 < h ==> is_column_result(
                seed,
                w,
                h,
                x,
                y1,
                #[trigger] rows[cell_index(w, x, y1)] as int,
            ),
        forall|p2: int|
            0 <= p2 < 3 * w ==> #[trigger] f[p2] == column_value(
                rows[cell_index(w, p2 % w, y)] as int,
                y,
            ),
        forall|p2: int| 0 <= p2 < f.len() ==> #[trigger] f[p2] < 0,
    ensures
        nearest_seed(seed, w, h, c) is None,
{
    assert forall|p: int, r: int| !#[trigger] is_nearest(seed, w, h, c, p, r) by {
        if is_nearest(seed, w, h, c, p, r) {
            assert(is_candidate(seed, w, h, p, r));
            let r3 = rows[cell_index(w, p % w, y)] as int;
            assert(is_column_result(seed, w, h, p % w, y, r3));
            assert(f[p] == column_value(r3, y));
            assert((y - r3) * (y - r3) >= 0) by (nonlinear_arith);
            assert(r3 < 0);
            assert(seeded(seed, w, p % w, r));
            assert(false);
        }
    }
}

/// For every cell the mark of its closest seed and the squared distance to it;
/// where the grid holds no seed, `NO_SOURCE` and 0.
pub fn nearest_seeds(seed: &Vec<u32>, w: usize, h: usize) -> (r: (Vec<u32>, Vec<i64>))
    requires
        0 < w <= MAX_SIDE,
        h <= MAX_SIDE,
        w * h <= usize::MAX,
        seed@.len() == w * h,
    ensures
        r.0@.len() == w * h,
        r.1@.len() == w * h,
        forall|c: int|
            #![trigger r.0@[c]]
            #![trigger r.1@[c]]
            0 <= c < w * h ==> match nearest_seed(seed@, w as int, h as int, c) {
                Some((s, d2)) => r.0@[c] == s && r.1@[c] == d2,
                None => r.0@[c] == NO_SOURCE && r.1@[c] == 0,
            },
{
    let n: usize = w * h;
    let rows = nearest_rows(seed, w, h);
    let mut source: Vec<u32> = Vec::with_capacity(n);
    let mut dist2: Vec<i64> = Vec::with_capacity(n);
    let mut y: usize = 0;
    while y < h
        invariant
            y <= h,
            0 < w <= MAX_SIDE,
            h <= MAX_SIDE,
            n == w * h,
            seed@.len() == n,
            rows@.len() == n,
            forall|x: int, y1: int|
                0 <= x < w && 0 <= y1 < h ==> is_column_result(
                    seed@,
                    w as int,
                    h as int,
                    x,
                    y1,
                    #[trigger] rows@[cell_index(w as int, x, y1)] as int,
                ),
            source@.len() == y * w,
            dist2@.len() == y * w,
            forall|c: int|
                #![trigger source@[c]]
                #![trigger dist2@[c]]
                0 <= c < y * w ==> match nearest_seed(seed@, w as int, h as int, c) {
                    Some((s, d2)) => source@[c] == s && dist2@[c] == d2,
                    None => source@[c] == NO_SOURCE && dist2@[c] == 0,
                },
        decreases h - y,
    {
        let mut f: Vec<i64> = Vec::with_capacity(3 * w);
        let mut p: usize = 0;
        while p < 3 * w
            invariant
                p <= 3 * w,
                y < h,
                0 < w <= MAX_SIDE,
                h <= MAX_SIDE,
                n == w * h,
                rows@.len() == n,
                f@.len() == p,
                forall|x: int, y1: int|
                    0 <= x < w && 0 <= y1 < h ==> is_column_result(
                        seed@,
                        w as int,
                        h as int,
                        x,
                        y1,
                        #[trigger] rows@[cell_index(w as int, x, y1)] as int,
                    ),
                forall|p2: int|
                    0 <= p2 < p ==> #[trigger] f@[p2] == column_value(
                        rows@[cell_index(w as int, p2 % (w as int), y as int)] as int,
                        y as int,
                    ),
                forall|p2: int| 0 <= p2 < p ==> #[trigger] f@[p2] <= 0x400_0000_0000_0000,
            decreases 3 * w - p,
        {
            let x: usize = p % w;
            proof {
                lemma_cell_in_grid(w as int, h as int, x as int, y as int);
            }
            let r: i64 = rows[y * w + x];
            assert(is_column_result(
                seed@,
                w as int,
                h as int,
                x as int,
                y as int,
                rows@[cell_index(w as int, x as int, y as int)] as int,
            ));
            if r < 0 {
                f.push(-1);
            } else {
                let d: i64 = y as i64 - r;
                assert(0 <= d * d <= 0x400_0000_0000_0000) by (nonlinear_arith)
                    requires
                        -0x2000_0000 <= d <= 0x2000_0000,
                ;
                f.push(d * d);
            }
            p += 1;
        }
        let arg = lower_envelope(&f);
        let mut x: usize = 0;
        while x < w
            invariant
                x <= w,
                y < h,
                0 < w <= MAX_SIDE,
                h <= MAX_SIDE,
                n == w * h,
                seed@.len() == n,
                rows@.len() == n,
                f@.len() == 3 * w,
                forall|x: int, y1: int|
                    0 <= x < w && 0 <= y1 < h ==> is_column_result(
                        seed@,
                        w as int,
                        h as int,
                        x,
                        y1,
                        #[trigger] rows@[cell_index(w as int, x, y1)] as int,
                    ),
                forall|p2: int|
                    0 <= p2 < 3 * w ==> #[trigger] f@[p2] == column_value(
                        rows@[cell_index(w as int, p2 % (w as int), y as int)] as int,
                        y as int,
                    ),
                forall|p2: int| 0 <= p2 < 3 * w ==> #[trigger] f@[p2] <= 0x400_0000_0000_0000,
                (exists|p: int| 0 <= p < f@.len() && #[trigger] f@[p] >= 0) ==> {
                    &&& arg@.len() == f@.len()
                    &&& forall|t: int|
                        0 <= t < f@.len() ==> is_lowest(
                            f@,
                            f@.len() as int,
                            (#[trigger] arg@[t]) as int,
                            t,
                        )
                },
                (forall|p: int| 0 <= p < f@.len() ==> #[trigger] f@[p] < 0) ==> arg@.len() == 0,
                source@.len() == y * w + x,
                dist2@.len() == y * w + x,
                forall|c: int|
                    #![trigger source@[c]]
                    #![trigger dist2@[c]]
                    0 <= c < y * w + x ==> match nearest_seed(seed@, w as int, h as int, c) {
                        Some((s, d2)) => source@[c] == s && dist2@[c] == d2,
                        None => source@[c] == NO_SOURCE && dist2@[c] == 0,
                    },
            decreases w - x,
        {
            let ghost c = cell_index(w as int, x as int, y as int);
            proof {
                lemma_cell_in_grid(w as int, h as int, x as int, y as int);
                crate::world::lemma_coords_of_cell(w as int, x as int, y as int);
            }
            if arg.len() == 0 {
                proof {
                    assert forall|p2: int| 0 <= p2 < f@.len() implies #[trigger] f@[p2] < 0 by {}
                    lemma_no_candidate(
                        seed@,
                        w as int,
                        h as int,
                        rows@,
                        f@,
                        c,
                        y as int,
                    );
                }
                source.push(NO_SOURCE);
                dist2.push(0);
            } else {
                assert(exists|p: int| 0 <= p < f@.len() && #[trigger] f@[p] >= 0);
                let q: usize = x + w;
                let p: usize = arg[q];
                assert(is_lowest(f@, f@.len() as int, arg@[q as int] as int, q as int));
                let px: usize = p % w;
                proof {
                    lemma_row_result(seed@, w as int, h as int, rows@, f@, c, p as int);
                    lemma_cell_in_grid(w as int, h as int, px as int, y as int);
                }
                let r: i64 = rows[y * w + px];
                assert(is_column_result(
                    seed@,
                    w as int,
                    h as int,
                    px as int,
                    y as int,
                    rows@[cell_index(w as int, px as int, y as int)] as int,
                ));
                proof {
                    assert(f@[p as int] >= 0);
                    lemma_cell_in_grid(w as int, h as int, px as int, r as int);
                    let (p3, r3) = choose|p3: int, r3: int|
                        is_nearest(seed@, w as int, h as int, c, p3, r3);
                    lemma_nearest_is_unique(
                        seed@,
                        w as int,
                        h as int,
                        c,
                        p as int,
                        r as int,
                        p3,
                        r3,
                    );
                }
                let d: i64 = q as i64 - p as i64;
                assert(0 <= d * d <= 0x2400_0000_0000_0000) by (nonlinear_arith)
                    requires
                        -0x6000_0000 <= d <= 0x6000_0000,
                ;
                source.push(seed[(r as usize) * w + px]);
                dist2.push(d * d + f[p]);
            }
            x += 1;
        }
        y += 1;
        assert(y * w == (y - 1) * w + w) by (nonlinear_arith);
    }
    assert(h * w == w * h) by (nonlinear_arith);
    (source, dist2)
}

// --- what it amounts to ----------------------------------------------------
/// The number of columns between two columns, the shorter way around.
pub open spec fn columns_between(w: int, a: int, b: int) -> int {
    let d = if a < b {
        b - a
    } else {
        a - b
    };
    if d <= w - d {
        d
    } else {
        w - d
    }
}

/// Squared distance between two cells on the cylinder.
pub open spec fn cylinder_distance2(w: int, c: int, s: int) -> int {
    columns_between(w, c % w, s % w) * columns_between(w, c % w, s % w) + (c / w - s / w) * (c / w
        - s / w)
}

/// One of the three copies of a column lies at the shorter way around.
proof fn lemma_closest_copy(w: int, x: int, sx: int) -> (p: int)
    requires
        0 <= x < w,
        0 <= sx < w,
    ensures
        0 <= p < 3 * w,
        p % w == sx,
        (x + w - p) * (x + w - p) == columns_between(w, x, sx) * columns_between(w, x, sx),
{
    let d = x - sx;
    let p = if columns_between(w, x, sx) == d || columns_between(w, x, sx) == -d {
        sx + w
    } else if d > 0 {
        sx + 2 * w
    } else {
        sx
    };
    lemma_mod_multiples_vanish(1, sx, w);
    lemma_mod_multiples_vanish(2, sx, w);
    lemma_small_mod(sx as nat, w as nat);
    assert((x + w - p) * (x + w - p) == columns_between(w, x, sx) * columns_between(w, x, sx))
        by (nonlinear_arith)
        requires
            x + w - p == columns_between(w, x, sx) || x + w - p == -columns_between(w, x, sx),
    ;
    p
}

/// No copy of a column is closer than the shorter way around.
proof fn lemma_copies_no_closer(w: int, x: int, p: int)
    requires
        0 <= x < w,
        0 <= p < 3 * w,
    ensures
        columns_between(w, x, p % w) * columns_between(w, x, p % w) <= (x + w - p) * (x + w - p),
{
    lemma_fundamental_div_mod(p, w);
    let k = p / w;
    let sx = p % w;
    assert(0 <= k < 3) by (nonlinear_arith)
        requires
            0 <= p < 3 * w,
            p == w * k + sx,
            0 <= sx < w,
    ;
    let a = columns_between(w, x, sx);
    let b = x + w - p;
    assert(p == sx || p == sx + w || p == sx + 2 * w) by (nonlinear_arith)
        requires
            0 <= k < 3,
            p == w * k + sx,
    ;
    assert(0 <= a && (a <= b || a <= -b));
    assert(a * a <= b * b) by (nonlinear_arith)
        requires
            0 <= a,
            a <= b || a <= -b,
    ;
}

/// Among candidates there is one that is closest.
proof fn lemma_nearest_exists(seed: Seq<u32>, w: int, h: int, c: int, p: int, r: int)
    requires
        is_candidate(seed, w, h, p, r),
    ensures
        exists|p2: int, r2: int| is_nearest(seed, w, h, c, p2, r2),
    decreases reach(w, c, p, r), p, r,
{
    if !is_nearest(seed, w, h, c, p, r) {
        let (p2, r2) = choose|p2: int, r2: int|
            #[trigger] is_candidate(seed, w, h, p2, r2) && !preferred(
                (reach(w, c, p, r), p, r),
                (reach(w, c, p2, r2), p2, r2),
            );
        assert(reach(w, c, p2, r2) >= 0) by (nonlinear_arith)
            requires
                reach(w, c, p2, r2) == (c % w + w - p2) * (c % w + w - p2) + (c / w - r2) * (c / w
                    - r2),
        ;
        lemma_nearest_exists(seed, w, h, c, p2, r2);
    }
}

/// The transform is exact: the squared distance of a cell is that to some seed
/// on the cylinder, no seed is closer, and only a grid without seeds leaves a
/// cell without one.
pub proof fn distance_is_exact(seed: Seq<u32>, w: int, h: int, c: int)
    requires
        0 < w,
        seed.len() == w * h,
        0 <= c < w * h,
    ensures
        match nearest_seed(seed, w, h, c) {
            Some((mark, d2)) => {
                &&& exists|s: int|
                    #![trigger seed[s]]
                    0 <= s < seed.len() && seed[s] == mark && mark != NO_SOURCE
                        && cylinder_distance2(w, c, s) == d2
                &&& forall|s: int|
                    #![trigger seed[s]]
                    0 <= s < seed.len() && seed[s] != NO_SOURCE ==> d2 <= cylinder_distance2(
                        w,
                        c,
                        s,
                    )
            },
            None => forall|s: int| 0 <= s < seed.len() ==> #[trigger] seed[s] == NO_SOURCE,
        },
{
    lemma_row_in_grid(w, h, c);
    if exists|p: int, r: int| is_nearest(seed, w, h, c, p, r) {
        let (p, r) = choose|p: int, r: int| is_nearest(seed, w, h, c, p, r);
        let d2 = reach(w, c, p, r);
        let s0 = cell_index(w, p % w, r);
        assert(is_candidate(seed, w, h, p, r));
        lemma_cell_in_grid(w, h, p % w, r);
        crate::world::lemma_coords_of_cell(w, p % w, r);
        assert forall|s: int|
            #![trigger seed[s]]
            0 <= s < seed.len() && seed[s] != NO_SOURCE implies d2 <= cylinder_distance2(w, c, s) by {
            lemma_row_in_grid(w, h, s);
            lemma_cell_of_coords(w, s);
            let p2 = lemma_closest_copy(w, c % w, s % w);
            assert(is_candidate(seed, w, h, p2, s / w));
        }
        assert(seed[s0] != NO_SOURCE);
        lemma_copies_no_closer(w, c % w, p);
        assert(cylinder_distance2(w, c, s0) == d2);
    } else {
        assert forall|s: int| 0 <= s < seed.len() implies #[trigger] seed[s] == NO_SOURCE by {
            if seed[s] != NO_SOURCE {
                lemma_row_in_grid(w, h, s);
                lemma_cell_of_coords(w, s);
                let p2 = lemma_closest_copy(w, c % w, s % w);
                assert(is_candidate(seed, w, h, p2, s / w));
                lemma_nearest_exists(seed, w, h, c, p2, s / w);
            }
        }
    }
}

} // verus!
