//! Where plates sit, and which cells they hold.

use crate::boundary::{strongest_at, Boundary, NO_SOURCE};
use crate::fixed::{fixed_numbers_are_ordered, Fixed};
use crate::math::{delta_between, wrapped_difference, Vec2};
use crate::plate::{
    best_candidate, best_candidate_has_the_most_room, clearance, coarse_grid, Plate,
};
use crate::scalar::Scalar;
use crate::voronoi::{cells_go_to_their_nearest_site, nearest_site, owner_of, site_distance2};
use vstd::arithmetic::div_mod::lemma_fundamental_div_mod_converse;
use vstd::prelude::*;

verus! {

/// The square of the distance between two points, the short way around the world,
/// in raw units.
pub open spec fn apart(w: int, ax: int, ay: int, bx: int, by: int) -> int {
    let around = w * 65536;
    let east = (ax - bx) % around;
    let gap = if east <= around - east {
        east
    } else {
        around - east
    };
    gap * gap + (ay - by) * (ay - by)
}

/// A coordinate that stays far from the ends of the range.
pub open spec fn is_local(x: Fixed) -> bool {
    -0x20_0000_0000 <= x.raw <= 0x20_0000_0000
}

proof fn lemma_apart(w: int, ax: Fixed, ay: Fixed, bx: Fixed, by: Fixed)
    requires
        0 < w <= 0x40_0000,
        is_local(ax),
        is_local(ay),
        is_local(bx),
        is_local(by),
    ensures
        ({
            let d = delta_between(w, ax, ay, bx, by).squared().raw;
            let far = apart(w, ax.raw as int, ay.raw as int, bx.raw as int, by.raw as int);
            &&& 65536 * d <= far < 65536 * d + 131072
            &&& 0 <= d < i64::MAX
        }),
{
    let n = w * 65536;
    let period = Fixed::of_int(w);
    assert(period.raw == n);
    let x = ax.raw - bx.raw;
    let east = x % n;
    assert(0 <= east < n);
    let half = period.mul(Fixed::ratio(1, 2));
    assert(Fixed::ratio(1, 2).raw == 32768);
    assert(half.raw == n / 2) by {
        assert((n * 32768) / 65536 == n / 2);
    }
    let d = wrapped_difference(ax, bx, period).raw as int;
    assert(d == if 2 * east > n {
        east - n
    } else {
        east
    });
    let gap = if east <= n - east {
        east
    } else {
        n - east
    };
    assert(d * d == gap * gap) by (nonlinear_arith)
        requires
            d == gap || d == -gap,
    ;
    let y = ay.raw - by.raw;
    assert(0 <= gap * gap <= 0x20_0000_0000 * 0x20_0000_0000) by (nonlinear_arith)
        requires
            0 <= gap <= 0x20_0000_0000,
    ;
    assert(0 <= y * y <= 0x40_0000_0000 * 0x40_0000_0000) by (nonlinear_arith)
        requires
            -0x40_0000_0000 <= y <= 0x40_0000_0000,
    ;
}

/// Every cell belongs to the plate whose site is nearest to it, where the warp has
/// shifted the cell by its two offsets: no other site is nearer, but for rounding.
pub proof fn cells_belong_to_the_nearest_site(
    w: int,
    plates: Seq<Plate<Fixed>>,
    dx: Seq<Fixed>,
    dy: Seq<Fixed>,
    c: int,
)
    requires
        0 < w <= 0x40_0000,
        0 < plates.len(),
        0 <= c / w <= 0x10_0000,
        -0x10_0000_0000 <= dx[c].raw <= 0x10_0000_0000,
        -0x10_0000_0000 <= dy[c].raw <= 0x10_0000_0000,
        forall|i: int|
            0 <= i < plates.len() ==> is_local((#[trigger] plates[i]).position.x) && is_local(
                plates[i].position.y,
            ),
        c % w <= 0x10_0000,
    ensures
        ({
            let x = (c % w) * 65536 + dx[c].raw;
            let y = (c / w) * 65536 + dy[c].raw;
            exists|o: int|
                {
                    &&& 0 <= o < plates.len()
                    &&& (#[trigger] plates[o]).id == owner_of(w, plates, dx, dy, c)
                    &&& forall|i: int|
                        0 <= i < plates.len() ==> apart(
                            w,
                            x,
                            y,
                            plates[o].position.x.raw as int,
                            plates[o].position.y.raw as int,
                        ) <= apart(
                            w,
                            x,
                            y,
                            (#[trigger] plates[i]).position.x.raw as int,
                            plates[i].position.y.raw as int,
                        ) + 131072
                }
        }),
{
    fixed_numbers_are_ordered();
    assert(0 <= c % w < w);
    let x = Fixed::of_int(c % w).add(dx[c]);
    let y = Fixed::of_int(c / w).add(dy[c]);
    assert(x.raw == (c % w) * 65536 + dx[c].raw);
    assert(y.raw == (c / w) * 65536 + dy[c].raw);
    assert forall|i: int| 0 <= i < plates.len() implies ({
        let p = (#[trigger] plates[i]).position;
        let d = site_distance2(w, plates[i], x, y).raw;
        let far = apart(w, x.raw as int, y.raw as int, p.x.raw as int, p.y.raw as int);
        65536 * d <= far < 65536 * d + 131072 && d < i64::MAX
    }) by {
        lemma_apart(w, x, y, plates[i].position.x, plates[i].position.y);
    }
    let first = plates[0];
    cells_go_to_their_nearest_site(w, plates, x, y, 0);
    let o = choose|o: int|
        0 <= o < plates.len() && plates[o].id == nearest_site(w, plates, x, y, plates.len()).1
            && forall|i: int|
            0 <= i < plates.len() ==> #[trigger] site_distance2(w, plates[o], x, y).le(
                #[trigger] site_distance2(w, plates[i], x, y),
            );
    assert(plates[o].id == owner_of(w, plates, dx, dy, c));
    assert forall|i: int| 0 <= i < plates.len() implies apart(
        w,
        x.raw as int,
        y.raw as int,
        plates[o].position.x.raw as int,
        plates[o].position.y.raw as int,
    ) <= apart(
        w,
        x.raw as int,
        y.raw as int,
        (#[trigger] plates[i]).position.x.raw as int,
        plates[i].position.y.raw as int,
    ) + 131072 by {
        assert(site_distance2(w, plates[o], x, y).le(site_distance2(w, plates[i], x, y)));
    }
}

proof fn lemma_clearance(w: int, c: Vec2<Fixed>, positions: Seq<Vec2<Fixed>>, k: nat) -> (m: int)
    requires
        0 < w <= 0x40_0000,
        k <= positions.len(),
        is_local(c.x),
        is_local(c.y),
        forall|i: int|
            0 <= i < positions.len() ==> is_local((#[trigger] positions[i]).x) && is_local(
                positions[i].y,
            ),
    ensures
        ({
            let room = clearance(w, c, positions, k);
            &&& k == 0 ==> room.raw == i64::MAX
            &&& k > 0 ==> 0 <= m < k && room == delta_between(
                w,
                c.x,
                c.y,
                positions[m].x,
                positions[m].y,
            ).squared()
            &&& forall|i: int|
                0 <= i < k ==> room.raw <= delta_between(
                    w,
                    c.x,
                    c.y,
                    (#[trigger] positions[i]).x,
                    positions[i].y,
                ).squared().raw
        }),
    decreases k,
{
    if k == 0 {
        0
    } else {
        let before = lemma_clearance(w, c, positions, (k - 1) as nat);
        let p = positions[k - 1];
        lemma_apart(w, c.x, c.y, p.x, p.y);
        let d = delta_between(w, c.x, c.y, p.x, p.y).squared();
        let room = clearance(w, c, positions, (k - 1) as nat);
        if room.raw < d.raw {
            before
        } else {
            k - 1
        }
    }
}

/// Sites spread out: the candidate that becomes a site is at least as far from the
/// sites before it as any other candidate. Gives, for another candidate, a site
/// before that is no further from it than any is from the one picked.
pub proof fn sites_spread_out(
    w: int,
    positions: Seq<Vec2<Fixed>>,
    candidates: Seq<Vec2<Fixed>>,
    from: int,
    k: nat,
    j: int,
) -> (near: int)
    requires
        0 < w <= 0x40_0000,
        positions.len() > 0,
        0 <= j < k,
        0 <= from,
        from + k <= candidates.len(),
        forall|i: int|
            0 <= i < positions.len() ==> is_local((#[trigger] positions[i]).x) && is_local(
                positions[i].y,
            ),
        forall|i: int|
            0 <= i < candidates.len() ==> is_local((#[trigger] candidates[i]).x) && is_local(
                candidates[i].y,
            ),
    ensures
        ({
            let site = best_candidate(w, positions, candidates, from, k).1;
            let other = candidates[from + j];
            &&& exists|i: int| from <= i < from + k && site == #[trigger] candidates[i]
            &&& 0 <= near < positions.len()
            &&& forall|i: int|
                0 <= i < positions.len() ==> apart(
                    w,
                    other.x.raw as int,
                    other.y.raw as int,
                    positions[near].x.raw as int,
                    positions[near].y.raw as int,
                ) <= apart(
                    w,
                    site.x.raw as int,
                    site.y.raw as int,
                    (#[trigger] positions[i]).x.raw as int,
                    positions[i].y.raw as int,
                ) + 131072
        }),
{
    fixed_numbers_are_ordered();
    best_candidate_has_the_most_room(w, positions, candidates, from, k, j);
    let (room, site) = best_candidate(w, positions, candidates, from, k);
    let other = candidates[from + j];
    let near = lemma_clearance(w, other, positions, positions.len());
    let o = positions[near];
    lemma_apart(w, other.x, other.y, o.x, o.y);
    assert(room.raw >= 0);
    let index = lemma_picked(w, positions, candidates, from, k);
    assert(site == candidates[index]);
    let closest = lemma_clearance(w, site, positions, positions.len());
    assert forall|i: int| 0 <= i < positions.len() implies apart(
        w,
        other.x.raw as int,
        other.y.raw as int,
        o.x.raw as int,
        o.y.raw as int,
    ) <= apart(
        w,
        site.x.raw as int,
        site.y.raw as int,
        (#[trigger] positions[i]).x.raw as int,
        positions[i].y.raw as int,
    ) + 131072 by {
        lemma_apart(w, site.x, site.y, positions[i].x, positions[i].y);
    }
    near
}

proof fn lemma_picked(
    w: int,
    positions: Seq<Vec2<Fixed>>,
    candidates: Seq<Vec2<Fixed>>,
    from: int,
    k: nat,
) -> (i: int)
    ensures
        ({
            let (room, best) = best_candidate(w, positions, candidates, from, k);
            room == Fixed::of_int(-1) || (from <= i < from + k && best == candidates[i])
        }),
    decreases k,
{
    if k == 0 {
        from
    } else {
        let before = lemma_picked(w, positions, candidates, from, (k - 1) as nat);
        let room = best_candidate(w, positions, candidates, from, (k - 1) as nat).0;
        let d = clearance(w, candidates[from + k - 1], positions, positions.len());
        if positions.len() == 0 || room.lt(d) {
            from + k - 1
        } else {
            before
        }
    }
}

/// Distances are straight lines, the short way around the world: the square of one
/// is the square of the way east or west plus that of the way north or south.
pub proof fn distances_go_the_short_way(w: int, ax: Fixed, ay: Fixed, bx: Fixed, by: Fixed)
    requires
        0 < w <= 0x40_0000,
        is_local(ax),
        is_local(ay),
        is_local(bx),
        is_local(by),
    ensures
        ({
            let d = delta_between(w, ax, ay, bx, by).squared().raw;
            let far = apart(w, ax.raw as int, ay.raw as int, bx.raw as int, by.raw as int);
            65536 * d <= far < 65536 * d + 131072
        }),
{
    lemma_apart(w, ax, ay, bx, by);
}

/// The crust is sampled every fourth column of every fourth row, starting in the
/// corner, and each of these cells once.
pub proof fn samples_lie_four_apart(w: int, h: int, i: int, j: int)
    requires
        0 < w <= 0x2000_0000,
        0 < h <= 0x2000_0000,
        0 <= i,
        4 * i < w,
        0 <= j,
        4 * j < h,
    ensures
        ({
            let points = coarse_grid(w, h);
            let columns = (w + 3) / 4;
            let k = j * columns + i;
            &&& points.len() == columns * ((h + 3) / 4)
            &&& 0 <= k < points.len()
            &&& points[k] == ((4 * i) as usize, (4 * j) as usize)
        }),
{
    let columns = (w + 3) / 4;
    let rows = (h + 3) / 4;
    let k = j * columns + i;
    lemma_fundamental_div_mod_converse(k, columns, j, i);
    assert(0 <= k < columns * rows) by (nonlinear_arith)
        requires
            k == j * columns + i,
            0 <= i < columns,
            0 <= j < rows,
    ;
}

/// Where several records share a cell the strongest stands for it, and the first of
/// those that are equally strong; a cell without records has none.
pub proof fn the_first_of_the_strongest_stands(bs: Seq<Boundary<Fixed>>, c: int, k: nat)
    requires
        k <= bs.len() < NO_SOURCE,
    ensures
        ({
            let s = strongest_at(bs, c, k);
            &&& s == NO_SOURCE <==> forall|i: int| 0 <= i < k ==> (#[trigger] bs[i]).cell != c
            &&& s != NO_SOURCE ==> {
                &&& s < k
                &&& bs[s as int].cell == c
                &&& forall|i: int|
                    0 <= i < k && (#[trigger] bs[i]).cell == c ==> bs[i].strength.raw
                        <= bs[s as int].strength.raw
                &&& forall|i: int|
                    0 <= i < s && (#[trigger] bs[i]).cell == c ==> bs[i].strength.raw
                        < bs[s as int].strength.raw
            }
        }),
    decreases k,
{
    if k > 0 {
        the_first_of_the_strongest_stands(bs, c, (k - 1) as nat);
        let before = strongest_at(bs, c, (k - 1) as nat);
        let last = bs[k - 1];
        if before == NO_SOURCE && last.cell != c {
            assert forall|i: int| 0 <= i < k implies (#[trigger] bs[i]).cell != c by {
                assert(i < k - 1 || i == k - 1);
            }
        }
    }
}

/// Of two sites at the same distance the first one holds the cell: no site before
/// that of the owner is as near.
pub proof fn the_first_of_the_nearest_holds(
    w: int,
    plates: Seq<Plate<Fixed>>,
    x: Fixed,
    y: Fixed,
    k: nat,
) -> (owner: int)
    requires
        0 < k <= plates.len(),
        forall|i: int|
            0 <= i < plates.len() ==> (#[trigger] site_distance2(w, plates[i], x, y)).raw
                < i64::MAX,
    ensures
        0 <= owner < k,
        nearest_site(w, plates, x, y, k) == (
            site_distance2(w, plates[owner], x, y),
            plates[owner].id,
        ),
        forall|i: int|
            0 <= i < k ==> site_distance2(w, plates[owner], x, y).raw <= (
            #[trigger] site_distance2(w, plates[i], x, y)).raw,
        forall|i: int|
            0 <= i < owner ==> site_distance2(w, plates[owner], x, y).raw < (
            #[trigger] site_distance2(w, plates[i], x, y)).raw,
    decreases k,
{
    let last = site_distance2(w, plates[k - 1], x, y);
    if k == 1 {
        assert(nearest_site(w, plates, x, y, 0) == (Fixed::top(), 0u16));
        0
    } else {
        let before = the_first_of_the_nearest_holds(w, plates, x, y, (k - 1) as nat);
        if last.raw < site_distance2(w, plates[before], x, y).raw {
            k - 1
        } else {
            before
        }
    }
}

} // verus!
