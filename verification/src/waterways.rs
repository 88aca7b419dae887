//! Which way water goes, and how high it stands.

use crate::drainage::{fixed_slopes_compare, water_takes_the_steepest_way};
use crate::fixed::{fixed_numbers_are_ordered, lemma_isqrt, saturated, Fixed};
use crate::flood::{
    flooded, is_outlet, lowest_neighbor, tilt_rises, water_comes_from_a_neighbour,
    water_takes_the_lowest_way,
};
use crate::hydrology::{descent, receiver_of};
use crate::scalar::{larger, Scalar};
use crate::world::{is_grid, neighbors_of};
use vstd::prelude::*;

verus! {

// --- the way down ----------------------------------------------------------
/// A step to a neighbour goes across a corner.
pub open spec fn crosses_a_corner(w: int, h: int, c: int, j: int) -> bool {
    neighbors_of(w, h, c)[j].1 != 0 && neighbors_of(w, h, c)[j].2 != 0
}

/// How far a cell lies above its neighbour.
pub open spec fn drop_to(w: int, h: int, filled: Seq<Fixed>, c: int, j: int) -> int {
    filled[c].raw - filled[neighbors_of(w, h, c)[j].0 as int].raw
}

/// A way down is as steep as another, or steeper: the drop over the length of
/// the step, which is the root of two across a corner.
pub open spec fn as_steep(
    w: int,
    h: int,
    filled: Seq<Fixed>,
    c: int,
    j: int,
    i: int,
) -> bool {
    let a = drop_to(w, h, filled, c, j);
    let b = drop_to(w, h, filled, c, i);
    if crosses_a_corner(w, h, c, j) == crosses_a_corner(w, h, c, i) {
        b <= a + 1
    } else if crosses_a_corner(w, h, c, i) {
        65536 * b <= 92681 * (a + 1)
    } else {
        92681 * b <= 65536 * a
    }
}

proof fn lemma_descent(w: int, h: int, filled: Seq<Fixed>, c: int, j: int)
    requires
        i64::MIN <= drop_to(w, h, filled, c, j) <= i64::MAX,
    ensures
        ({
            let a = drop_to(w, h, filled, c, j);
            descent(w, h, filled, c, j).raw == if crosses_a_corner(w, h, c, j) {
                (a * 65536) / 92681
            } else {
                a
            }
        }),
{
    let a = drop_to(w, h, filled, c, j);
    lemma_isqrt(8_589_934_592, 92681);
    assert(Fixed::of_int(2).raw == 131072);
    assert(Fixed::of_int(2).sqrt().raw == 92681);
    assert((a * 65536) / 65536 == a);
    assert(i64::MIN <= (a * 65536) / 92681 <= i64::MAX) by (nonlinear_arith)
        requires
            i64::MIN <= a <= i64::MAX,
    ;
}

/// Water on land takes the steepest way down there is, steps across a corner
/// counting as the root of two, and stays only where no neighbour lies lower by a
/// step that counts; in the sea it stays.
pub proof fn water_goes_where_it_is_steepest(
    w: int,
    h: int,
    elevation: Seq<Fixed>,
    sea: Fixed,
    filled: Seq<Fixed>,
    c: int,
)
    requires
        is_grid(w, h),
        0 <= c < w * h <= i32::MAX,
        forall|j: int|
            0 <= j < neighbors_of(w, h, c).len() ==> i64::MIN <= #[trigger] drop_to(
                w,
                h,
                filled,
                c,
                j,
            ) <= i64::MAX,
    ensures
        ({
            let r = receiver_of(w, h, elevation, sea, filled, c);
            let ns = neighbors_of(w, h, c);
            &&& elevation[c].raw <= sea.raw ==> r == -1
            &&& elevation[c].raw > sea.raw && r < 0 ==> r == -1 && forall|i: int|
                0 <= i < ns.len() ==> #[trigger] drop_to(w, h, filled, c, i) <= 1
            &&& r >= 0 ==> exists|j: int|
                {
                    &&& 0 <= j < ns.len()
                    &&& (#[trigger] ns[j]).0 == r
                    &&& drop_to(w, h, filled, c, j) > 0
                    &&& forall|i: int|
                        0 <= i < ns.len() ==> #[trigger] as_steep(w, h, filled, c, j, i)
                }
        }),
{
    fixed_slopes_compare();
    water_takes_the_steepest_way(w, h, elevation, sea, filled, c);
    let r = receiver_of(w, h, elevation, sea, filled, c);
    let ns = neighbors_of(w, h, c);
    if elevation[c].raw > sea.raw {
        if r < 0 {
            assert forall|i: int| 0 <= i < ns.len() implies #[trigger] drop_to(w, h, filled, c, i)
                <= 1 by {
                lemma_descent(w, h, filled, c, i);
                assert(!Fixed::of_int(0).lt(descent(w, h, filled, c, i)));
            }
        } else {
            let j = choose|j: int|
                0 <= j < ns.len() && (#[trigger] ns[j]).0 == r && Fixed::of_int(0).lt(
                    descent(w, h, filled, c, j),
                ) && (forall|i: int|
                    0 <= i < ns.len() ==> !descent(w, h, filled, c, j).lt(
                        #[trigger] descent(w, h, filled, c, i),
                    ));
            lemma_descent(w, h, filled, c, j);
            assert forall|i: int| 0 <= i < ns.len() implies #[trigger] as_steep(
                w,
                h,
                filled,
                c,
                j,
                i,
            ) by {
                assert(i64::MIN <= drop_to(w, h, filled, c, i) <= i64::MAX);
                lemma_descent(w, h, filled, c, i);
                assert(!descent(w, h, filled, c, j).lt(descent(w, h, filled, c, i)));
            }
            assert(ns[j].0 == r);
        }
    }
}

// --- standing water --------------------------------------------------------
/// How high the water stands. The sea, and the first and the last row, are left
/// as they are. Any other cell is filled to its own height, or up to the lowest of
/// the neighbours where that lies higher, with the tilt and without.
pub proof fn basins_fill_up_to_their_way_out(
    w: int,
    h: int,
    elevation: Seq<Fixed>,
    sea: Fixed,
    epsilon: Fixed,
    c: int,
)
    requires
        is_grid(w, h),
        w * h <= u32::MAX,
        0 <= epsilon.raw,
        elevation.len() == w * h,
        0 <= c < w * h,
    ensures
        ({
            let f = flooded(w, h, elevation, sea, epsilon);
            let ns = neighbors_of(w, h, c);
            if elevation[c].raw <= sea.raw || c / w == 0 || c / w == h - 1 {
                f.filled[c] == elevation[c] && f.level[c] == elevation[c]
            } else {
                exists|j: int|
                    {
                        let low = (#[trigger] ns[j]).0 as int;
                        &&& 0 <= j < ns.len()
                        &&& forall|i: int|
                            0 <= i < ns.len() ==> f.filled[low].raw <= f.filled[(
                            #[trigger] ns[i]).0 as int].raw
                        &&& elevation[c].raw <= f.filled[c].raw
                        &&& elevation[c].raw <= f.level[c].raw
                        &&& f.filled[c] == elevation[c] || f.filled[c].raw == saturated(
                            f.filled[low].raw + epsilon.raw,
                        )
                        &&& f.filled[c].raw >= saturated(f.filled[low].raw + epsilon.raw)
                        &&& f.level[c].raw >= f.level[low].raw
                        &&& f.level[c] == elevation[c] || f.level[c] == f.level[low]
                    }
            }
        }),
{
    fixed_numbers_are_ordered();
    let f = flooded(w, h, elevation, sea, epsilon);
    let ns = neighbors_of(w, h, c);
    if is_outlet(w, h, elevation, sea, c) {
        water_comes_from_a_neighbour(w, h, elevation, sea, epsilon, c);
    } else {
        assert(tilt_rises(epsilon));
        water_takes_the_lowest_way(w, h, elevation, sea, epsilon, c);
        let low = choose|low: int| #[trigger]
            lowest_neighbor(w, h, f.filled, c, low) && 0 <= low < w * h && f.filled[c] == larger(
                elevation[c],
                f.filled[low].add(epsilon),
            ) && f.level[c] == larger(elevation[c], f.level[low]);
        let j = choose|j: int| 0 <= j < ns.len() && (#[trigger] ns[j]).0 == low;
        assert(ns[j].0 == low);
        assert forall|i: int| 0 <= i < ns.len() implies f.filled[low].raw <= f.filled[(
        #[trigger] ns[i]).0 as int].raw by {
            assert(f.filled[low].le(f.filled[ns[i].0 as int]));
        }
    }
}

} // verus!
