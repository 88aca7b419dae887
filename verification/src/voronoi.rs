//! Plate ownership: which plate's Voronoi cell each terrain point falls in.
//!
//! Recomputed every step, since the sites move. The distance metric is
//! cylindrical, so the diagram wraps across the x seam.

use crate::fixed::Fixed;
use crate::math::{delta_between, wrapped_difference};
use crate::plate::{Plate, PlateId};
use crate::scalar::{linearly_ordered, repeated, Scalar};
use crate::world::{lemma_row_in_grid, World};
use vstd::arithmetic::div_mod::lemma_mod_multiples_vanish;
use vstd::prelude::*;

verus! {

/// A fixed distortion of the plane, applied before the Voronoi lookup.
///
/// Without it, plate boundaries are exactly the perpendicular bisectors of the
/// sites, so every mountain belt comes out as a dead straight line and the
/// polygon pattern shows through the finished world. Warping the lookup
/// position by smooth noise bends the boundaries into something that looks
/// like a rift or a suture, at no cost to the rest of the model: the diagram
/// is still deterministic, still tiles across the seam, and boundary normals
/// are still the site-to-site direction to within the warp's own gradient.
///
/// The offsets are computed once, since the distortion belongs to the world
/// rather than to any particular step.
pub struct Warp<S> {
    pub dx: Vec<S>,
    pub dy: Vec<S>,
}

fn scaled_by<S: Scalar>(v: &Vec<S>, k: S) -> (r: Vec<S>)
    ensures
        r@ == Seq::new(v@.len(), |i: int| v@[i].mul(k)),
{
    let mut out: Vec<S> = Vec::with_capacity(v.len());
    let mut i: usize = 0;
    while i < v.len()
        invariant
            i <= v@.len(),
            out@ == Seq::new(i as nat, |j: int| v@[j].mul(k)),
        decreases v@.len() - i,
    {
        out.push(v[i].times(k));
        i += 1;
        assert(out@ =~= Seq::new(i as nat, |j: int| v@[j].mul(k)));
    }
    out
}

impl<S: Scalar> Warp<S> {
    /// The warp belongs to worlds of `n` cells.
    pub open spec fn wf(&self, n: int) -> bool {
        self.dx@.len() == n && self.dy@.len() == n
    }

    /// Offsets from two noise fields, one value per cell each; `amplitude` is
    /// in cells.
    pub fn new(noise_x: &Vec<S>, noise_y: &Vec<S>, amplitude: S) -> (r: Self)
        ensures
            r.dx@ == Seq::new(noise_x@.len(), |i: int| noise_x@[i].mul(amplitude)),
            r.dy@ == Seq::new(noise_y@.len(), |i: int| noise_y@[i].mul(amplitude)),
    {
        Warp { dx: scaled_by(noise_x, amplitude), dy: scaled_by(noise_y, amplitude) }
    }

    /// A warp that does nothing, for tests and for the unwarped case.
    pub fn none(world: &World<S>) -> (r: Self)
        requires
            world.width * world.height <= usize::MAX,
        ensures
            r.dx@ == Seq::new(world.cells() as nat, |i: int| S::of_int(0)),
            r.dy@ == Seq::new(world.cells() as nat, |i: int| S::of_int(0)),
            r.wf(world.cells()),
    {
        Warp { dx: repeated(S::whole(0), world.len()), dy: repeated(S::whole(0), world.len()) }
    }
}

/// Squared distance from a point to a site, the short way around.
pub open spec fn site_distance2<S: Scalar>(w: int, plate: Plate<S>, x: S, y: S) -> S {
    delta_between(w, x, y, plate.position.x, plate.position.y).squared()
}

/// The plate among the first `k` whose site is nearest to a point, and its
/// squared distance; of two at the same distance the first.
pub open spec fn nearest_site<S: Scalar>(
    w: int,
    plates: Seq<Plate<S>>,
    x: S,
    y: S,
    k: nat,
) -> (S, PlateId)
    decreases k,
{
    if k == 0 {
        (S::top(), 0u16)
    } else {
        let (best, id) = nearest_site(w, plates, x, y, (k - 1) as nat);
        let d2 = site_distance2(w, plates[k - 1], x, y);
        if d2.lt(best) {
            (d2, plates[k - 1].id)
        } else {
            (best, id)
        }
    }
}

/// The plate that holds cell `c`.
pub open spec fn owner_of<S: Scalar>(
    w: int,
    plates: Seq<Plate<S>>,
    dx: Seq<S>,
    dy: Seq<S>,
    c: int,
) -> PlateId {
    nearest_site(
        w,
        plates,
        S::of_int(c % w).add(dx[c]),
        S::of_int(c / w).add(dy[c]),
        plates.len(),
    ).1
}

/// Who holds each of `n` cells.
pub open spec fn owners<S: Scalar>(
    w: int,
    n: nat,
    plates: Seq<Plate<S>>,
    dx: Seq<S>,
    dy: Seq<S>,
) -> Seq<PlateId> {
    Seq::new(n, |c: int| owner_of(w, plates, dx, dy, c))
}

/// Fill `world.plate_id` from the current plate sites.
pub fn assign<S: Scalar>(world: &mut World<S>, plates: &Vec<Plate<S>>, warp: &Warp<S>)
    requires
        old(world).wf(),
        plates@.len() > 0,
        warp.wf(old(world).cells()),
    ensures
        final(world).wf(),
        *final(world) == (World { plate_id: final(world).plate_id, ..*old(world) }),
        final(world).plate_id@ == owners(
            old(world).width as int,
            old(world).cells() as nat,
            plates@,
            warp.dx@,
            warp.dy@,
        ),
{
    let n: usize = world.len();
    let ghost w = world.width as int;
    let ghost h = world.height as int;
    let mut idx: usize = 0;
    while idx < n
        invariant
            idx <= n,
            n == world.cells(),
            old(world).wf(),
            world.wf(),
            w == world.width,
            h == world.height,
            warp.wf(n as int),
            *world == (World { plate_id: world.plate_id, ..*old(world) }),
            forall|c: int|
                0 <= c < idx ==> #[trigger] world.plate_id@[c] == owner_of(
                    w,
                    plates@,
                    warp.dx@,
                    warp.dy@,
                    c,
                ),
        decreases n - idx,
    {
        let (x, y) = world.coords(idx);
        proof {
            lemma_row_in_grid(w, h, idx as int);
        }
        let fx = S::whole(x as i64).plus(warp.dx[idx]);
        let fy = S::whole(y as i64).plus(warp.dy[idx]);
        let mut best = S::largest();
        let mut best_id: PlateId = 0;
        let mut i: usize = 0;
        while i < plates.len()
            invariant
                i <= plates@.len(),
                w == world.width,
                world.wf(),
                (best, best_id) == nearest_site(w, plates@, fx, fy, i as nat),
            decreases plates@.len() - i,
        {
            let p = &plates[i];
            let d2 = world.dist2(fx, fy, p.position.x, p.position.y);
            if d2.less(best) {
                best = d2;
                best_id = p.id;
            }
            i += 1;
        }
        world.plate_id.set(idx, best_id);
        idx += 1;
    }
    proof {
        assert(world.plate_id@ =~= owners(w, n as nat, plates@, warp.dx@, warp.dy@));
    }
}

// --- laws ------------------------------------------------------------------
proof fn lemma_nearest<S: Scalar>(w: int, plates: Seq<Plate<S>>, x: S, y: S, k: nat)
    requires
        linearly_ordered::<S>(),
        k <= plates.len(),
        S::top().le(S::top()),
        forall|i: int|
            0 <= i < plates.len() ==> ({
                let d = #[trigger] site_distance2(w, plates[i], x, y);
                d.le(d)
            }),
    ensures
        ({
            let (best, id) = nearest_site(w, plates, x, y, k);
            &&& best.le(best)
            &&& forall|i: int|
                0 <= i < k ==> best.le(#[trigger] site_distance2(w, plates[i], x, y))
            &&& best == S::top() || exists|i: int|
                0 <= i < k && plates[i].id == id && #[trigger] site_distance2(w, plates[i], x, y)
                    == best
        }),
    decreases k,
{
    if k > 0 {
        lemma_nearest(w, plates, x, y, (k - 1) as nat);
        let (best0, id0) = nearest_site(w, plates, x, y, (k - 1) as nat);
        let (best, id) = nearest_site(w, plates, x, y, k);
        let d2 = site_distance2(w, plates[k - 1], x, y);
        assert(d2.le(d2));
        assert(best0.le(d2) <==> !d2.lt(best0));
        assert forall|i: int| 0 <= i < k implies best.le(
            #[trigger] site_distance2(w, plates[i], x, y),
        ) by {
            if i < k - 1 {
                assert(best0.le(site_distance2(w, plates[i], x, y)));
            }
        }
        if !d2.lt(best0) && best0 != S::top() {
            let i = choose|i: int|
                0 <= i < k - 1 && plates[i].id == id0 && #[trigger] site_distance2(
                    w,
                    plates[i],
                    x,
                    y,
                ) == best0;
            assert(0 <= i < k && site_distance2(w, plates[i], x, y) == best);
        }
    }
}

/// Every point goes to its nearest site: where some site is closer than the
/// largest number, the owner's site is no further away than any other.
pub proof fn cells_go_to_their_nearest_site<S: Scalar>(
    w: int,
    plates: Seq<Plate<S>>,
    x: S,
    y: S,
    j: int,
)
    requires
        linearly_ordered::<S>(),
        S::top().le(S::top()),
        0 <= j < plates.len(),
        site_distance2(w, plates[j], x, y).lt(S::top()),
        forall|i: int|
            0 <= i < plates.len() ==> ({
                let d = #[trigger] site_distance2(w, plates[i], x, y);
                d.le(d)
            }),
    ensures
        exists|o: int|
            0 <= o < plates.len() && plates[o].id == nearest_site(w, plates, x, y, plates.len()).1
                && forall|i: int|
                0 <= i < plates.len() ==> #[trigger] site_distance2(w, plates[o], x, y).le(
                    #[trigger] site_distance2(w, plates[i], x, y),
                ),
{
    lemma_nearest(w, plates, x, y, plates.len());
    let (best, id) = nearest_site(w, plates, x, y, plates.len());
    let dj = site_distance2(w, plates[j], x, y);
    assert(dj.le(dj));
    assert(best.le(dj));
    assert(best != S::top()) by {
        assert(S::top().le(dj) <==> !dj.lt(S::top()));
    }
    let o = choose|o: int|
        0 <= o < plates.len() && plates[o].id == id && #[trigger] site_distance2(
            w,
            plates[o],
            x,
            y,
        ) == best;
    assert forall|i: int| 0 <= i < plates.len() implies #[trigger] site_distance2(
        w,
        plates[o],
        x,
        y,
    ).le(#[trigger] site_distance2(w, plates[i], x, y)) by {}
}

/// The diagram is seamless: a point that a warp carries any number of times
/// around the world is as far from every site as it was.
pub proof fn distances_wrap(w: int, plate: Plate<Fixed>, x: Fixed, y: Fixed, turns: int)
    requires
        0 < w <= 0x7FFF_FFFF_FFFF,
        i64::MIN <= x.raw - plate.position.x.raw <= i64::MAX,
        i64::MIN <= x.raw + turns * Fixed::of_int(w).raw <= i64::MAX,
        i64::MIN <= x.raw + turns * Fixed::of_int(w).raw - plate.position.x.raw <= i64::MAX,
    ensures
        site_distance2(w, plate, Fixed { raw: (x.raw + turns * Fixed::of_int(w).raw) as i64 }, y)
            == site_distance2(w, plate, x, y),
{
    let period = Fixed::of_int(w);
    let p = period.raw as int;
    assert(p == w * 65536);
    let d = x.raw - plate.position.x.raw;
    let around = Fixed { raw: (x.raw + turns * p) as i64 };
    lemma_mod_multiples_vanish(turns, d, p);
    assert(p * turns + d == d + turns * p) by (nonlinear_arith);
    assert(around.sub(plate.position.x).raw == d + turns * p);
    assert(wrapped_difference(around, plate.position.x, period) == wrapped_difference(
        x,
        plate.position.x,
        period,
    ));
}

proof fn lemma_owner_listed<S: Scalar>(
    w: int,
    plates: Seq<Plate<S>>,
    x: S,
    y: S,
    count: int,
    k: nat,
)
    requires
        k <= plates.len(),
        0 < count,
        forall|i: int| 0 <= i < plates.len() ==> (#[trigger] plates[i]).id < count,
    ensures
        nearest_site(w, plates, x, y, k).1 < count,
    decreases k,
{
    if k > 0 {
        lemma_owner_listed(w, plates, x, y, count, (k - 1) as nat);
        assert(plates[k - 1].id < count);
    }
}

/// Every cell belongs to a real plate.
pub proof fn every_cell_has_an_owner<S: Scalar>(
    w: int,
    n: nat,
    plates: Seq<Plate<S>>,
    dx: Seq<S>,
    dy: Seq<S>,
    count: int,
    c: int,
)
    requires
        0 < count,
        forall|i: int| 0 <= i < plates.len() ==> (#[trigger] plates[i]).id < count,
        0 <= c < n,
    ensures
        owners(w, n, plates, dx, dy)[c] < count,
{
    lemma_owner_listed(
        w,
        plates,
        S::of_int(c % w).add(dx[c]),
        S::of_int(c / w).add(dy[c]),
        count,
        plates.len(),
    );
}

/// Sites own their own cell: without a warp, the cell that a site stands on
/// belongs to its plate, where no other site is on top of it.
pub proof fn sites_own_their_own_cell(
    w: int,
    plates: Seq<Plate<Fixed>>,
    dx: Seq<Fixed>,
    dy: Seq<Fixed>,
    k: int,
    c: int,
)
    requires
        0 < w <= 0x7FFF_FFFF_FFFF,
        0 <= k < plates.len(),
        dx[c] == Fixed::of_int(0),
        dy[c] == Fixed::of_int(0),
        plates[k].position.x == Fixed::of_int(c % w),
        plates[k].position.y == Fixed::of_int(c / w),
        forall|i: int|
            0 <= i < plates.len() && i != k ==> #[trigger] site_distance2(
                w,
                plates[i],
                plates[k].position.x,
                plates[k].position.y,
            ) != Fixed::of_int(0),
    ensures
        owner_of(w, plates, dx, dy, c) == plates[k].id,
{
    let x = Fixed::of_int(c % w).add(dx[c]);
    let y = Fixed::of_int(c / w).add(dy[c]);
    assert(x == plates[k].position.x && y == plates[k].position.y);
    let zero = Fixed::of_int(0);
    assert(0int % (w * 65536) == 0) by {
        vstd::arithmetic::div_mod::lemma_small_mod(0, (w * 65536) as nat);
    }
    assert(site_distance2(w, plates[k], x, y) == zero) by {
        let d = delta_between(w, x, y, plates[k].position.x, plates[k].position.y);
        assert(Fixed::of_int(w).raw == w * 65536);
        assert(d.x.raw == 0);
        assert(d.y.raw == 0);
        assert(0 * 0 == 0);
    }
    assert forall|i: int| 0 <= i < plates.len() implies zero.le(
        #[trigger] site_distance2(w, plates[i], x, y),
    ) by {
        let d = delta_between(w, x, y, plates[i].position.x, plates[i].position.y);
        assert((d.x.raw * d.x.raw) / 65536 >= 0 && (d.y.raw * d.y.raw) / 65536 >= 0)
            by (nonlinear_arith);
    }
    lemma_nearest(w, plates, x, y, plates.len());
    let (best, id) = nearest_site(w, plates, x, y, plates.len());
    assert(best.le(site_distance2(w, plates[k], x, y)));
    let i = choose|i: int|
        0 <= i < plates.len() && plates[i].id == id && #[trigger] site_distance2(
            w,
            plates[i],
            x,
            y,
        ) == best;
    assert(site_distance2(w, plates[i], x, y) == zero);
}

} // verus!
