//! Tectonic plates: moving Voronoi sites.

use crate::fixed::{fixed_numbers_are_ordered, Fixed};
use crate::math::{delta_between, Vec2};
use crate::noise::{pcg_from, rng, stream_state, Rng};
use crate::scalar::{clamp_to, clamped, larger, linearly_ordered, max_of, min_of, smaller, Scalar};
use crate::select::{
    is_rank_at, place_of, quantile_place, ranked_by, select_nth, sorted_at,
    sorted_ranks_never_fall, sorted_values_are_values,
};
use crate::world::{contained, World};
use vstd::prelude::*;

verus! {

/// Where continental crust sits, independent of where the plates are.
///
/// If crust type were read straight off plate ownership, every coastline would
/// be a Voronoi edge and the world would look like a polygon soup. Instead a
/// large-scale noise field decides what is continent and what is ocean; plates
/// then take their crust type from the field under their site, and the initial
/// terrain takes its shape from the same field. Continents and plates line up,
/// but coastlines are organic and a plate may straddle both.
///
/// The noise field itself is sampled by the caller; this type holds the level
/// at which its values turn continental.
#[derive(Clone, Copy, Debug)]
pub struct CrustField<S> {
    /// Field value above which crust is continental.
    pub threshold: S,
}

/// Every fourth column of every fourth row, row by row.
pub open spec fn coarse_grid(w: int, h: int) -> Seq<(usize, usize)> {
    let columns = (w + 3) / 4;
    let rows = (h + 3) / 4;
    Seq::new(
        (columns * rows) as nat,
        |i: int| (((i % columns) * 4) as usize, ((i / columns) * 4) as usize),
    )
}

/// The cells at which the crust noise is sampled to find its threshold.
pub fn sample_points<S: Scalar>(world: &World<S>) -> (r: Vec<(usize, usize)>)
    requires
        world.wf(),
    ensures
        r@ == coarse_grid(world.width as int, world.height as int),
{
    let ghost w = world.width as int;
    let ghost h = world.height as int;
    let ghost columns = (w + 3) / 4;
    let ghost rows = (h + 3) / 4;
    let mut out: Vec<(usize, usize)> = Vec::new();
    let row_count: usize = world.height / 4 + if world.height % 4 == 0 {
        0
    } else {
        1
    };
    let column_count: usize = world.width / 4 + if world.width % 4 == 0 {
        0
    } else {
        1
    };
    let mut j: usize = 0;
    while j < row_count
        invariant
            j <= row_count,
            row_count == rows,
            column_count == columns,
            columns > 0,
            w == world.width,
            h == world.height,
            columns == (w + 3) / 4,
            rows == (h + 3) / 4,
            out@.len() == columns * j,
            forall|i: int|
                0 <= i < out@.len() ==> #[trigger] out@[i] == (
                    ((i % columns) * 4) as usize,
                    ((i / columns) * 4) as usize,
                ),
        decreases row_count - j,
    {
        let mut k: usize = 0;
        while k < column_count
            invariant
                j < row_count,
                k <= column_count,
                row_count == rows,
                column_count == columns,
                columns > 0,
                w == world.width,
                h == world.height,
                columns == (w + 3) / 4,
                rows == (h + 3) / 4,
                out@.len() == columns * j + k,
                forall|i: int|
                    0 <= i < out@.len() ==> #[trigger] out@[i] == (
                        ((i % columns) * 4) as usize,
                        ((i / columns) * 4) as usize,
                    ),
            decreases column_count - k,
        {
            assert(columns * j == j * columns) by (nonlinear_arith);
            proof {
                vstd::arithmetic::div_mod::lemma_fundamental_div_mod_converse(
                    columns * j + k,
                    columns,
                    j as int,
                    k as int,
                );
            }
            out.push((k * 4, j * 4));
            k += 1;
        }
        assert(columns * j + columns == columns * (j + 1)) by (nonlinear_arith);
        j += 1;
    }
    assert(out@ =~= coarse_grid(w, h));
    out
}

/// The place of the threshold among `n` samples, so that the given fraction of
/// them lies above it.
pub open spec fn threshold_place<S: Scalar>(n: int, continental_fraction: S) -> int {
    let fraction = clamped(continental_fraction, S::of_int(0), S::of_int(1));
    quantile_place(n, S::of_int(1).sub(fraction))
}

impl<S: Scalar> CrustField<S> {
    /// The threshold is picked so continental crust covers
    /// `continental_fraction` of the world, whatever the noise happens to look
    /// like: `samples` are its values on a coarse grid.
    pub fn new(samples: &Vec<S>, continental_fraction: S) -> (r: Self)
        requires
            0 < samples@.len() <= i64::MAX,
        ensures
            r.threshold == sorted_at(
                samples@,
                threshold_place(samples@.len() as int, continental_fraction),
            ),
    {
        let fraction = clamp_to(continental_fraction, S::whole(0), S::whole(1));
        let k: usize = place_of(samples.len(), S::whole(1).minus(fraction));
        CrustField { threshold: select_nth(samples, k) }
    }

    pub open spec fn height_above(&self, noise: S) -> S {
        noise.sub(self.threshold)
    }

    pub open spec fn makes_land(&self, noise: S) -> bool {
        S::of_int(0).lt(self.height_above(noise))
    }

    /// How continental a point is where the noise field has the given value:
    /// positive on land-forming crust, negative on oceanic, and near zero along
    /// the continental margin.
    pub fn continentalness(&self, noise: S) -> (r: S)
        ensures
            r == self.height_above(noise),
    {
        noise.minus(self.threshold)
    }

    pub fn is_continental(&self, noise: S) -> (r: bool)
        ensures
            r == self.makes_land(noise),
    {
        S::whole(0).less(self.continentalness(noise))
    }
}

pub type PlateId = u16;

#[derive(Clone, Copy, Debug, PartialEq, Eq, Structural)]
pub enum CrustType {
    Oceanic,
    Continental,
}

impl CrustType {
    pub fn is_continental(self) -> (r: bool)
        ensures
            r == (self is Continental),
    {
        match self {
            CrustType::Continental => true,
            CrustType::Oceanic => false,
        }
    }
}

#[derive(Clone, Copy, Debug)]
pub struct Plate<S> {
    pub id: PlateId,
    /// Voronoi site, in cell coordinates.
    pub position: Vec2<S>,
    /// Cells per simulation step (before `dt`).
    pub velocity: Vec2<S>,
    pub crust_type: CrustType,
}

#[derive(Clone, Copy, Debug)]
pub struct PlateParams<S> {
    pub count: usize,
    /// Fraction of the world that is continental crust.
    pub continental_fraction: S,
    /// Plate speed range, in cells per unit time.
    pub speed_min: S,
    pub speed_max: S,
    /// Candidates per site for Mitchell's best-candidate spacing.
    pub spacing_candidates: usize,
}

pub open spec fn default_plates<S: Scalar>() -> PlateParams<S> {
    PlateParams {
        count: 32,
        continental_fraction: S::ratio(4, 10),
        speed_min: S::ratio(5, 100),
        speed_max: S::ratio(35, 100),
        spacing_candidates: 24,
    }
}

impl<S: Scalar> Default for PlateParams<S> {
    fn default() -> (r: Self)
        ensures
            r == default_plates::<S>(),
            r.count == 32,
            r.continental_fraction == S::ratio(4, 10),
            r.speed_min == S::ratio(5, 100),
            r.speed_max == S::ratio(35, 100),
            r.spacing_candidates == 24,
    {
        PlateParams {
            count: 32,
            continental_fraction: S::fraction(4, 10),
            speed_min: S::fraction(5, 100),
            speed_max: S::fraction(35, 100),
            spacing_candidates: 24,
        }
    }
}

impl<S: Scalar> PlateParams<S> {
    /// The speeds that plates are drawn from: the upper end is kept above the
    /// lower one.
    pub fn speed_range(&self) -> (r: (S, S))
        ensures
            r == (
                self.speed_min,
                larger(self.speed_max, self.speed_min.add(S::ratio(1, 1_000_000))),
            ),
    {
        (self.speed_min, max_of(self.speed_max, self.speed_min.plus(S::fraction(1, 1_000_000))))
    }

    /// How many candidates each site is picked from.
    pub fn candidates_per_site(&self) -> (r: usize)
        ensures
            r == per_site(self.spacing_candidates),
            self.spacing_candidates >= 1 ==> r == self.spacing_candidates,
            self.spacing_candidates == 0 ==> r == 1,
    {
        if self.spacing_candidates > 1 {
            self.spacing_candidates
        } else {
            1
        }
    }
}

pub open spec fn per_site(spacing_candidates: usize) -> usize {
    if spacing_candidates > 1 {
        spacing_candidates
    } else {
        1
    }
}

// --- placing ---------------------------------------------------------------
/// Where sites are drawn: columns from 0 up to the first number, rows from 0 up
/// to the second, which is the row along the southern wall.
pub fn site_range<S: Scalar>(world: &World<S>) -> (r: (S, S))
    requires
        world.width <= i64::MAX,
        world.height <= i64::MAX,
    ensures
        r == (
            S::of_int(world.width as int),
            S::of_int(world.height as int).sub(S::of_int(1)),
        ),
{
    (S::whole(world.width as i64), S::whole(world.height as i64).minus(S::whole(1)))
}

/// A point lies inside the world, between its walls.
pub open spec fn in_world<S: Scalar>(w: int, h: int, p: Vec2<S>) -> bool {
    &&& S::of_int(0).le(p.x)
    &&& p.x.lt(S::of_int(w))
    &&& S::of_int(0).le(p.y)
    &&& p.y.le(S::of_int(h).sub(S::of_int(1)))
}

/// Squared distance from `c` to the closest of the first `k` positions.
pub open spec fn clearance<S: Scalar>(
    w: int,
    c: Vec2<S>,
    positions: Seq<Vec2<S>>,
    k: nat,
) -> S
    decreases k,
{
    if k == 0 {
        S::top()
    } else {
        let p = positions[k - 1];
        smaller(
            clearance(w, c, positions, (k - 1) as nat),
            delta_between(w, c.x, c.y, p.x, p.y).squared(),
        )
    }
}

/// The roomiest of the first `k` candidates from `from` on, and its clearance.
pub open spec fn best_candidate<S: Scalar>(
    w: int,
    positions: Seq<Vec2<S>>,
    candidates: Seq<Vec2<S>>,
    from: int,
    k: nat,
) -> (S, Vec2<S>)
    decreases k,
{
    if k == 0 {
        (S::of_int(-1), Vec2::zero())
    } else {
        let (room, best) = best_candidate(w, positions, candidates, from, (k - 1) as nat);
        let c = candidates[from + k - 1];
        let d = clearance(w, c, positions, positions.len());
        if positions.len() == 0 || room.lt(d) {
            (d, c)
        } else {
            (room, best)
        }
    }
}

/// The first `k` sites: each is the roomiest of its own `per` candidates.
pub open spec fn placed<S: Scalar>(
    w: int,
    candidates: Seq<Vec2<S>>,
    per: int,
    k: nat,
) -> Seq<Vec2<S>>
    decreases k,
{
    if k == 0 {
        Seq::empty()
    } else {
        let before = placed(w, candidates, per, (k - 1) as nat);
        before.push(best_candidate(w, before, candidates, (k - 1) * per, per as nat).1)
    }
}

/// Place plate sites.
///
/// Sites are spread with Mitchell's best-candidate sampling so plates come out
/// roughly evenly sized instead of clumping. `candidates` holds the points that
/// were drawn, site by site.
pub fn place_sites<S: Scalar>(
    world: &World<S>,
    params: &PlateParams<S>,
    candidates: &Vec<Vec2<S>>,
) -> (r: Vec<Vec2<S>>)
    requires
        world.width <= i64::MAX,
        candidates@.len() == params.count * per_site(params.spacing_candidates),
    ensures
        r@ == placed(
            world.width as int,
            candidates@,
            per_site(params.spacing_candidates) as int,
            params.count as nat,
        ),
        r@.len() == params.count,
{
    let ghost w = world.width as int;
    let per: usize = params.candidates_per_site();
    let total: usize = candidates.len();
    let mut positions: Vec<Vec2<S>> = Vec::with_capacity(params.count);
    let mut from: usize = 0;
    let mut i: usize = 0;
    while i < params.count
        invariant
            i <= params.count,
            w == world.width,
            w <= i64::MAX,
            per == per_site(params.spacing_candidates),
            candidates@.len() == params.count * per,
            candidates@.len() == total,
            from == i * per,
            from <= candidates@.len(),
            positions@ == placed(w, candidates@, per as int, i as nat),
            positions@.len() == i,
        decreases params.count - i,
    {
        assert((i + 1) * per <= params.count * per && (i + 1) * per == i * per + per)
            by (nonlinear_arith)
            requires
                i + 1 <= params.count,
                per >= 0,
        ;
        let mut best: Vec2<S> = Vec2::origin();
        let mut room = S::whole(-1);
        let mut k: usize = 0;
        while k < per
            invariant
                k <= per,
                w == world.width,
                w <= i64::MAX,
                from + per <= candidates@.len() == total,
                (room, best) == best_candidate(
                    w,
                    positions@,
                    candidates@,
                    from as int,
                    k as nat,
                ),
            decreases per - k,
        {
            let c = candidates[from + k];
            let mut d = S::largest();
            let mut j: usize = 0;
            while j < positions.len()
                invariant
                    j <= positions@.len(),
                    w == world.width,
                    w <= i64::MAX,
                    d == clearance(w, c, positions@, j as nat),
                decreases positions@.len() - j,
            {
                let p = positions[j];
                d = min_of(d, world.dist2(c.x, c.y, p.x, p.y));
                j += 1;
            }
            if positions.len() == 0 || room.less(d) {
                room = d;
                best = c;
            }
            k += 1;
        }
        positions.push(best);
        from += per;
        i += 1;
    }
    positions
}

/// The generator that sites, angles and speeds are drawn from: first the two
/// coordinates of every candidate, then an angle and a speed for every plate.
pub fn plate_rng(seed: u64) -> (r: Rng)
    ensures
        r == pcg_from(stream_state(seed, 0x91A7)),
{
    rng(seed, 0x91A7)
}

/// The plate on a site, with the angle it moves at, its speed and the value of the crust
/// noise under it.
pub open spec fn plate_on<S: Scalar>(
    i: int,
    site: Vec2<S>,
    angle: S,
    speed: S,
    noise: S,
    crust: CrustField<S>,
) -> Plate<S> {
    Plate {
        id: i as PlateId,
        position: site,
        velocity: Vec2::facing(angle).scaled(speed),
        crust_type: if crust.makes_land(noise) {
            CrustType::Continental
        } else {
            CrustType::Oceanic
        },
    }
}

/// Make plates of sites: give them velocities, and read off their crust types.
///
/// Crust type comes from the [`CrustField`] under each site, which is what
/// keeps plates consistent with the geography the world was built from. Each
/// plate moves at its own angle; `noise` holds the crust noise at the sites.
pub fn generate<S: Scalar>(
    sites: &Vec<Vec2<S>>,
    angles: &Vec<S>,
    speeds: &Vec<S>,
    noise: &Vec<S>,
    crust: &CrustField<S>,
) -> (r: Vec<Plate<S>>)
    requires
        sites@.len() <= 65536,
        angles@.len() == sites@.len(),
        speeds@.len() == sites@.len(),
        noise@.len() == sites@.len(),
    ensures
        r@ == Seq::new(
            sites@.len(),
            |i: int| plate_on(i, sites@[i], angles@[i], speeds@[i], noise@[i], *crust),
        ),
{
    let mut plates: Vec<Plate<S>> = Vec::with_capacity(sites.len());
    let mut i: usize = 0;
    while i < sites.len()
        invariant
            i <= sites@.len() <= 65536,
            angles@.len() == sites@.len(),
            speeds@.len() == sites@.len(),
            noise@.len() == sites@.len(),
            plates@ == Seq::new(
                i as nat,
                |j: int| plate_on(j, sites@[j], angles@[j], speeds@[j], noise@[j], *crust),
            ),
        decreases sites@.len() - i,
    {
        let crust_type = if crust.is_continental(noise[i]) {
            CrustType::Continental
        } else {
            CrustType::Oceanic
        };
        plates.push(
            Plate {
                id: i as PlateId,
                position: sites[i],
                velocity: Vec2::from_angle(angles[i]).times(speeds[i]),
                crust_type,
            },
        );
        i += 1;
        assert(plates@ =~= Seq::new(
            i as nat,
            |j: int| plate_on(j, sites@[j], angles@[j], speeds@[j], noise@[j], *crust),
        ));
    }
    plates
}

// --- moving ----------------------------------------------------------------
/// Where a plate would be after one step if the world had no end.
pub open spec fn heading<S: Scalar>(plate: Plate<S>, dt: S) -> Vec2<S> {
    plate.position.added(plate.velocity.scaled(dt))
}

/// A plate after one step. East/west wraps; the walls reflect.
pub open spec fn moved<S: Scalar>(w: int, h: int, plate: Plate<S>, dt: S) -> Plate<S> {
    let south = S::of_int(h).sub(S::of_int(1));
    let next = heading(plate, dt);
    let off_north = next.y.lt(S::of_int(0));
    let off_south = !off_north && south.lt(next.y);
    let y = if off_north {
        next.y.neg()
    } else if off_south {
        S::of_int(2).mul(south).sub(next.y)
    } else {
        next.y
    };
    let vy = if off_north || off_south {
        plate.velocity.y.neg()
    } else {
        plate.velocity.y
    };
    Plate {
        position: contained(w, h, Vec2 { x: next.x, y }),
        velocity: Vec2 { x: plate.velocity.x, y: vy },
        ..plate
    }
}

/// All plates after one step.
pub open spec fn all_moved<S: Scalar>(
    w: int,
    h: int,
    plates: Seq<Plate<S>>,
    dt: S,
) -> Seq<Plate<S>> {
    plates.map_values(|p: Plate<S>| moved(w, h, p, dt))
}

/// Advance plate sites by one step.
///
/// East/west wraps. The N/S walls reflect: a site that would walk off the top
/// or bottom of the world bounces, which keeps plates in play instead of
/// letting them pile up against the wall.
pub fn advance<S: Scalar>(plates: &mut Vec<Plate<S>>, world: &World<S>, dt: S)
    requires
        world.width <= i64::MAX,
        world.height <= i64::MAX,
    ensures
        final(plates)@ == all_moved(world.width as int, world.height as int, old(plates)@, dt),
        forall|i: int|
            #![trigger final(plates)@[i]]
            0 <= i < old(plates)@.len() && world.width > 0 && heading(
                old(plates)@[i],
                dt,
            ).x.finite() ==> S::of_int(0).le(final(plates)@[i].position.x)
                && final(plates)@[i].position.x.le(S::of_int(world.width as int)),
{
    let ghost w = world.width as int;
    let ghost h = world.height as int;
    let south = S::whole(world.height as i64).minus(S::whole(1));
    let mut i: usize = 0;
    while i < plates.len()
        invariant
            i <= plates@.len(),
            plates@.len() == old(plates)@.len(),
            w == world.width,
            h == world.height,
            w <= i64::MAX,
            h <= i64::MAX,
            south == S::of_int(h).sub(S::of_int(1)),
            forall|j: int| 0 <= j < i ==> #[trigger] plates@[j] == moved(w, h, old(plates)@[j], dt),
            forall|j: int| i <= j < plates@.len() ==> #[trigger] plates@[j] == old(plates)@[j],
            forall|j: int|
                #![trigger plates@[j]]
                0 <= j < i && w > 0 && heading(old(plates)@[j], dt).x.finite() ==> S::of_int(0).le(
                    plates@[j].position.x,
                ) && plates@[j].position.x.le(S::of_int(w)),
        decreases plates@.len() - i,
    {
        let mut plate = plates[i];
        let mut next = plate.position.plus(plate.velocity.times(dt));
        if next.y.less(S::whole(0)) {
            next.y = next.y.negated();
            plate.velocity.y = plate.velocity.y.negated();
        } else if south.less(next.y) {
            next.y = S::whole(2).times(south).minus(next.y);
            plate.velocity.y = plate.velocity.y.negated();
        }
        plate.position = world.contain(next);
        plates.set(i, plate);
        i += 1;
    }
    assert(plates@ =~= all_moved(w, h, old(plates)@, dt));
}

// --- laws ------------------------------------------------------------------
/// The crust threshold splits the samples as asked: it is the value at the
/// place of the requested fraction in their sorted order.
pub proof fn crust_covers_the_requested_fraction<S: Scalar>(
    samples: Seq<S>,
    continental_fraction: S,
)
    requires
        samples.len() > 0,
    ensures
        ({
            let k = threshold_place(samples.len() as int, continental_fraction);
            &&& 0 <= k < samples.len()
            &&& samples.contains(sorted_at(samples, k))
            &&& is_rank_at(samples, k, sorted_at(samples, k).rank() as int)
        }),
{
    let k = threshold_place(samples.len() as int, continental_fraction);
    sorted_values_are_values(samples, k);
}

/// How many of the first `n` samples lie on continental crust.
pub open spec fn land_count<S: Scalar>(samples: Seq<S>, field: CrustField<S>, n: nat) -> nat
    decreases n,
{
    if n == 0 {
        0
    } else {
        land_count(samples, field, (n - 1) as nat) + if field.makes_land(samples[n - 1]) {
            1nat
        } else {
            0
        }
    }
}

/// No two of the samples rank alike.
pub open spec fn all_rank_apart<S: Scalar>(samples: Seq<S>) -> bool {
    forall|i: int, j: int|
        #![trigger samples[i], samples[j]]
        0 <= i < j < samples.len() ==> samples[i].rank() != samples[j].rank()
}

proof fn lemma_land_and_sea<S: Scalar>(samples: Seq<S>, field: CrustField<S>, n: nat)
    requires
        n <= samples.len(),
        forall|x: S| #[trigger] field.makes_land(x) <==> field.threshold.rank() < x.rank(),
    ensures
        land_count(samples, field, n) + ranked_by(samples, field.threshold.rank() as int, n) == n,
    decreases n,
{
    if n > 0 {
        lemma_land_and_sea(samples, field, (n - 1) as nat);
        assert(field.makes_land(samples[n - 1]) <==> field.threshold.rank() < samples[n
            - 1].rank());
    }
}

proof fn lemma_ranked_one_by_one<S: Scalar>(samples: Seq<S>, r: int, n: nat)
    requires
        n <= samples.len(),
        all_rank_apart(samples),
    ensures
        ranked_by(samples, r, n) <= ranked_by(samples, r - 1, n) + 1,
        ranked_by(samples, r, n) > ranked_by(samples, r - 1, n) ==> exists|i: int|
            0 <= i < n && (#[trigger] samples[i]).rank() == r,
    decreases n,
{
    if n > 0 {
        lemma_ranked_one_by_one(samples, r, (n - 1) as nat);
        if ranked_by(samples, r, (n - 1) as nat) > ranked_by(samples, r - 1, (n - 1) as nat) {
            let i = choose|i: int| 0 <= i < n - 1 && (#[trigger] samples[i]).rank() == r;
            assert(samples[i].rank() != samples[n - 1].rank());
        } else if samples[n - 1].rank() == r {
            assert(0 <= n - 1 < n && samples[n - 1].rank() == r);
        }
    }
}

/// Continental crust covers what lies behind the place of the requested
/// fraction, never more, and all of it where no two samples are alike.
pub proof fn continents_cover_the_places_behind<S: Scalar>(
    samples: Seq<S>,
    continental_fraction: S,
)
    requires
        samples.len() > 0,
        ({
            let field = crust_of(samples, continental_fraction);
            forall|x: S| #[trigger] field.makes_land(x) <==> field.threshold.rank() < x.rank()
        }),
    ensures
        ({
            let n = samples.len();
            let k = threshold_place(n as int, continental_fraction);
            let covered = land_count(samples, crust_of(samples, continental_fraction), n);
            &&& covered <= n - 1 - k
            &&& all_rank_apart(samples) ==> covered == n - 1 - k
        }),
{
    let n = samples.len();
    let field = crust_of(samples, continental_fraction);
    let r = field.threshold.rank() as int;
    crust_covers_the_requested_fraction(samples, continental_fraction);
    lemma_land_and_sea(samples, field, n);
    if all_rank_apart(samples) {
        lemma_ranked_one_by_one(samples, r, n);
    }
}

/// With fixed-point numbers continental crust covers the requested fraction of
/// samples that are all different, to within half a sample; where some are
/// alike it covers no more than that.
pub proof fn fixed_continents_cover_the_fraction(
    samples: Seq<Fixed>,
    continental_fraction: Fixed,
)
    requires
        0 < samples.len() <= 0x7FFF_FFFF_FFFF,
        Fixed::of_int(0).le(continental_fraction),
        continental_fraction.le(Fixed::of_int(1)),
    ensures
        ({
            let n = samples.len();
            let covered = land_count(samples, crust_of(samples, continental_fraction), n) as int;
            let asked = (n - 1) * continental_fraction.raw;
            &&& covered * 65536 - asked <= 32768
            &&& all_rank_apart(samples) ==> -32768 <= covered * 65536 - asked
        }),
{
    let n = samples.len();
    continents_cover_the_places_behind(samples, continental_fraction);
    let f = continental_fraction.raw as int;
    let q = Fixed::of_int(1).sub(continental_fraction);
    assert(q.raw == 65536 - f);
    assert(Fixed::of_int(n - 1).raw == (n - 1) * 65536);
    let p = (n - 1) * (65536 - f);
    assert(((n - 1) * 65536 * q.raw) / 65536 == p) by (nonlinear_arith)
        requires
            p == (n - 1) * (65536 - f),
            q.raw == 65536 - f,
    ;
    assert(0 <= p <= (n - 1) * 65536) by (nonlinear_arith)
        requires
            n >= 1,
            0 <= f <= 65536,
            p == (n - 1) * (65536 - f),
    ;
    let k = threshold_place(n as int, continental_fraction);
    assert(k == (p + 32768) / 65536);
    assert(p == (n - 1) * 65536 - (n - 1) * f) by (nonlinear_arith)
        requires
            p == (n - 1) * (65536 - f),
    ;
}

/// What is above one level is above every lower level.
pub open spec fn differences_grow<S: Scalar>() -> bool {
    forall|x: S, a: S, b: S|
        #![trigger x.sub(a), x.sub(b)]
        a.le(b) && S::of_int(0).lt(x.sub(b)) ==> S::of_int(0).lt(x.sub(a))
}

/// The crust field of samples.
pub open spec fn crust_of<S: Scalar>(samples: Seq<S>, continental_fraction: S) -> CrustField<S> {
    CrustField {
        threshold: sorted_at(
            samples,
            threshold_place(samples.len() as int, continental_fraction),
        ),
    }
}

/// Asking for more continent never removes any.
pub proof fn more_continent_removes_none<S: Scalar>(samples: Seq<S>, less: S, more: S, noise: S)
    requires
        linearly_ordered::<S>(),
        differences_grow::<S>(),
        samples.len() > 0,
        forall|i: int| 0 <= i < samples.len() ==> (#[trigger] samples[i]).le(samples[i]),
        threshold_place(samples.len() as int, more) <= threshold_place(samples.len() as int, less),
    ensures
        crust_of(samples, more).threshold.le(crust_of(samples, less).threshold),
        crust_of(samples, less).makes_land(noise) ==> crust_of(samples, more).makes_land(noise),
{
    let j = threshold_place(samples.len() as int, more);
    let k = threshold_place(samples.len() as int, less);
    sorted_values_are_values(samples, j);
    sorted_values_are_values(samples, k);
    sorted_ranks_never_fall(samples, j, k);
    let a = sorted_at(samples, j);
    let b = sorted_at(samples, k);
    assert(a.le(a) && b.le(b));
    assert(a.le(b) <==> !b.lt(a));
}

/// With fixed-point numbers a larger share has its threshold no later in the
/// order, and what is above one level is above every lower one.
pub proof fn fixed_thresholds_fall(n: int, less: Fixed, more: Fixed)
    requires
        0 < n,
        less.le(more),
    ensures
        differences_grow::<Fixed>(),
        threshold_place(n, more) <= threshold_place(n, less),
{
    let zero = Fixed::of_int(0);
    let one = Fixed::of_int(1);
    let a = one.sub(clamped(more, zero, one)).raw as int;
    let b = one.sub(clamped(less, zero, one)).raw as int;
    let m = Fixed::of_int(n - 1).raw as int;
    assert(0 <= a <= b);
    assert(m >= 0);
    assert((m * a) / 65536 <= (m * b) / 65536) by (nonlinear_arith)
        requires
            0 <= a <= b,
            m >= 0,
    ;
}

/// With fixed-point numbers asking for more continent never removes any,
/// whatever the samples.
pub proof fn fixed_more_continent_removes_none(
    samples: Seq<Fixed>,
    less: Fixed,
    more: Fixed,
    noise: Fixed,
)
    requires
        samples.len() > 0,
        less.le(more),
    ensures
        crust_of(samples, more).threshold.le(crust_of(samples, less).threshold),
        crust_of(samples, less).makes_land(noise) ==> crust_of(samples, more).makes_land(noise),
{
    fixed_numbers_are_ordered();
    fixed_thresholds_fall(samples.len() as int, less, more);
    more_continent_removes_none(samples, less, more, noise);
}

/// No plate gets past a wall, wherever it is heading and whatever its numbers:
/// all that it takes is that the walls are in order.
pub proof fn plates_do_not_cross_the_walls<S: Scalar>(w: int, h: int, plate: Plate<S>, dt: S)
    requires
        ({
            let north = S::of_int(0);
            let south = S::of_int(h).sub(S::of_int(1));
            !north.lt(north) && !south.lt(south) && !south.lt(north)
        }),
    ensures
        ({
            let y = moved(w, h, plate, dt).position.y;
            !y.lt(S::of_int(0)) && !S::of_int(h).sub(S::of_int(1)).lt(y)
        }),
{
}

/// Plates keep their number and their crust, and stay between the walls,
/// wherever they are heading.
pub proof fn plates_stay_in_the_world<S: Scalar>(w: int, h: int, plate: Plate<S>, dt: S)
    requires
        linearly_ordered::<S>(),
        S::of_int(0).le(S::of_int(h).sub(S::of_int(1))),
        ({
            let y = moved(w, h, plate, dt).position.y;
            y.le(y)
        }),
        S::of_int(0).le(S::of_int(0)),
        ({
            let south = S::of_int(h).sub(S::of_int(1));
            south.le(south)
        }),
    ensures
        moved(w, h, plate, dt).id == plate.id,
        moved(w, h, plate, dt).crust_type == plate.crust_type,
        S::of_int(0).le(moved(w, h, plate, dt).position.y),
        moved(w, h, plate, dt).position.y.le(S::of_int(h).sub(S::of_int(1))),
{
}

/// The roomiest candidate is one of them, where any of them has room at all.
proof fn lemma_best_is_a_candidate<S: Scalar>(
    w: int,
    positions: Seq<Vec2<S>>,
    candidates: Seq<Vec2<S>>,
    from: int,
    k: nat,
)
    requires
        k > 0,
        positions.len() == 0 || S::of_int(-1).lt(
            clearance(w, candidates[from], positions, positions.len()),
        ),
    ensures
        exists|j: int|
            from <= j < from + k && #[trigger] candidates[j] == best_candidate(
                w,
                positions,
                candidates,
                from,
                k,
            ).1,
    decreases k,
{
    if k > 1 {
        lemma_best_is_a_candidate(w, positions, candidates, from, (k - 1) as nat);
        let before = best_candidate(w, positions, candidates, from, (k - 1) as nat).1;
        let j = choose|j: int| from <= j < from + (k - 1) && #[trigger] candidates[j] == before;
        assert(candidates[j] == before);
    } else {
        assert(best_candidate(w, positions, candidates, from, 0).0 == S::of_int(-1));
    }
    assert(candidates[from + k - 1] == candidates[from + (k - 1)]);
}

proof fn lemma_room_is_not_negative(
    w: int,
    c: Vec2<Fixed>,
    positions: Seq<Vec2<Fixed>>,
    k: nat,
)
    ensures
        clearance(w, c, positions, k).raw >= 0,
    decreases k,
{
    if k > 0 {
        lemma_room_is_not_negative(w, c, positions, (k - 1) as nat);
        let p = positions[k - 1];
        let d = delta_between(w, c.x, c.y, p.x, p.y);
        assert(d.x.raw * d.x.raw >= 0 && d.y.raw * d.y.raw >= 0) by (nonlinear_arith);
        assert(d.x.mul(d.x).raw >= 0 && d.y.mul(d.y).raw >= 0);
    }
}

proof fn lemma_sites_are_kept<S: Scalar>(
    w: int,
    candidates: Seq<Vec2<S>>,
    per: int,
    k: nat,
    i: int,
)
    requires
        0 <= i < k,
    ensures
        placed(w, candidates, per, k).len() == k,
        placed(w, candidates, per, (i + 1) as nat).len() == i + 1,
        placed(w, candidates, per, k)[i] == placed(w, candidates, per, (i + 1) as nat)[i],
    decreases k,
{
    assert(placed(w, candidates, per, 0).len() == 0);
    if i < k - 1 {
        lemma_sites_are_kept(w, candidates, per, (k - 1) as nat, i);
    } else if k > 1 {
        lemma_sites_are_kept(w, candidates, per, (k - 1) as nat, k - 2);
    }
}

/// The first candidate of site `i` has room: it is the first site, or its
/// clearance is a number above -1, as squared distances are.
pub open spec fn has_room<S: Scalar>(
    w: int,
    candidates: Seq<Vec2<S>>,
    per: int,
    i: int,
) -> bool {
    i == 0 || S::of_int(-1).lt(
        clearance(w, candidates[i * per], placed(w, candidates, per, i as nat), i as nat),
    )
}

/// Every site is one of the points that were drawn for it.
pub proof fn sites_are_among_their_candidates<S: Scalar>(
    w: int,
    candidates: Seq<Vec2<S>>,
    per: int,
    k: nat,
    i: int,
)
    requires
        0 <= i < k,
        per > 0,
        has_room(w, candidates, per, i),
    ensures
        exists|j: int|
            i * per <= j < i * per + per && #[trigger] candidates[j] == placed(
                w,
                candidates,
                per,
                k,
            )[i],
{
    lemma_sites_are_kept(w, candidates, per, k, i);
    let before = placed(w, candidates, per, i as nat);
    if i > 0 {
        lemma_sites_are_kept(w, candidates, per, i as nat, i - 1);
    }
    assert(before.len() == i);
    lemma_best_is_a_candidate(w, before, candidates, i * per, per as nat);
}

/// With fixed-point numbers every candidate has room.
pub proof fn fixed_candidates_have_room(
    w: int,
    candidates: Seq<Vec2<Fixed>>,
    per: int,
    i: int,
)
    requires
        0 <= i,
    ensures
        has_room(w, candidates, per, i),
{
    let before = placed(w, candidates, per, i as nat);
    lemma_room_is_not_negative(w, candidates[i * per], before, i as nat);
}

/// Plates land inside the world: made on sites that were placed from candidates
/// inside it, they lie inside it.
pub proof fn plates_land_inside_the_world<S: Scalar>(
    w: int,
    h: int,
    candidates: Seq<Vec2<S>>,
    per: int,
    k: nat,
    i: int,
    angle: S,
    speed: S,
    noise: S,
    crust: CrustField<S>,
)
    requires
        0 <= i < k,
        per > 0,
        has_room(w, candidates, per, i),
        forall|j: int| 0 <= j < k * per ==> in_world(w, h, #[trigger] candidates[j]),
    ensures
        in_world(
            w,
            h,
            plate_on(i, placed(w, candidates, per, k)[i], angle, speed, noise, crust).position,
        ),
{
    sites_are_among_their_candidates(w, candidates, per, k, i);
    let site = placed(w, candidates, per, k)[i];
    let j = choose|j: int| i * per <= j < i * per + per && #[trigger] candidates[j] == site;
    assert(0 <= i * per && i * per + per <= k * per) by (nonlinear_arith)
        requires
            0 <= i < k,
            per > 0,
    ;
    assert(in_world(w, h, candidates[j]));
}

/// Plate velocities are constant, apart from wall reflection.
pub proof fn velocities_only_bounce<S: Scalar>(w: int, h: int, plate: Plate<S>, dt: S)
    ensures
        moved(w, h, plate, dt).velocity.x == plate.velocity.x,
        moved(w, h, plate, dt).velocity.y == plate.velocity.y || moved(
            w,
            h,
            plate,
            dt,
        ).velocity.y == plate.velocity.y.neg(),
        ({
            let y = plate.position.y.add(plate.velocity.y.mul(dt));
            let inside = !y.lt(S::of_int(0)) && !S::of_int(h).sub(S::of_int(1)).lt(y);
            inside ==> moved(w, h, plate, dt).velocity == plate.velocity
        }),
{
}

/// A bounce is the mirror image in the wall: a plate that would walk off turns
/// back, and lands as far inside as it would have landed outside, wherever that
/// is inside; any other plate goes where it is heading.
pub proof fn bounces_are_mirror_images<S: Scalar>(w: int, h: int, plate: Plate<S>, dt: S)
    ensures
        ({
            let zero = S::of_int(0);
            let south = S::of_int(h).sub(S::of_int(1));
            let t = plate.position.y.add(plate.velocity.y.mul(dt));
            let mirror = S::of_int(2).mul(south).sub(t);
            let next = moved(w, h, plate, dt);
            let inside = |y: S| !y.lt(zero) && !south.lt(y);
            &&& inside(t) ==> next.position.y == t && next.velocity.y == plate.velocity.y
            &&& !inside(t) ==> next.velocity.y == plate.velocity.y.neg()
            &&& t.lt(zero) && inside(t.neg()) ==> next.position.y == t.neg()
            &&& !t.lt(zero) && south.lt(t) && inside(mirror) ==> next.position.y == mirror
        }),
{
}

/// Remainders lie between zero and the divisor.
pub open spec fn remainders_fit<S: Scalar>(w: int) -> bool {
    forall|a: S|
        S::of_int(0).le(#[trigger] a.rem(S::of_int(w))) && a.rem(S::of_int(w)).le(S::of_int(w))
}

/// Plates stay within the width of the world.
pub proof fn plates_stay_within_the_width<S: Scalar>(w: int, h: int, plate: Plate<S>, dt: S)
    requires
        remainders_fit::<S>(w),
    ensures
        S::of_int(0).le(moved(w, h, plate, dt).position.x),
        moved(w, h, plate, dt).position.x.le(S::of_int(w)),
{
}

/// With fixed-point numbers a plate inside the world that moves by less than
/// the height of the world stays inside, and a bounce is exact.
pub proof fn fixed_plates_bounce(w: int, h: int, plate: Plate<Fixed>, dt: Fixed)
    requires
        0 < w <= 0x7FFF_FFFF_FFFF,
        0 < h <= 0x1FFF_FFFF_FFFF,
        in_world(w, h, plate.position),
        Fixed::of_int(1).sub(Fixed::of_int(h)).le(plate.velocity.y.mul(dt)),
        plate.velocity.y.mul(dt).le(Fixed::of_int(h).sub(Fixed::of_int(1))),
    ensures
        remainders_fit::<Fixed>(w),
        in_world(w, h, moved(w, h, plate, dt).position),
        ({
            let south = Fixed::of_int(h).sub(Fixed::of_int(1));
            let t = plate.position.y.raw + plate.velocity.y.mul(dt).raw;
            let next = moved(w, h, plate, dt);
            &&& next.id == plate.id && next.crust_type == plate.crust_type
            &&& next.velocity.x == plate.velocity.x
            &&& next.velocity.y == if t < 0 || t > south.raw {
                plate.velocity.y.neg()
            } else {
                plate.velocity.y
            }
            &&& next.position.y.raw == if t < 0 {
                -t
            } else if t > south.raw {
                2 * south.raw - t
            } else {
                t
            }
        }),
{
    let m = Fixed::of_int(w);
    assert forall|a: Fixed| Fixed::of_int(0).le(#[trigger] a.rem(m)) && a.rem(m).lt(m) by {
        let x = a.raw as int % m.raw as int;
        assert(0 <= x < m.raw) by (nonlinear_arith)
            requires
                m.raw > 0,
                x == a.raw as int % m.raw as int,
        ;
    }
    let south = Fixed::of_int(h).sub(Fixed::of_int(1));
    assert(south.raw == (h - 1) * 65536);
    assert(Fixed::of_int(2).mul(south).raw == 2 * south.raw) by {
        assert((131072 * south.raw) / 65536 == 2 * south.raw);
    }
}

/// The more candidates a site is picked from, the more room it has: no
/// candidate has more room than the one that was picked.
pub proof fn best_candidate_has_the_most_room<S: Scalar>(
    w: int,
    positions: Seq<Vec2<S>>,
    candidates: Seq<Vec2<S>>,
    from: int,
    k: nat,
    j: int,
)
    requires
        linearly_ordered::<S>(),
        positions.len() > 0,
        0 <= j < k,
        S::of_int(-1).le(S::of_int(-1)),
        forall|i: int|
            0 <= i < k ==> ({
                let d = #[trigger] clearance(w, candidates[from + i], positions, positions.len());
                d.le(d)
            }),
    ensures
        ({
            let (room, best) = best_candidate(w, positions, candidates, from, k);
            &&& room.le(room)
            &&& clearance(w, candidates[from + j], positions, positions.len()).le(room)
            &&& room == S::of_int(-1) || room == clearance(w, best, positions, positions.len())
        }),
    decreases k,
{
    let d = clearance(w, candidates[from + k - 1], positions, positions.len());
    assert(d == clearance(w, candidates[from + (k - 1)], positions, positions.len()));
    assert(d.le(d));
    if k > 1 {
        let other = if j < k - 1 {
            j
        } else {
            k - 2
        };
        best_candidate_has_the_most_room(w, positions, candidates, from, (k - 1) as nat, other);
    }
    let (room0, best0) = best_candidate(w, positions, candidates, from, (k - 1) as nat);
    assert(d.le(room0) <==> !room0.lt(d));
}

} // verus!
