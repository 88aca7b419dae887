//! What holds of volcanism as a whole: the terrain it leaves does not depend on
//! the order in which the boundaries of a world are visited.

use crate::boundary::Boundary;
use crate::fixed::Fixed;
use crate::noise::{fixed_fractions_are_proper, hash_fraction, hash_is_a_share};
use crate::plate::Plate;
use crate::scalar::Scalar;
use crate::tectonics::{
    cone_row, cone_rows, erupted_before, eruption_of, fixed_signs_multiply, with_cone,
    TectonicParams,
};
use crate::world::cell_index;
use vstd::prelude::*;

verus! {

/// What a cone adds at an offset from its axis.
pub open spec fn cone_step<S: Scalar>(dx: int, dy: int, radius: S, height: S) -> S {
    let t = S::of_int(1).sub(S::of_int(dx * dx + dy * dy).sqrt().div(radius));
    height.mul(t).mul(t)
}

/// What one row of a cone adds to cell `c` in its first `k` columns, one after
/// the other.
pub open spec fn row_steps<S: Scalar>(
    w: int,
    x0: int,
    y: int,
    dy: int,
    r: int,
    radius: S,
    height: S,
    k: nat,
    c: int,
) -> Seq<S>
    decreases k,
{
    if k == 0 {
        Seq::empty()
    } else {
        let before = row_steps(w, x0, y, dy, r, radius, height, (k - 1) as nat, c);
        let dx = k - 1 - r;
        if cell_index(w, (x0 + dx) % w, y) == c && !radius.lt(
            S::of_int(dx * dx + dy * dy).sqrt(),
        ) {
            before.push(cone_step(dx, dy, radius, height))
        } else {
            before
        }
    }
}

/// What a cone adds to cell `c` in its first `k` rows, one after the other.
pub open spec fn cone_steps<S: Scalar>(
    w: int,
    h: int,
    x0: int,
    y0: int,
    r: int,
    radius: S,
    height: S,
    k: nat,
    c: int,
) -> Seq<S>
    decreases k,
{
    if k == 0 {
        Seq::empty()
    } else {
        let before = cone_steps(w, h, x0, y0, r, radius, height, (k - 1) as nat, c);
        let dy = k - 1 - r;
        if 0 <= y0 + dy < h {
            before + row_steps(w, x0, y0 + dy, dy, r, radius, height, (2 * r + 1) as nat, c)
        } else {
            before
        }
    }
}

/// A value with several others added to it, one after the other.
pub open spec fn lifted_by<S: Scalar>(x: S, steps: Seq<S>) -> S
    decreases steps.len(),
{
    if steps.len() == 0 {
        x
    } else {
        lifted_by(x, steps.drop_last()).add(steps.last())
    }
}

proof fn lemma_lifted_in_turn<S: Scalar>(x: S, a: Seq<S>, b: Seq<S>)
    ensures
        lifted_by(x, a + b) == lifted_by(lifted_by(x, a), b),
    decreases b.len(),
{
    if b.len() == 0 {
        assert(a + b =~= a);
    } else {
        lemma_lifted_in_turn(x, a, b.drop_last());
        assert((a + b).drop_last() =~= a + b.drop_last());
    }
}

proof fn lemma_row_lifts<S: Scalar>(
    w: int,
    elevation: Seq<S>,
    x0: int,
    y: int,
    dy: int,
    r: int,
    radius: S,
    height: S,
    k: nat,
    c: int,
)
    requires
        0 < w,
        0 <= y,
        0 <= c < elevation.len(),
        (y + 1) * w <= elevation.len(),
    ensures
        cone_row(w, elevation, x0, y, dy, r, radius, height, k).len() == elevation.len(),
        cone_row(w, elevation, x0, y, dy, r, radius, height, k)[c] == lifted_by(
            elevation[c],
            row_steps(w, x0, y, dy, r, radius, height, k, c),
        ),
    decreases k,
{
    if k > 0 {
        lemma_row_lifts(w, elevation, x0, y, dy, r, radius, height, (k - 1) as nat, c);
        let before = row_steps(w, x0, y, dy, r, radius, height, (k - 1) as nat, c);
        let now = row_steps(w, x0, y, dy, r, radius, height, k, c);
        let dx = k - 1 - r;
        let d = cell_index(w, (x0 + dx) % w, y);
        assert(0 <= d < elevation.len()) by (nonlinear_arith)
            requires
                d == y * w + (x0 + dx) % w,
                0 <= y,
                0 < w,
                (y + 1) * w <= elevation.len(),
        ;
        if now.len() > before.len() {
            assert(now.drop_last() =~= before);
        }
    }
}

proof fn lemma_cone_lifts<S: Scalar>(
    w: int,
    h: int,
    elevation: Seq<S>,
    x0: int,
    y0: int,
    r: int,
    radius: S,
    height: S,
    k: nat,
    c: int,
)
    requires
        0 < w,
        0 <= r,
        elevation.len() == w * h,
        0 <= c < w * h,
    ensures
        cone_rows(w, h, elevation, x0, y0, r, radius, height, k).len() == elevation.len(),
        cone_rows(w, h, elevation, x0, y0, r, radius, height, k)[c] == lifted_by(
            elevation[c],
            cone_steps(w, h, x0, y0, r, radius, height, k, c),
        ),
    decreases k,
{
    if k > 0 {
        lemma_cone_lifts(w, h, elevation, x0, y0, r, radius, height, (k - 1) as nat, c);
        let before = cone_rows(w, h, elevation, x0, y0, r, radius, height, (k - 1) as nat);
        let dy = k - 1 - r;
        let y = y0 + dy;
        if 0 <= y < h {
            assert((y + 1) * w <= w * h) by (nonlinear_arith)
                requires
                    0 <= y < h,
                    0 < w,
            ;
            let n = (2 * r + 1) as nat;
            lemma_row_lifts(w, before, x0, y, dy, r, radius, height, n, c);
            lemma_lifted_in_turn(
                elevation[c],
                cone_steps(w, h, x0, y0, r, radius, height, (k - 1) as nat, c),
                row_steps(w, x0, y, dy, r, radius, height, n, c),
            );
        }
    }
}

/// Uplifts come to the same in either order.
pub open spec fn uplifts_commute<S: Scalar>() -> bool {
    forall|a: S, b: S, c: S|
        S::of_int(0).le(b) && S::of_int(0).le(c) ==> #[trigger] a.add(b).add(c) == a.add(c).add(b)
}

spec fn all_rise<S: Scalar>(steps: Seq<S>) -> bool {
    forall|i: int| 0 <= i < steps.len() ==> S::of_int(0).le(#[trigger] steps[i])
}

proof fn lemma_step_passes<S: Scalar>(x: S, steps: Seq<S>, b: S)
    requires
        uplifts_commute::<S>(),
        all_rise(steps),
        S::of_int(0).le(b),
    ensures
        lifted_by(x.add(b), steps) == lifted_by(x, steps).add(b),
    decreases steps.len(),
{
    if steps.len() > 0 {
        let rest = steps.drop_last();
        assert(all_rise(rest)) by {
            assert forall|i: int| 0 <= i < rest.len() implies S::of_int(0).le(
                #[trigger] rest[i],
            ) by {
                assert(rest[i] == steps[i]);
            }
        }
        lemma_step_passes(x, rest, b);
        let v = lifted_by(x, rest);
        assert(S::of_int(0).le(steps[steps.len() - 1]));
        assert(v.add(b).add(steps.last()) == v.add(steps.last()).add(b));
    }
}

proof fn lemma_steps_swap<S: Scalar>(x: S, a: Seq<S>, b: Seq<S>)
    requires
        uplifts_commute::<S>(),
        all_rise(a),
        all_rise(b),
    ensures
        lifted_by(lifted_by(x, a), b) == lifted_by(lifted_by(x, b), a),
    decreases a.len(),
{
    if a.len() > 0 {
        let rest = a.drop_last();
        assert(all_rise(rest)) by {
            assert forall|i: int| 0 <= i < rest.len() implies S::of_int(0).le(
                #[trigger] rest[i],
            ) by {
                assert(rest[i] == a[i]);
            }
        }
        assert(S::of_int(0).le(a[a.len() - 1]));
        lemma_steps_swap(x, rest, b);
        lemma_step_passes(lifted_by(x, rest), b, a.last());
    }
}

/// Wherever a cone adds something, the ground rises.
pub open spec fn cone_rises<S: Scalar>(radius: S, height: S) -> bool {
    forall|dx: int, dy: int| S::of_int(0).le(#[trigger] cone_step(dx, dy, radius, height))
}

proof fn lemma_row_rises<S: Scalar>(
    w: int,
    x0: int,
    y: int,
    dy: int,
    r: int,
    radius: S,
    height: S,
    k: nat,
    c: int,
)
    requires
        cone_rises(radius, height),
    ensures
        all_rise(row_steps(w, x0, y, dy, r, radius, height, k, c)),
    decreases k,
{
    if k > 0 {
        lemma_row_rises(w, x0, y, dy, r, radius, height, (k - 1) as nat, c);
        assert(S::of_int(0).le(cone_step(k - 1 - r, dy, radius, height)));
    }
}

proof fn lemma_cone_steps_rise<S: Scalar>(
    w: int,
    h: int,
    x0: int,
    y0: int,
    r: int,
    radius: S,
    height: S,
    k: nat,
    c: int,
)
    requires
        cone_rises(radius, height),
    ensures
        all_rise(cone_steps(w, h, x0, y0, r, radius, height, k, c)),
    decreases k,
{
    if k > 0 {
        lemma_cone_steps_rise(w, h, x0, y0, r, radius, height, (k - 1) as nat, c);
        let dy = k - 1 - r;
        lemma_row_rises(w, x0, y0 + dy, dy, r, radius, height, (2 * r + 1) as nat, c);
    }
}

/// What a volcano adds to cell `c`, one after the other.
pub open spec fn volcano_steps<S: Scalar>(
    w: int,
    h: int,
    x: S,
    y: S,
    radius: S,
    height: S,
    c: int,
) -> Seq<S> {
    let r = radius.ceil() as int;
    if r < 0 {
        Seq::empty()
    } else {
        cone_steps(
            w,
            h,
            x.round() as int,
            y.round() as int,
            r,
            radius,
            height,
            (2 * r + 1) as nat,
            c,
        )
    }
}

proof fn lemma_volcano_lifts<S: Scalar>(
    w: int,
    h: int,
    elevation: Seq<S>,
    x: S,
    y: S,
    radius: S,
    height: S,
)
    requires
        0 < w,
        0 <= h,
        elevation.len() == w * h,
    ensures
        with_cone(w, h, elevation, x, y, radius, height).len() == elevation.len(),
        forall|c: int|
            #![trigger volcano_steps(w, h, x, y, radius, height, c)]
            0 <= c < w * h ==> with_cone(w, h, elevation, x, y, radius, height)[c] == lifted_by(
                elevation[c],
                volcano_steps(w, h, x, y, radius, height, c),
            ),
{
    let r = radius.ceil() as int;
    let n = (2 * r + 1) as nat;
    let x0 = x.round() as int;
    let y0 = y.round() as int;
    assert forall|c: int|
        #![trigger volcano_steps(w, h, x, y, radius, height, c)]
        0 <= c < w * h implies with_cone(w, h, elevation, x, y, radius, height)[c] == lifted_by(
        elevation[c],
        volcano_steps(w, h, x, y, radius, height, c),
    ) by {
        if r >= 0 {
            lemma_cone_lifts(w, h, elevation, x0, y0, r, radius, height, n, c);
        }
    }
    if r >= 0 {
        if w * h > 0 {
            lemma_cone_lifts(w, h, elevation, x0, y0, r, radius, height, n, 0);
        } else {
            lemma_cone_on_nothing(w, h, elevation, x0, y0, r, radius, height, n);
        }
    }
}

/// A world without rows has no room for a cone.
proof fn lemma_cone_on_nothing<S: Scalar>(
    w: int,
    h: int,
    elevation: Seq<S>,
    x0: int,
    y0: int,
    r: int,
    radius: S,
    height: S,
    k: nat,
)
    requires
        0 < w,
        0 <= h,
        w * h <= 0,
    ensures
        cone_rows(w, h, elevation, x0, y0, r, radius, height, k) == elevation,
    decreases k,
{
    assert(h == 0) by (nonlinear_arith)
        requires
            0 < w,
            0 <= h,
            w * h <= 0,
    ;
    if k > 0 {
        lemma_cone_on_nothing(w, h, elevation, x0, y0, r, radius, height, (k - 1) as nat);
    }
}

/// One step of a run: what the eruptions of that step go by.
pub struct Unrest<S> {
    pub params: TectonicParams<S>,
    pub seed: u64,
    pub plates: Seq<Plate<S>>,
    pub plate_age: Seq<S>,
    pub step: i64,
    pub dt: S,
}

impl<S: Scalar> Unrest<S> {
    /// Where boundary `b` erupts and how high, if it does.
    pub open spec fn eruption(self, w: int, b: Boundary<S>) -> Option<(S, S, S)> {
        eruption_of(
            self.params,
            self.seed,
            w,
            b,
            self.plates,
            self.plate_age,
            self.step,
            self.dt,
        )
    }

    /// The terrain after all boundaries have had their chance.
    pub open spec fn terrain(
        self,
        w: int,
        h: int,
        elevation: Seq<S>,
        boundaries: Seq<Boundary<S>>,
    ) -> Seq<S> {
        erupted_before(
            self.params,
            self.seed,
            w,
            h,
            elevation,
            boundaries,
            self.plates,
            self.plate_age,
            self.step,
            self.dt,
            boundaries.len(),
        ).0
    }

    /// The terrain after one boundary has had its chance.
    spec fn shaken(self, w: int, h: int, elevation: Seq<S>, b: Boundary<S>) -> Seq<S> {
        match self.eruption(w, b) {
            Some((x, y, height)) => with_cone(
                w,
                h,
                elevation,
                x,
                y,
                self.params.volcano_radius,
                height,
            ),
            None => elevation,
        }
    }

    /// What boundary `b` adds to cell `c`, one after the other.
    pub open spec fn steps_at(self, w: int, h: int, b: Boundary<S>, c: int) -> Seq<S> {
        match self.eruption(w, b) {
            Some((x, y, height)) => volcano_steps(
                w,
                h,
                x,
                y,
                self.params.volcano_radius,
                height,
                c,
            ),
            None => Seq::empty(),
        }
    }

    /// Two boundaries come to the same in either order on cell `c`.
    pub open spec fn commute_at(
        self,
        w: int,
        h: int,
        a: Boundary<S>,
        b: Boundary<S>,
        c: int,
    ) -> bool {
        let first = self.steps_at(w, h, a, c);
        let second = self.steps_at(w, h, b, c);
        forall|x: S|
            #![trigger lifted_by(lifted_by(x, first), second)]
            lifted_by(lifted_by(x, first), second) == lifted_by(lifted_by(x, second), first)
    }

    /// No cell is on the cones of two different boundaries.
    pub open spec fn cones_lie_apart(
        self,
        w: int,
        h: int,
        boundaries: Seq<Boundary<S>>,
    ) -> bool {
        forall|a: Boundary<S>, b: Boundary<S>, c: int|
            #![trigger self.steps_at(w, h, a, c), self.steps_at(w, h, b, c)]
            boundaries.contains(a) && boundaries.contains(b) && a != b && 0 <= c < w * h
                ==> self.steps_at(w, h, a, c).len() == 0 || self.steps_at(w, h, b, c).len() == 0
    }
}

/// The same, for worlds of the right size and listed boundaries; anything else
/// is left alone.
spec fn shaking<S: Scalar>(
    u: Unrest<S>,
    w: int,
    h: int,
    listed: Seq<Boundary<S>>,
) -> spec_fn(Seq<S>, Boundary<S>) -> Seq<S> {
    |e: Seq<S>, b: Boundary<S>|
        if e.len() == w * h && listed.contains(b) {
            u.shaken(w, h, e, b)
        } else {
            e
        }
}

proof fn lemma_shaken<S: Scalar>(u: Unrest<S>, w: int, h: int, e: Seq<S>, b: Boundary<S>)
    requires
        0 < w,
        0 <= h,
        e.len() == w * h,
    ensures
        u.shaken(w, h, e, b).len() == w * h,
        forall|c: int|
            #![trigger u.steps_at(w, h, b, c)]
            0 <= c < w * h ==> u.shaken(w, h, e, b)[c] == lifted_by(
                e[c],
                u.steps_at(w, h, b, c),
            ),
{
    if let Some((x, y, height)) = u.eruption(w, b) {
        let radius = u.params.volcano_radius;
        lemma_volcano_lifts(w, h, e, x, y, radius, height);
        assert forall|c: int|
            #![trigger u.steps_at(w, h, b, c)]
            0 <= c < w * h implies u.shaken(w, h, e, b)[c] == lifted_by(
            e[c],
            u.steps_at(w, h, b, c),
        ) by {
            assert(u.steps_at(w, h, b, c) == volcano_steps(w, h, x, y, radius, height, c));
        }
    }
}

proof fn lemma_shaking_commutes<S: Scalar>(
    u: Unrest<S>,
    w: int,
    h: int,
    listed: Seq<Boundary<S>>,
    a: Boundary<S>,
    b: Boundary<S>,
    e: Seq<S>,
)
    requires
        0 < w,
        0 <= h,
        listed.contains(a) && listed.contains(b) ==> forall|c: int|
            0 <= c < w * h ==> #[trigger] u.commute_at(w, h, a, b, c),
    ensures
        ({
            let f = shaking(u, w, h, listed);
            f(f(e, a), b) == f(f(e, b), a)
        }),
{
    let f = shaking(u, w, h, listed);
    if e.len() == w * h {
        lemma_shaken(u, w, h, e, a);
        lemma_shaken(u, w, h, e, b);
        if listed.contains(a) && listed.contains(b) {
            let ea = u.shaken(w, h, e, a);
            let eb = u.shaken(w, h, e, b);
            lemma_shaken(u, w, h, ea, b);
            lemma_shaken(u, w, h, eb, a);
            let one = f(f(e, a), b);
            let two = f(f(e, b), a);
            assert forall|c: int| 0 <= c < w * h implies one[c] == two[c] by {
                let first = u.steps_at(w, h, a, c);
                let second = u.steps_at(w, h, b, c);
                assert(u.commute_at(w, h, a, b, c));
                assert(lifted_by(lifted_by(e[c], first), second) == lifted_by(
                    lifted_by(e[c], second),
                    first,
                ));
            }
            assert(one =~= two);
        }
    }
}

proof fn lemma_shaking_folds<S: Scalar>(
    u: Unrest<S>,
    w: int,
    h: int,
    elevation: Seq<S>,
    boundaries: Seq<Boundary<S>>,
    listed: Seq<Boundary<S>>,
    k: nat,
)
    requires
        0 < w,
        0 <= h,
        elevation.len() == w * h,
        k <= boundaries.len(),
        forall|i: int| 0 <= i < boundaries.len() ==> listed.contains(#[trigger] boundaries[i]),
    ensures
        ({
            let e = erupted_before(
                u.params,
                u.seed,
                w,
                h,
                elevation,
                boundaries,
                u.plates,
                u.plate_age,
                u.step,
                u.dt,
                k,
            ).0;
            &&& e.len() == w * h
            &&& e == boundaries.take(k as int).fold_left(elevation, shaking(u, w, h, listed))
        }),
    decreases k,
{
    let f = shaking(u, w, h, listed);
    if k > 0 {
        lemma_shaking_folds(u, w, h, elevation, boundaries, listed, (k - 1) as nat);
        let b = boundaries[k - 1];
        let now = boundaries.take(k as int);
        assert(now.drop_last() =~= boundaries.take(k - 1));
        assert(now.last() == b);
        let before = now.drop_last().fold_left(elevation, f);
        assert(now.fold_left(elevation, f) == f(before, b));
        assert(listed.contains(b));
        lemma_shaken(u, w, h, before, b);
    }
}

/// Volcanism leaves the same terrain in whichever order boundaries happen to be
/// visited, wherever two boundaries that reach the same cell come to the same
/// on it in either order.
pub proof fn volcanic_terrain_does_not_depend_on_the_order<S: Scalar>(
    u: Unrest<S>,
    w: int,
    h: int,
    elevation: Seq<S>,
    boundaries: Seq<Boundary<S>>,
    reordered: Seq<Boundary<S>>,
)
    requires
        0 < w,
        0 <= h,
        elevation.len() == w * h,
        boundaries.to_multiset() == reordered.to_multiset(),
        forall|a: Boundary<S>, b: Boundary<S>, c: int|
            boundaries.contains(a) && boundaries.contains(b) && a != b && 0 <= c < w * h
                ==> #[trigger] u.commute_at(w, h, a, b, c),
    ensures
        u.terrain(w, h, elevation, boundaries) == u.terrain(w, h, elevation, reordered),
{
    let n = boundaries.len();
    let m = reordered.len();
    boundaries.to_multiset_ensures();
    reordered.to_multiset_ensures();
    assert forall|i: int| 0 <= i < n implies boundaries.contains(#[trigger] boundaries[i]) by {}
    assert forall|i: int| 0 <= i < m implies boundaries.contains(#[trigger] reordered[i]) by {
        assert(reordered.contains(reordered[i]));
        assert(boundaries.to_multiset().count(reordered[i]) > 0);
    }
    lemma_shaking_folds(u, w, h, elevation, boundaries, boundaries, n);
    lemma_shaking_folds(u, w, h, elevation, reordered, boundaries, m);
    assert(boundaries.take(n as int) =~= boundaries);
    assert(reordered.take(m as int) =~= reordered);
    let f = shaking(u, w, h, boundaries);
    assert(vstd::seq_lib::commutative_foldl(f)) by {
        assert forall|a: Boundary<S>, b: Boundary<S>, e: Seq<S>| #[trigger] f(f(e, a), b) == f(
            f(e, b),
            a,
        ) by {
            if a != b {
                lemma_shaking_commutes(u, w, h, boundaries, a, b, e);
            }
        }
    }
    vstd::seq_lib::lemma_fold_left_permutation(boundaries, reordered, f, elevation);
}

/// Where no two cones overlap, the order does not matter to the terrain,
/// whatever the numbers are.
pub proof fn separate_volcanoes_may_erupt_in_any_order<S: Scalar>(
    u: Unrest<S>,
    w: int,
    h: int,
    elevation: Seq<S>,
    boundaries: Seq<Boundary<S>>,
    reordered: Seq<Boundary<S>>,
)
    requires
        0 < w,
        0 <= h,
        elevation.len() == w * h,
        boundaries.to_multiset() == reordered.to_multiset(),
        u.cones_lie_apart(w, h, boundaries),
    ensures
        u.terrain(w, h, elevation, boundaries) == u.terrain(w, h, elevation, reordered),
{
    assert forall|a: Boundary<S>, b: Boundary<S>, c: int|
        boundaries.contains(a) && boundaries.contains(b) && a != b && 0 <= c < w
            * h implies #[trigger] u.commute_at(w, h, a, b, c) by {
        let first = u.steps_at(w, h, a, c);
        let second = u.steps_at(w, h, b, c);
        assert(first.len() == 0 || second.len() == 0);
        assert forall|x: S| #[trigger] lifted_by(lifted_by(x, first), second) == lifted_by(
            lifted_by(x, second),
            first,
        ) by {}
    }
    volcanic_terrain_does_not_depend_on_the_order(u, w, h, elevation, boundaries, reordered);
}

/// With fixed-point numbers the order never matters to the terrain, overlapping
/// cones or not, where volcanoes have a height at all.
pub proof fn fixed_volcanoes_may_erupt_in_any_order(
    u: Unrest<Fixed>,
    w: int,
    h: int,
    elevation: Seq<Fixed>,
    boundaries: Seq<Boundary<Fixed>>,
    reordered: Seq<Boundary<Fixed>>,
)
    requires
        0 < w,
        0 <= h,
        elevation.len() == w * h,
        boundaries.to_multiset() == reordered.to_multiset(),
        Fixed::of_int(0).le(u.params.volcano_height),
    ensures
        u.terrain(w, h, elevation, boundaries) == u.terrain(w, h, elevation, reordered),
{
    assert forall|a: Boundary<Fixed>, b: Boundary<Fixed>, c: int|
        boundaries.contains(a) && boundaries.contains(b) && a != b && 0 <= c < w
            * h implies #[trigger] u.commute_at(w, h, a, b, c) by {
        let first = u.steps_at(w, h, a, c);
        let second = u.steps_at(w, h, b, c);
        lemma_fixed_steps_rise(u, w, h, a, c);
        lemma_fixed_steps_rise(u, w, h, b, c);
        assert forall|x: Fixed| #[trigger] lifted_by(lifted_by(x, first), second) == lifted_by(
            lifted_by(x, second),
            first,
        ) by {
            lemma_steps_swap(x, first, second);
        }
    }
    volcanic_terrain_does_not_depend_on_the_order(u, w, h, elevation, boundaries, reordered);
}

/// With fixed-point numbers uplifts come to the same in either order, and every
/// eruption lifts the ground where volcanoes have a height at all.
proof fn lemma_fixed_steps_rise(
    u: Unrest<Fixed>,
    w: int,
    h: int,
    b: Boundary<Fixed>,
    c: int,
)
    requires
        Fixed::of_int(0).le(u.params.volcano_height),
    ensures
        uplifts_commute::<Fixed>(),
        all_rise(u.steps_at(w, h, b, c)),
{
    let p = u.params;
    let seed = u.seed;
    let step = u.step;
    fixed_fractions_are_proper();
    fixed_signs_multiply();
    let jitter = hash_fraction::<Fixed>(seed ^ 0xA11Eu64, b.cell as i64, step ^ 0x5F);
    hash_is_a_share::<Fixed>(seed ^ 0xA11Eu64, b.cell as i64, step ^ 0x5F);
    assert(Fixed::of_int(0).le(Fixed::ratio(6, 10)) && Fixed::of_int(0).le(Fixed::ratio(8, 10)));
    let part = Fixed::ratio(8, 10).mul(jitter);
    assert(Fixed::of_int(0).le(part));
    let factor = Fixed::ratio(6, 10).add(part);
    assert(Fixed::of_int(0).le(factor));
    let height = p.volcano_height.mul(factor);
    assert(Fixed::of_int(0).le(height));
    assert forall|dx: int, dy: int| Fixed::of_int(0).le(
        #[trigger] cone_step(dx, dy, p.volcano_radius, height),
    ) by {
        let t = Fixed::of_int(1).sub(
            Fixed::of_int(dx * dx + dy * dy).sqrt().div(p.volcano_radius),
        );
        let part = height.mul(t);
        assert((t.raw >= 0 ==> (height.raw * t.raw) / 65536 >= 0) && (t.raw <= 0 ==> (height.raw
            * t.raw) / 65536 <= 0)) by (nonlinear_arith)
            requires
                height.raw >= 0,
        ;
        assert((part.raw * t.raw) / 65536 >= 0) by (nonlinear_arith)
            requires
                (part.raw >= 0 && t.raw >= 0) || (part.raw <= 0 && t.raw <= 0),
        ;
    }
    if let Some((x, y, top)) = u.eruption(w, b) {
        let r = p.volcano_radius.ceil() as int;
        if r >= 0 {
            lemma_cone_steps_rise(
                w,
                h,
                x.round() as int,
                y.round() as int,
                r,
                p.volcano_radius,
                top,
                (2 * r + 1) as nat,
                c,
            );
        }
    }
}

} // verus!
