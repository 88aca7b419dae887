//! Cylinder math helpers: plane vectors, the wrapping rule of the x axis, and
//! the ramps the geological rules are drawn with.

use crate::fixed::{fixed_numbers_are_ordered, Fixed};
use crate::scalar::{
    abs_of, clamp_to, clamped, larger, linearly_ordered, magnitude, max_of, Scalar,
};
use crate::select::{
    place_of, quantile_place, ranks_tell_apart, select_nth, sorted_at, sorted_ranks_never_fall,
    sorted_values_are_values, sorted_values_ignore_the_order,
};
use vstd::arithmetic::div_mod::{lemma_fundamental_div_mod, lemma_mod_multiples_basic};
use vstd::prelude::*;

verus! {

#[derive(Clone, Copy, Debug, PartialEq)]
pub struct Vec2<S> {
    pub x: S,
    pub y: S,
}

impl<S: Scalar> Vec2<S> {
    pub open spec fn zero() -> Self {
        Vec2 { x: S::of_int(0), y: S::of_int(0) }
    }

    pub open spec fn added(self, o: Self) -> Self {
        Vec2 { x: self.x.add(o.x), y: self.y.add(o.y) }
    }

    pub open spec fn taken(self, o: Self) -> Self {
        Vec2 { x: self.x.sub(o.x), y: self.y.sub(o.y) }
    }

    pub open spec fn scaled(self, k: S) -> Self {
        Vec2 { x: self.x.mul(k), y: self.y.mul(k) }
    }

    /// The unit vector in the direction of an angle.
    pub open spec fn facing(angle: S) -> Self {
        Vec2 { x: angle.cos(), y: angle.sin() }
    }

    pub open spec fn inner(self, o: Self) -> S {
        self.x.mul(o.x).add(self.y.mul(o.y))
    }

    pub open spec fn squared(self) -> S {
        self.inner(self)
    }

    /// Unit vector, or zero where the reciprocal of the length is no positive
    /// finite number.
    pub open spec fn unit(self) -> Self {
        let reciprocal = S::of_int(1).div(self.squared().sqrt());
        if reciprocal.finite() && S::of_int(0).lt(reciprocal) {
            self.scaled(reciprocal)
        } else {
            Self::zero()
        }
    }

    pub fn new(x: S, y: S) -> (r: Self)
        ensures
            r == (Vec2 { x, y }),
    {
        Vec2 { x, y }
    }

    pub fn origin() -> (r: Self)
        ensures
            r == Self::zero(),
    {
        Vec2 { x: S::whole(0), y: S::whole(0) }
    }

    pub fn plus(self, o: Self) -> (r: Self)
        ensures
            r == self.added(o),
    {
        Vec2 { x: self.x.plus(o.x), y: self.y.plus(o.y) }
    }

    pub fn minus(self, o: Self) -> (r: Self)
        ensures
            r == self.taken(o),
    {
        Vec2 { x: self.x.minus(o.x), y: self.y.minus(o.y) }
    }

    pub fn times(self, k: S) -> (r: Self)
        ensures
            r == self.scaled(k),
    {
        Vec2 { x: self.x.times(k), y: self.y.times(k) }
    }

    pub fn from_angle(angle: S) -> (r: Self)
        ensures
            r == Self::facing(angle),
    {
        Vec2 { x: angle.cosine(), y: angle.sine() }
    }

    pub fn dot(self, o: Self) -> (r: S)
        ensures
            r == self.inner(o),
    {
        self.x.times(o.x).plus(self.y.times(o.y))
    }

    pub fn length_squared(self) -> (r: S)
        ensures
            r == self.squared(),
    {
        self.dot(self)
    }

    pub fn length(self) -> (r: S)
        ensures
            r == self.squared().sqrt(),
    {
        self.length_squared().root()
    }
}

/// Shortest signed distance from `b` to `a` on an axis that repeats after
/// `period`.
pub open spec fn wrapped_difference<S: Scalar>(a: S, b: S, period: S) -> S {
    let d = a.sub(b).rem(period);
    if period.mul(S::ratio(1, 2)).lt(d) {
        d.sub(period)
    } else {
        d
    }
}

pub fn wrap_delta<S: Scalar>(a: S, b: S, period: S) -> (r: S)
    ensures
        r == wrapped_difference(a, b, period),
{
    let half = period.times(S::fraction(1, 2));
    let d = a.minus(b).wrapped(period);
    if half.less(d) {
        d.minus(period)
    } else {
        d
    }
}

/// Shortest vector from `(bx, by)` to `(ax, ay)` in a world `w` cells wide.
pub open spec fn delta_between<S: Scalar>(w: int, ax: S, ay: S, bx: S, by: S) -> Vec2<S> {
    Vec2 { x: wrapped_difference(ax, bx, S::of_int(w)), y: ay.sub(by) }
}

pub(crate) fn span<S: Scalar>(width: usize, ax: S, ay: S, bx: S, by: S) -> (r: Vec2<S>)
    requires
        width <= i64::MAX,
    ensures
        r == delta_between(width as int, ax, ay, bx, by),
{
    Vec2 { x: wrap_delta(ax, bx, S::whole(width as i64)), y: ay.minus(by) }
}

/// A vector turned by 90 degrees.
pub open spec fn turned<S: Scalar>(v: Vec2<S>) -> Vec2<S> {
    Vec2 { x: v.y.neg(), y: v.x }
}

/// 90 degree rotation, used for boundary tangents.
pub fn perp<S: Scalar>(v: Vec2<S>) -> (r: Vec2<S>)
    ensures
        r == turned(v),
{
    Vec2 { x: v.y.negated(), y: v.x }
}

/// Unit vector, or zero for a degenerate input.
pub fn normalize_or_zero<S: Scalar>(v: Vec2<S>) -> (r: Vec2<S>)
    ensures
        r == v.unit(),
{
    let reciprocal = S::whole(1).over(v.length());
    if reciprocal.is_finite() && S::whole(0).less(reciprocal) {
        v.times(reciprocal)
    } else {
        Vec2::origin()
    }
}

pub open spec fn blend<S: Scalar>(a: S, b: S, t: S) -> S {
    a.add(b.sub(a).mul(t))
}

pub fn lerp<S: Scalar>(a: S, b: S, t: S) -> (r: S)
    ensures
        r == blend(a, b, t),
{
    a.plus(b.minus(a).times(t))
}

pub open spec fn hermite<S: Scalar>(edge0: S, edge1: S, x: S) -> S {
    if magnitude(edge1.sub(edge0)).lt(S::ratio(1, 1_000_000_000)) {
        if x.lt(edge0) {
            S::of_int(0)
        } else {
            S::of_int(1)
        }
    } else {
        let t = clamped(x.sub(edge0).div(edge1.sub(edge0)), S::of_int(0), S::of_int(1));
        t.mul(t).mul(S::of_int(3).sub(S::of_int(2).mul(t)))
    }
}

/// Hermite ramp from 0 at `edge0` to 1 at `edge1`.
pub fn smoothstep<S: Scalar>(edge0: S, edge1: S, x: S) -> (r: S)
    ensures
        r == hermite(edge0, edge1, x),
{
    let width = edge1.minus(edge0);
    if abs_of(width).less(S::fraction(1, 1_000_000_000)) {
        if x.less(edge0) {
            S::whole(0)
        } else {
            S::whole(1)
        }
    } else {
        let t = clamp_to(x.minus(edge0).over(width), S::whole(0), S::whole(1));
        t.times(t).times(S::whole(3).minus(S::whole(2).times(t)))
    }
}

pub open spec fn bell<S: Scalar>(x: S, center: S, sigma: S) -> S {
    let t = x.sub(center).div(larger(sigma, S::ratio(1, 1_000_000)));
    S::ratio(-1, 2).mul(t).mul(t).exp()
}

/// A gaussian bump of height 1 centred on `center`.
pub fn bump<S: Scalar>(x: S, center: S, sigma: S) -> (r: S)
    ensures
        r == bell(x, center, sigma),
{
    let t = x.minus(center).over(max_of(sigma, S::fraction(1, 1_000_000)));
    S::fraction(-1, 2).times(t).times(t).exponential()
}

/// The finite ones among the first `n` values.
pub open spec fn finite_among<S: Scalar>(data: Seq<S>, n: nat) -> Seq<S>
    decreases n,
{
    if n == 0 {
        Seq::empty()
    } else {
        let before = finite_among(data, (n - 1) as nat);
        if data[n - 1].finite() {
            before.push(data[n - 1])
        } else {
            before
        }
    }
}

/// The value at quantile `q` of the finite values; zero where there are none.
pub open spec fn quantile<S: Scalar>(data: Seq<S>, q: S) -> S {
    let v = finite_among(data, data.len());
    if v.len() == 0 {
        S::of_int(0)
    } else {
        sorted_at(v, quantile_place(v.len() as int, clamped(q, S::of_int(0), S::of_int(1))))
    }
}

/// Value at a given quantile of `data`.
///
/// Used to auto-scale things to a world's own range without letting a single
/// outlier cell flatten everything else - a river threshold, a colour ramp.
/// Ignores non-finite values.
pub fn percentile<S: Scalar>(data: &Vec<S>, q: S) -> (r: S)
    requires
        data@.len() <= i64::MAX,
    ensures
        r == quantile(data@, q),
{
    let mut v: Vec<S> = Vec::with_capacity(data.len());
    let mut i: usize = 0;
    while i < data.len()
        invariant
            i <= data@.len(),
            v@ == finite_among(data@, i as nat),
            v@.len() <= i,
        decreases data@.len() - i,
    {
        if data[i].is_finite() {
            v.push(data[i]);
        }
        i += 1;
    }
    if v.len() == 0 {
        return S::whole(0);
    }
    let k: usize = place_of(v.len(), clamp_to(q, S::whole(0), S::whole(1)));
    select_nth(&v, k)
}

// --- laws ------------------------------------------------------------------
/// The short way around is at most half the period long in either direction,
/// and a whole number of periods away from the long one.
pub proof fn wrapped_difference_is_the_short_way(a: Fixed, b: Fixed, period: Fixed)
    requires
        Fixed::of_int(0).lt(period),
    ensures
        ({
            let d = wrapped_difference(a, b, period).raw as int;
            &&& -period.raw <= 2 * d <= period.raw
            &&& (a.sub(b).raw - d) % (period.raw as int) == 0
        }),
{
    let p = period.raw as int;
    let x = a.sub(b).raw as int;
    let d = x % p;
    assert(0 <= d < p) by (nonlinear_arith)
        requires
            p > 0,
            d == x % p,
    ;
    let half = period.mul(Fixed::ratio(1, 2));
    assert(half.raw == p / 2) by {
        assert((p * 32768) / 65536 == p / 2);
    }
    lemma_fundamental_div_mod(x, p);
    assert(p * (x / p) == x - d);
    lemma_mod_multiples_basic(x / p, p);
    lemma_mod_multiples_basic(x / p + 1, p);
    assert((x / p) * p == x - d) by (nonlinear_arith)
        requires
            p * (x / p) == x - d,
    ;
    assert((x / p + 1) * p == x - d + p) by (nonlinear_arith)
        requires
            p * (x / p) == x - d,
    ;
}

/// The ramp is 0 up to its first edge and 1 from its second edge on.
pub proof fn smoothstep_is_flat_outside_its_edges(edge0: Fixed, edge1: Fixed, x: Fixed)
    requires
        edge0.lt(edge1),
    ensures
        x.le(edge0) ==> hermite(edge0, edge1, x) == Fixed::of_int(0),
        edge1.le(x) ==> hermite(edge0, edge1, x) == Fixed::of_int(1),
{
    let width = edge1.sub(edge0).raw as int;
    let rise = x.sub(edge0).raw as int;
    assert(width > 0);
    let zero = Fixed::of_int(0);
    let one = Fixed::of_int(1);
    assert(zero.raw == 0 && one.raw == 65536);
    assert(Fixed::ratio(1, 1_000_000_000).raw == 0);
    assert(!magnitude(edge1.sub(edge0)).lt(Fixed::ratio(1, 1_000_000_000)));
    let t = x.sub(edge0).div(edge1.sub(edge0));
    assert(t.raw == crate::fixed::saturated((rise * 65536) / width));
    assert(zero.mul(zero).raw == 0);
    let rest = Fixed::of_int(3).sub(Fixed::of_int(2).mul(zero));
    assert(zero.mul(rest).raw == 0) by {
        assert(0 * rest.raw == 0);
    }
    assert(Fixed::of_int(2).mul(one).raw == 131072);
    assert(Fixed::of_int(3).sub(Fixed::of_int(2).mul(one)).raw == 65536);
    assert(one.mul(one).raw == 65536);
    if x.le(edge0) {
        assert((rise * 65536) / width <= 0) by (nonlinear_arith)
            requires
                rise <= 0,
                width > 0,
        ;
    }
    if edge1.le(x) {
        assert(rise >= width);
        assert((rise * 65536) / width >= 65536) by (nonlinear_arith)
            requires
                rise >= width,
                width > 0,
        ;
    }
}

/// The ramp never leaves the range from 0 to 1.
pub proof fn smoothstep_stays_between_zero_and_one(edge0: Fixed, edge1: Fixed, x: Fixed)
    ensures
        Fixed::of_int(0).le(hermite(edge0, edge1, x)),
        hermite(edge0, edge1, x).le(Fixed::of_int(1)),
{
    let t = clamped(x.sub(edge0).div(edge1.sub(edge0)), Fixed::of_int(0), Fixed::of_int(1));
    let n = 65536int;
    let a = t.raw as int;
    assert(0 <= a <= n);
    let b = (a * a) / n;
    assert(0 <= b <= n && b * n <= a * a) by (nonlinear_arith)
        requires
            0 <= a <= n,
            n == 65536,
            b == (a * a) / n,
    ;
    assert(t.mul(t).raw == b);
    assert(Fixed::of_int(2).raw == 131072 && Fixed::of_int(3).raw == 196608);
    assert(Fixed::of_int(2).mul(t).raw == 2 * a) by {
        assert((131072 * a) / 65536 == 2 * a);
    }
    let u = 3 * n - 2 * a;
    assert(Fixed::of_int(3).sub(Fixed::of_int(2).mul(t)).raw == u);
    assert(0 <= b * u <= n * n) by {
        assert(b * u >= 0) by (nonlinear_arith)
            requires
                b >= 0,
                u >= 0,
        ;
        assert((b * u) * n <= (a * a) * u) by (nonlinear_arith)
            requires
                b * n <= a * a,
                u >= 0,
        ;
        assert((a * a) * u <= (n * n) * n) by (nonlinear_arith)
            requires
                0 <= a <= n,
                u == 3 * n - 2 * a,
        {
            assert((n * n) * n - (a * a) * u == ((n - a) * (n - a)) * (n + 2 * a));
        }
        assert(b * u <= n * n) by (nonlinear_arith)
            requires
                (b * u) * n <= (n * n) * n,
                n > 0,
        ;
    }
    assert(0 <= (b * u) / n <= n) by (nonlinear_arith)
        requires
            0 <= b * u <= n * n,
            n > 0,
    ;
}

/// What rounding leaves of `t * t * (3 - 2 * t)` is short of it by less than
/// four of the smallest steps.
pub proof fn lemma_ramp_rounding(a: int, b: int, r: int)
    requires
        0 <= a <= 65536,
        b == (a * a) / 65536,
        r == (b * (196608 - 2 * a)) / 65536,
    ensures
        r * 4294967296 <= (a * a) * (196608 - 2 * a) < (r + 4) * 4294967296,
{
    let n = 65536int;
    let u = 3 * n - 2 * a;
    assert(b * n <= a * a < b * n + n) by (nonlinear_arith)
        requires
            n == 65536,
            b == (a * a) / n,
    ;
    assert(r * n <= b * u < r * n + n) by (nonlinear_arith)
        requires
            n == 65536,
            r == (b * u) / n,
    ;
    assert((b * u) * n <= (a * a) * u) by (nonlinear_arith)
        requires
            b * n <= a * a,
            u >= 0,
    ;
    assert((a * a) * u <= (b * u) * n + n * u) by (nonlinear_arith)
        requires
            a * a < b * n + n,
            u >= 0,
    ;
    assert((r * n) * n <= (b * u) * n <= (r * n + n - 1) * n) by (nonlinear_arith)
        requires
            r * n <= b * u < r * n + n,
            n == 65536,
    ;
    assert(n * u <= 3 * n * n) by (nonlinear_arith)
        requires
            u <= 3 * n,
            n == 65536,
    ;
}

/// The ramp rises, but for what rounding takes away: three of the smallest
/// steps at most.
pub proof fn smoothstep_nearly_rises(edge0: Fixed, edge1: Fixed, x: Fixed, y: Fixed)
    requires
        edge0.lt(edge1),
        x.le(y),
    ensures
        hermite(edge0, edge1, x).raw <= hermite(edge0, edge1, y).raw + 3,
{
    let width = edge1.sub(edge0);
    let wide = width.raw as int;
    assert(wide > 0);
    let zero = Fixed::of_int(0);
    let one = Fixed::of_int(1);
    let s = clamped(x.sub(edge0).div(width), zero, one);
    let t = clamped(y.sub(edge0).div(width), zero, one);
    let p = x.sub(edge0).raw as int;
    let q = y.sub(edge0).raw as int;
    assert((p * 65536) / wide <= (q * 65536) / wide) by (nonlinear_arith)
        requires
            p <= q,
            wide > 0,
    ;
    let a = s.raw as int;
    let b = t.raw as int;
    assert(0 <= a <= b <= 65536);
    lemma_ramp_value(edge0, edge1, x);
    lemma_ramp_value(edge0, edge1, y);
    let h = hermite(edge0, edge1, x).raw as int;
    let g = hermite(edge0, edge1, y).raw as int;
    lemma_ramp_rounding(a, (a * a) / 65536, h);
    lemma_ramp_rounding(b, (b * b) / 65536, g);
    assert((a * a) * (196608 - 2 * a) <= (b * b) * (196608 - 2 * b)) by (nonlinear_arith)
        requires
            0 <= a <= b <= 65536,
    {
        let d = b - a;
        assert((b * b) * (196608 - 2 * b) - (a * a) * (196608 - 2 * a) == d * (196608 * (a + b) - 2
            * (a * a + a * b + b * b)));
        assert(196608 * (a + b) >= 3 * b * (a + b));
        assert(3 * b * (a + b) == 3 * (a * b) + 3 * (b * b));
        assert(a * b >= a * a);
        assert(b * b >= a * a);
    }
    assert(h * 4294967296 < (g + 4) * 4294967296);
}

/// The value of the ramp between its edges, step by step.
proof fn lemma_ramp_value(edge0: Fixed, edge1: Fixed, x: Fixed)
    requires
        edge0.lt(edge1),
    ensures
        ({
            let t = clamped(
                x.sub(edge0).div(edge1.sub(edge0)),
                Fixed::of_int(0),
                Fixed::of_int(1),
            );
            let a = t.raw as int;
            &&& 0 <= a <= 65536
            &&& hermite(edge0, edge1, x).raw == (((a * a) / 65536) * (196608 - 2 * a)) / 65536
        }),
{
    smoothstep_stays_between_zero_and_one(edge0, edge1, x);
    assert(Fixed::ratio(1, 1_000_000_000).raw == 0);
    assert(!magnitude(edge1.sub(edge0)).lt(Fixed::ratio(1, 1_000_000_000)));
    let t = clamped(x.sub(edge0).div(edge1.sub(edge0)), Fixed::of_int(0), Fixed::of_int(1));
    let a = t.raw as int;
    let b = (a * a) / 65536;
    assert(0 <= b <= 65536) by (nonlinear_arith)
        requires
            0 <= a <= 65536,
            b == (a * a) / 65536,
    ;
    assert(t.mul(t).raw == b);
    assert(Fixed::of_int(2).raw == 131072 && Fixed::of_int(3).raw == 196608);
    assert(Fixed::of_int(2).mul(t).raw == 2 * a) by {
        assert((131072 * a) / 65536 == 2 * a);
    }
    let u = 196608 - 2 * a;
    assert(Fixed::of_int(3).sub(Fixed::of_int(2).mul(t)).raw == u);
    assert(0 <= (b * u) / 65536 <= 196608) by (nonlinear_arith)
        requires
            0 <= b <= 65536,
            0 <= u <= 196608,
    ;
}

proof fn lemma_finite_among<S: Scalar>(data: Seq<S>, n: nat)
    requires
        n <= data.len(),
    ensures
        forall|i: int|
            0 <= i < finite_among(data, n).len() ==> data.contains(
                #[trigger] finite_among(data, n)[i],
            ) && finite_among(data, n)[i].finite(),
    decreases n,
{
    if n > 0 {
        lemma_finite_among(data, (n - 1) as nat);
        let before = finite_among(data, (n - 1) as nat);
        let now = finite_among(data, n);
        assert(data.contains(data[n - 1]));
        assert forall|i: int| 0 <= i < now.len() implies data.contains(#[trigger] now[i])
            && now[i].finite() by {
            if i < before.len() {
                assert(now[i] == before[i]);
            }
        }
    }
}

/// A quantile is one of the values, and finite; the only exception is zero for
/// data without a finite value.
pub proof fn quantiles_are_values<S: Scalar>(data: Seq<S>, q: S)
    ensures
        finite_among(data, data.len()).len() == 0 ==> quantile(data, q) == S::of_int(0),
        finite_among(data, data.len()).len() > 0 ==> data.contains(quantile(data, q)) && quantile(
            data,
            q,
        ).finite(),
{
    let v = finite_among(data, data.len());
    lemma_finite_among(data, data.len());
    if v.len() > 0 {
        let k = quantile_place(v.len() as int, clamped(q, S::of_int(0), S::of_int(1)));
        sorted_values_are_values(v, k);
        let i = choose|i: int| 0 <= i < v.len() && v[i] == sorted_at(v, k);
        assert(data.contains(v[i]) && v[i].finite());
    }
}

proof fn lemma_finite_in_multiset<S: Scalar>(data: Seq<S>, n: nat)
    requires
        n <= data.len(),
    ensures
        finite_among(data, n).to_multiset() == data.take(n as int).to_multiset().filter(
            |x: S| x.finite(),
        ),
    decreases n,
{
    broadcast use vstd::multiset::group_multiset_axioms;

    let f = |x: S| x.finite();
    let now = data.take(n as int).to_multiset();
    let kept = finite_among(data, n);
    if n == 0 {
        data.take(0).to_multiset_ensures();
        kept.to_multiset_ensures();
        assert(now.filter(f) =~= kept.to_multiset()) by {
            assert forall|x: S| now.filter(f).count(x) == kept.to_multiset().count(x) by {
                assert(now.count(x) <= now.len());
                assert(kept.to_multiset().count(x) <= kept.to_multiset().len());
            }
        }
    } else {
        lemma_finite_in_multiset(data, (n - 1) as nat);
        let x = data[n - 1];
        let shorter = data.take(n - 1);
        let before = shorter.to_multiset();
        shorter.to_multiset_ensures();
        finite_among(data, (n - 1) as nat).to_multiset_ensures();
        assert(data.take(n as int) =~= shorter.push(x));
        assert(now =~= before.insert(x));
        if f(x) {
            assert(now.filter(f) =~= before.filter(f).insert(x));
        } else {
            assert(now.filter(f) =~= before.filter(f));
        }
    }
}

/// A percentile does not change when its data is put into another order, nor
/// when values that are not finite are added to it or taken away.
pub proof fn percentiles_ignore_the_order<S: Scalar>(data: Seq<S>, other: Seq<S>, q: S)
    requires
        data.to_multiset().filter(|x: S| x.finite()) == other.to_multiset().filter(
            |x: S| x.finite(),
        ),
    ensures
        quantile(data, q).rank() == quantile(other, q).rank(),
        ranks_tell_apart::<S>() ==> quantile(data, q) == quantile(other, q),
{
    lemma_finite_in_multiset(data, data.len());
    lemma_finite_in_multiset(other, other.len());
    assert(data.take(data.len() as int) =~= data);
    assert(other.take(other.len() as int) =~= other);
    let v = finite_among(data, data.len());
    let u = finite_among(other, other.len());
    v.to_multiset_ensures();
    u.to_multiset_ensures();
    if v.len() > 0 {
        let k = quantile_place(v.len() as int, clamped(q, S::of_int(0), S::of_int(1)));
        sorted_values_ignore_the_order(v, u, k);
    }
}

/// Larger shares fall on later places.
pub open spec fn places_rise<S: Scalar>(n: int, q: S, r: S) -> bool {
    quantile_place(n, clamped(q, S::of_int(0), S::of_int(1))) <= quantile_place(
        n,
        clamped(r, S::of_int(0), S::of_int(1)),
    )
}

/// A percentile never falls as the share grows.
pub proof fn percentiles_never_fall<S: Scalar>(data: Seq<S>, q: S, r: S)
    requires
        linearly_ordered::<S>(),
        places_rise(finite_among(data, data.len()).len() as int, q, r),
        S::of_int(0).le(S::of_int(0)),
    ensures
        quantile(data, q).le(quantile(data, r)),
{
    let v = finite_among(data, data.len());
    if v.len() > 0 {
        let n = v.len() as int;
        let zero = S::of_int(0);
        let one = S::of_int(1);
        let j = quantile_place(n, clamped(q, zero, one));
        let k = quantile_place(n, clamped(r, zero, one));
        sorted_ranks_never_fall(v, j, k);
        quantiles_are_values(data, q);
        quantiles_are_values(data, r);
        let a = quantile(data, q);
        let b = quantile(data, r);
        assert(a.le(a) && b.le(b));
        assert(a.le(b) <==> !b.lt(a));
    }
}

/// Fixed-point shares fall on later places as they grow.
pub proof fn fixed_places_rise(n: int, q: Fixed, r: Fixed)
    requires
        0 < n,
        q.le(r),
    ensures
        places_rise(n, q, r),
{
    let a = clamped(q, Fixed::of_int(0), Fixed::of_int(1)).raw as int;
    let b = clamped(r, Fixed::of_int(0), Fixed::of_int(1)).raw as int;
    let m = Fixed::of_int(n - 1).raw as int;
    assert(0 <= a <= b);
    assert(m >= 0);
    assert((m * a) / 65536 <= (m * b) / 65536) by (nonlinear_arith)
        requires
            0 <= a <= b,
            m >= 0,
    ;
}

/// A fixed-point percentile never falls as the share grows, whatever the data.
pub proof fn fixed_percentiles_never_fall(data: Seq<Fixed>, q: Fixed, r: Fixed)
    requires
        q.le(r),
    ensures
        quantile(data, q).le(quantile(data, r)),
{
    fixed_numbers_are_ordered();
    let n = finite_among(data, data.len()).len() as int;
    if n > 0 {
        fixed_places_rise(n, q, r);
        percentiles_never_fall(data, q, r);
    }
}

} // verus!
