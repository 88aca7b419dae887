//! The numbers the simulation is written over.
//!
//! Elevations, velocities, rainfall and the like are values of one type `S`
//! with the operations below. Every algorithm of the library is generic over
//! it, and its contract speaks of the operations' specification functions. The
//! library's own number type is [`crate::fixed::Fixed`]; a program that wants
//! another one implements the trait for it.
//!
//! Each executable operation is a function of its arguments, and that is nearly
//! all the trait asks of it: beyond the range of whole numbers, of proper
//! fractions and of remainders no algebraic law is taken for granted. A law of
//! the library that needs one names it as a hypothesis.

use vstd::prelude::*;

verus! {

pub trait Scalar: Copy {
    /// The type in which long sums are kept.
    type Wide: Copy;

    open spec fn add(self, o: Self) -> Self {
        arbitrary()
    }

    open spec fn sub(self, o: Self) -> Self {
        arbitrary()
    }

    open spec fn mul(self, o: Self) -> Self {
        arbitrary()
    }

    open spec fn div(self, o: Self) -> Self {
        arbitrary()
    }

    open spec fn neg(self) -> Self {
        arbitrary()
    }

    /// The remainder that is never negative.
    open spec fn rem(self, o: Self) -> Self {
        arbitrary()
    }

    open spec fn lt(self, o: Self) -> bool {
        arbitrary()
    }

    open spec fn le(self, o: Self) -> bool {
        arbitrary()
    }

    open spec fn of_int(n: int) -> Self {
        arbitrary()
    }

    /// The number closest to `n / d`.
    open spec fn ratio(n: int, d: int) -> Self {
        arbitrary()
    }

    open spec fn sqrt(self) -> Self {
        arbitrary()
    }

    open spec fn exp(self) -> Self {
        arbitrary()
    }

    open spec fn ln(self) -> Self {
        arbitrary()
    }

    open spec fn pow(self, e: Self) -> Self {
        arbitrary()
    }

    /// The cosine of an angle in radians.
    open spec fn cos(self) -> Self {
        arbitrary()
    }

    /// The sine of an angle in radians.
    open spec fn sin(self) -> Self {
        arbitrary()
    }

    open spec fn floor(self) -> i64 {
        arbitrary()
    }

    open spec fn ceil(self) -> i64 {
        arbitrary()
    }

    open spec fn round(self) -> i64 {
        arbitrary()
    }

    /// The value cut down to a byte, clamped at both ends.
    open spec fn byte(self) -> u8 {
        arbitrary()
    }

    /// The place of the value in a total order of all values.
    open spec fn rank(self) -> i64 {
        arbitrary()
    }

    open spec fn finite(self) -> bool {
        arbitrary()
    }

    /// The largest finite value.
    open spec fn top() -> Self {
        arbitrary()
    }

    /// The smallest finite value.
    open spec fn bottom() -> Self {
        arbitrary()
    }

    /// The value that a text stands for, if it stands for one.
    open spec fn read(s: Seq<char>) -> Option<Self> {
        arbitrary()
    }

    open spec fn wide_zero() -> Self::Wide {
        arbitrary()
    }

    /// A sum with one more term.
    open spec fn gather(w: Self::Wide, s: Self) -> Self::Wide {
        arbitrary()
    }

    /// Two sums taken together.
    open spec fn join(a: Self::Wide, b: Self::Wide) -> Self::Wide {
        arbitrary()
    }

    /// A sum divided by the number of its terms.
    open spec fn mean(w: Self::Wide, n: int) -> Self {
        arbitrary()
    }

    fn plus(self, o: Self) -> (r: Self)
        ensures
            r == self.add(o),
    ;

    fn minus(self, o: Self) -> (r: Self)
        ensures
            r == self.sub(o),
    ;

    fn times(self, o: Self) -> (r: Self)
        ensures
            r == self.mul(o),
    ;

    fn over(self, o: Self) -> (r: Self)
        ensures
            r == self.div(o),
    ;

    fn negated(self) -> (r: Self)
        ensures
            r == self.neg(),
    ;

    /// The remainder of a division by a number above 0 lies from 0 up to that
    /// number; rounding may carry it all the way.
    fn wrapped(self, o: Self) -> (r: Self)
        ensures
            r == self.rem(o),
            self.finite() && o.finite() && Self::of_int(0).lt(o) ==> Self::of_int(0).le(r) && r.le(
                o,
            ),
    ;

    fn less(self, o: Self) -> (r: bool)
        ensures
            r == self.lt(o),
    ;

    fn at_most(self, o: Self) -> (r: bool)
        ensures
            r == self.le(o),
    ;

    /// Whole numbers are finite, and those above 0 stay above it.
    fn whole(n: i64) -> (r: Self)
        ensures
            r == Self::of_int(n as int),
            r.finite(),
            n > 0 ==> Self::of_int(0).lt(r),
    ;

    /// A proper fraction with a denominator of up to 24 bits lies from 0 up to
    /// 1: it is not rounded up to the whole.
    fn fraction(n: i64, d: i64) -> (r: Self)
        requires
            d > 0,
        ensures
            r == Self::ratio(n as int, d as int),
            0 <= n < d <= 0x100_0000 ==> Self::of_int(0).le(r) && r.lt(Self::of_int(1)),
    ;

    fn root(self) -> (r: Self)
        ensures
            r == self.sqrt(),
    ;

    fn exponential(self) -> (r: Self)
        ensures
            r == self.exp(),
    ;

    fn logarithm(self) -> (r: Self)
        ensures
            r == self.ln(),
    ;

    fn power(self, e: Self) -> (r: Self)
        ensures
            r == self.pow(e),
    ;

    fn cosine(self) -> (r: Self)
        ensures
            r == self.cos(),
    ;

    fn sine(self) -> (r: Self)
        ensures
            r == self.sin(),
    ;

    fn round_down(self) -> (r: i64)
        ensures
            r == self.floor(),
    ;

    fn round_up(self) -> (r: i64)
        ensures
            r == self.ceil(),
    ;

    fn round_near(self) -> (r: i64)
        ensures
            r == self.round(),
    ;

    fn to_byte(self) -> (r: u8)
        ensures
            r == self.byte(),
    ;

    fn order_key(self) -> (r: i64)
        ensures
            r == self.rank(),
    ;

    fn is_finite(self) -> (r: bool)
        ensures
            r == self.finite(),
    ;

    fn largest() -> (r: Self)
        ensures
            r == Self::top(),
    ;

    fn lowest() -> (r: Self)
        ensures
            r == Self::bottom(),
    ;

    fn parsed(s: &str) -> (r: Option<Self>)
        ensures
            r == Self::read(s@),
    ;

    fn empty_sum() -> (r: Self::Wide)
        ensures
            r == Self::wide_zero(),
    ;

    fn gathered(w: Self::Wide, s: Self) -> (r: Self::Wide)
        ensures
            r == Self::gather(w, s),
    ;

    fn joined(a: Self::Wide, b: Self::Wide) -> (r: Self::Wide)
        ensures
            r == Self::join(a, b),
    ;

    fn average(w: Self::Wide, n: u32) -> (r: Self)
        ensures
            r == Self::mean(w, n as int),
    ;
}

/// Values that are at most themselves are linearly ordered by `le`, `lt` is its
/// strict part, finite values are among them, and `rank` puts a smaller value
/// before a larger one.
pub open spec fn linearly_ordered<S: Scalar>() -> bool {
    &&& forall|a: S, b: S| #![trigger a.le(b)] #![trigger b.lt(a)]
        a.le(a) && b.le(b) ==> (a.le(b) <==> !b.lt(a))
    &&& forall|a: S, b: S, c: S| #![trigger a.le(b), b.le(c)] a.le(b) && b.le(c) ==> a.le(c)
    &&& forall|a: S| #![trigger a.finite()] a.finite() ==> a.le(a)
    &&& forall|a: S, b: S| #![trigger a.lt(b)] a.lt(b) ==> a.le(b)
    &&& forall|a: S, b: S| #![trigger a.lt(b)] a.lt(b) ==> a.rank() < b.rank()
}

/// The larger of two values; a value that is not comparable with itself gives
/// way to the other.
pub open spec fn larger<S: Scalar>(a: S, b: S) -> S {
    if a.lt(b) || !a.le(a) {
        b
    } else {
        a
    }
}

/// The smaller of two values, with the same exception.
pub open spec fn smaller<S: Scalar>(a: S, b: S) -> S {
    if b.lt(a) || !a.le(a) {
        b
    } else {
        a
    }
}

/// A full turn in radians.
pub open spec fn full_turn<S: Scalar>() -> S {
    S::ratio(6_283_185_307_179_586, 1_000_000_000_000_000)
}

pub open spec fn clamped<S: Scalar>(x: S, lo: S, hi: S) -> S {
    if x.lt(lo) {
        lo
    } else if hi.lt(x) {
        hi
    } else {
        x
    }
}

pub open spec fn magnitude<S: Scalar>(x: S) -> S {
    if x.le(S::of_int(0)) {
        S::of_int(0).sub(x)
    } else {
        x
    }
}

/// The larger of two comparable values is one of them, and neither exceeds it.
pub proof fn lemma_larger<S: Scalar>(a: S, b: S)
    requires
        linearly_ordered::<S>(),
        a.le(a),
        b.le(b),
    ensures
        larger(a, b).le(larger(a, b)),
        a.le(larger(a, b)),
        b.le(larger(a, b)),
        larger(a, b) == a || larger(a, b) == b,
{
    assert(b.le(a) <==> !a.lt(b));
}

/// The smaller of two comparable values is one of them, and exceeds neither.
pub proof fn lemma_smaller<S: Scalar>(a: S, b: S)
    requires
        linearly_ordered::<S>(),
        a.le(a),
        b.le(b),
    ensures
        smaller(a, b).le(smaller(a, b)),
        smaller(a, b).le(a),
        smaller(a, b).le(b),
        smaller(a, b) == a || smaller(a, b) == b,
{
    assert(a.le(b) <==> !b.lt(a));
}

pub fn max_of<S: Scalar>(a: S, b: S) -> (r: S)
    ensures
        r == larger(a, b),
{
    if a.less(b) || !a.at_most(a) {
        b
    } else {
        a
    }
}

pub fn min_of<S: Scalar>(a: S, b: S) -> (r: S)
    ensures
        r == smaller(a, b),
{
    if b.less(a) || !a.at_most(a) {
        b
    } else {
        a
    }
}

pub fn clamp_to<S: Scalar>(x: S, lo: S, hi: S) -> (r: S)
    ensures
        r == clamped(x, lo, hi),
{
    if x.less(lo) {
        lo
    } else if hi.less(x) {
        hi
    } else {
        x
    }
}

pub fn abs_of<S: Scalar>(x: S) -> (r: S)
    ensures
        r == magnitude(x),
{
    if x.at_most(S::whole(0)) {
        S::whole(0).minus(x)
    } else {
        x
    }
}

pub fn full_turn_of<S: Scalar>() -> (r: S)
    ensures
        r == full_turn::<S>(),
{
    S::fraction(6_283_185_307_179_586, 1_000_000_000_000_000)
}

/// A vector of `n` copies of `value`.
pub fn repeated<T: Copy>(value: T, n: usize) -> (r: Vec<T>)
    ensures
        r@ == Seq::new(n as nat, |i: int| value),
{
    let mut out: Vec<T> = Vec::with_capacity(n);
    let mut i: usize = 0;
    while i < n
        invariant
            i <= n,
            out@ == Seq::new(i as nat, |j: int| value),
        decreases n - i,
    {
        out.push(value);
        i += 1;
        assert(out@ =~= Seq::new(i as nat, |j: int| value));
    }
    out
}

/// A copy of `v`.
pub fn copied<T: Copy>(v: &Vec<T>) -> (r: Vec<T>)
    ensures
        r@ == v@,
{
    let mut out: Vec<T> = Vec::with_capacity(v.len());
    let mut i: usize = 0;
    while i < v.len()
        invariant
            i <= v.len(),
            out@ == v@.take(i as int),
        decreases v.len() - i,
    {
        out.push(v[i]);
        i += 1;
        assert(out@ =~= v@.take(i as int));
    }
    assert(v@.take(i as int) =~= v@);
    out
}

} // verus!
