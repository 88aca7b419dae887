//! Signed fixed-point numbers: 48 bits before the point, 16 behind it.
//!
//! Everything is integer arithmetic, so a world computed with these numbers is
//! the same on every machine. Results out of range are clamped.

use crate::scalar::Scalar;
use crate::text::{read_signed, signed_in};
use vstd::prelude::*;

verus! {

/// One unit, as a raw value.
pub const ONE: i64 = 65536;

#[derive(Clone, Copy, Debug, PartialEq, Eq, Structural)]
pub struct Fixed {
    pub raw: i64,
}

/// The raw value closest to `x`.
pub open spec fn saturated(x: int) -> i64 {
    if x < i64::MIN {
        i64::MIN
    } else if x > i64::MAX {
        i64::MAX
    } else {
        x as i64
    }
}

/// Half a turn in radians, as a raw value.
pub const HALF_TURN: i64 = 205887;

/// The square of half a turn, as a raw value.
pub const HALF_TURN_SQUARED: i64 = 646811;

/// `r` is the largest integer whose square is at most `v`.
pub open spec fn is_root(r: int, v: int) -> bool {
    0 <= r && r * r <= v < (r + 1) * (r + 1)
}

/// The largest integer whose square is at most `v`.
pub open spec fn isqrt(v: int) -> int {
    choose|r: int| is_root(r, v)
}

/// `x` squared `n` times.
pub open spec fn squared_times(x: Fixed, n: nat) -> Fixed
    decreases n,
{
    if n == 0 {
        x
    } else {
        let y = squared_times(x, (n - 1) as nat);
        y.mul(y)
    }
}

/// The product of `n` factors `x`.
pub open spec fn whole_power(x: Fixed, n: nat) -> Fixed
    decreases n,
{
    if n == 0 {
        Fixed { raw: ONE }
    } else {
        whole_power(x, (n - 1) as nat).mul(x)
    }
}

/// How many times `raw` can be halved before it is below two units.
pub open spec fn doublings(raw: int) -> nat
    decreases raw,
{
    if raw < 2 * ONE {
        0
    } else {
        doublings(raw / 2) + 1
    }
}

/// The cosine of an angle of at most a quarter turn, by the rational
/// approximation of Bhaskara.
pub open spec fn quarter_cosine(x: Fixed) -> Fixed {
    let square = x.mul(x);
    Fixed { raw: HALF_TURN_SQUARED }.sub(square.mul(Fixed::of_int(4))).div(
        Fixed { raw: HALF_TURN_SQUARED }.add(square),
    )
}

pub proof fn lemma_isqrt(v: int, r: int)
    requires
        is_root(r, v),
    ensures
        isqrt(v) == r,
{
    let s = isqrt(v);
    assert(is_root(s, v));
    if s < r {
        assert((s + 1) * (s + 1) <= r * r) by (nonlinear_arith)
            requires
                0 <= s < r,
        ;
    }
    if r < s {
        assert((r + 1) * (r + 1) <= s * s) by (nonlinear_arith)
            requires
                0 <= r < s,
        ;
    }
}

fn saturate(x: i128) -> (r: i64)
    ensures
        r == saturated(x as int),
{
    if x < i64::MIN as i128 {
        i64::MIN
    } else if x > i64::MAX as i128 {
        i64::MAX
    } else {
        x as i64
    }
}

/// Division that rounds down.
fn floor_div(a: i128, b: i128) -> (r: i128)
    requires
        b > 0,
        -0x4000_0000_0000_0000_0000_0000_0000_0000 <= a <= 0x4000_0000_0000_0000_0000_0000_0000_0000,
        b <= 0x4000_0000_0000_0000_0000_0000_0000_0000,
    ensures
        r == a as int / b as int,
{
    if a >= 0 {
        a / b
    } else {
        let n: i128 = -a;
        let q: i128 = (n + (b - 1)) / b;
        proof {
            assert(-(q as int) == (a as int) / (b as int)) by (nonlinear_arith)
                requires
                    n == -a,
                    b > 0,
                    q as int == (n + (b - 1)) as int / (b as int),
            ;
        }
        assert(q <= n + (b - 1)) by (nonlinear_arith)
            requires
                q as int == (n + (b - 1)) as int / (b as int),
                b > 0,
                n > 0,
        ;
        -q
    }
}

fn integer_root(v: u128) -> (r: u64)
    requires
        v < 0x8000_0000_0000_0000_0000,
    ensures
        r as int == isqrt(v as int),
{
    let mut lo: u64 = 0;
    let mut hi: u64 = 0x100_0000_0000;
    assert(0x100_0000_0000 * 0x100_0000_0000 >= 0x8000_0000_0000_0000_0000int);
    while hi - lo > 1
        invariant
            lo < hi <= 0x100_0000_0000,
            (lo as int) * (lo as int) <= v,
            v < (hi as int) * (hi as int),
        decreases hi - lo,
    {
        let mid: u64 = lo + (hi - lo) / 2;
        assert((mid as int) * (mid as int) <= 0x100_0000_0000 * 0x100_0000_0000) by (nonlinear_arith)
            requires
                0 <= mid <= 0x100_0000_0000,
        ;
        if (mid as u128) * (mid as u128) <= v {
            lo = mid;
        } else {
            hi = mid;
        }
    }
    proof {
        lemma_isqrt(v as int, lo as int);
    }
    lo
}

fn cosine_within(x: Fixed) -> (r: Fixed)
    ensures
        r == quarter_cosine(x),
{
    let square = x.times(x);
    Fixed { raw: HALF_TURN_SQUARED }.minus(square.times(Fixed::whole(4))).over(
        Fixed { raw: HALF_TURN_SQUARED }.plus(square),
    )
}

impl Scalar for Fixed {
    type Wide = i128;

    open spec fn add(self, o: Self) -> Self {
        Fixed { raw: saturated(self.raw + o.raw) }
    }

    open spec fn sub(self, o: Self) -> Self {
        Fixed { raw: saturated(self.raw - o.raw) }
    }

    open spec fn mul(self, o: Self) -> Self {
        Fixed { raw: saturated((self.raw * o.raw) / ONE as int) }
    }

    open spec fn div(self, o: Self) -> Self {
        if o.raw > 0 {
            Fixed { raw: saturated((self.raw * ONE) / o.raw as int) }
        } else if o.raw < 0 {
            Fixed { raw: saturated((-(self.raw * ONE)) / (-o.raw)) }
        } else if self.raw < 0 {
            Fixed { raw: i64::MIN }
        } else {
            Fixed { raw: i64::MAX }
        }
    }

    open spec fn neg(self) -> Self {
        Fixed { raw: saturated(-self.raw) }
    }

    open spec fn rem(self, o: Self) -> Self {
        if o.raw > 0 {
            Fixed { raw: (self.raw % o.raw) as i64 }
        } else {
            Fixed { raw: 0 }
        }
    }

    open spec fn lt(self, o: Self) -> bool {
        self.raw < o.raw
    }

    open spec fn le(self, o: Self) -> bool {
        self.raw <= o.raw
    }

    open spec fn of_int(n: int) -> Self {
        Fixed { raw: saturated(n * ONE) }
    }

    open spec fn ratio(n: int, d: int) -> Self {
        Fixed { raw: saturated((n * ONE) / d) }
    }

    open spec fn sqrt(self) -> Self {
        if self.raw <= 0 {
            Fixed { raw: 0 }
        } else {
            Fixed { raw: saturated(isqrt(self.raw * ONE)) }
        }
    }

    /// The 1024th power of `1 + x / 1024`, which is close to the exponential
    /// function for arguments of moderate size.
    open spec fn exp(self) -> Self {
        if self.raw < -1024 * ONE {
            Fixed { raw: 0 }
        } else {
            squared_times(Fixed { raw: saturated(ONE + self.raw as int / 1024) }, 10)
        }
    }

    /// The logarithm to the precision of whole doublings.
    open spec fn ln(self) -> Self {
        Fixed { raw: saturated(doublings(self.raw as int) as int * 45426) }
    }

    /// The power with the exponent taken to the next half below, between 0 and
    /// 32.
    open spec fn pow(self, e: Self) -> Self {
        if e.raw <= 0 {
            Fixed { raw: ONE }
        } else if e.raw >= 32 * ONE {
            whole_power(self.sqrt(), 64)
        } else {
            whole_power(self.sqrt(), (e.raw as int / 32768) as nat)
        }
    }

    /// The approximation above, carried to the other quarters by symmetry.
    open spec fn cos(self) -> Self {
        let turned = self.raw as int % (2 * HALF_TURN);
        let folded = if turned > HALF_TURN {
            2 * HALF_TURN - turned
        } else {
            turned
        };
        if 2 * folded <= HALF_TURN {
            quarter_cosine(Fixed { raw: folded as i64 })
        } else {
            quarter_cosine(Fixed { raw: (HALF_TURN - folded) as i64 }).neg()
        }
    }

    /// The cosine, a quarter turn behind.
    open spec fn sin(self) -> Self {
        Fixed { raw: (self.raw as int % (2 * HALF_TURN) - HALF_TURN / 2) as i64 }.cos()
    }

    open spec fn floor(self) -> i64 {
        (self.raw as int / ONE as int) as i64
    }

    open spec fn ceil(self) -> i64 {
        ((self.raw + (ONE - 1)) / ONE as int) as i64
    }

    open spec fn round(self) -> i64 {
        ((self.raw + 32768) / ONE as int) as i64
    }

    open spec fn byte(self) -> u8 {
        if self.raw < 0 {
            0
        } else if self.raw >= 255 * ONE {
            255
        } else {
            (self.raw as int / ONE as int) as u8
        }
    }

    open spec fn rank(self) -> i64 {
        self.raw
    }

    open spec fn finite(self) -> bool {
        true
    }

    open spec fn top() -> Self {
        Fixed { raw: i64::MAX }
    }

    open spec fn bottom() -> Self {
        Fixed { raw: i64::MIN }
    }

    /// Whole numbers, with an optional sign.
    open spec fn read(s: Seq<char>) -> Option<Self> {
        match signed_in(s) {
            Some(v) => Some(Self::of_int(v)),
            None => None,
        }
    }

    open spec fn wide_zero() -> i128 {
        0
    }

    open spec fn gather(w: i128, s: Self) -> i128 {
        Self::join(w, s.raw as i128)
    }

    /// The sum, or the first of the two where the sum is out of range.
    open spec fn join(a: i128, b: i128) -> i128 {
        if i128::MIN <= a + b <= i128::MAX {
            (a + b) as i128
        } else {
            a
        }
    }

    open spec fn mean(w: i128, n: int) -> Self {
        if n == 0 || !(-0x4000_0000_0000_0000_0000_0000_0000_0000 <= w
            <= 0x4000_0000_0000_0000_0000_0000_0000_0000) {
            Fixed { raw: 0 }
        } else {
            Fixed { raw: saturated(w as int / n) }
        }
    }

    fn plus(self, o: Self) -> (r: Self) {
        Fixed { raw: saturate(self.raw as i128 + o.raw as i128) }
    }

    fn minus(self, o: Self) -> (r: Self) {
        Fixed { raw: saturate(self.raw as i128 - o.raw as i128) }
    }

    fn times(self, o: Self) -> (r: Self) {
        let a: i128 = self.raw as i128;
        let b: i128 = o.raw as i128;
        assert(-0x4000_0000_0000_0000_0000_0000_0000_0000 <= a * b
            <= 0x4000_0000_0000_0000_0000_0000_0000_0000) by (nonlinear_arith)
            requires
                -0x8000_0000_0000_0000 <= a <= 0x7fff_ffff_ffff_ffff,
                -0x8000_0000_0000_0000 <= b <= 0x7fff_ffff_ffff_ffff,
        ;
        Fixed { raw: saturate(floor_div(a * b, ONE as i128)) }
    }

    fn over(self, o: Self) -> (r: Self) {
        let a: i128 = self.raw as i128 * 65536;
        assert(a == self.raw * 65536);
        if o.raw > 0 {
            Fixed { raw: saturate(floor_div(a, o.raw as i128)) }
        } else if o.raw < 0 {
            Fixed { raw: saturate(floor_div(-a, -(o.raw as i128))) }
        } else if self.raw < 0 {
            Fixed { raw: i64::MIN }
        } else {
            Fixed { raw: i64::MAX }
        }
    }

    fn negated(self) -> (r: Self) {
        Fixed { raw: saturate(-(self.raw as i128)) }
    }

    fn wrapped(self, o: Self) -> (r: Self) {
        if o.raw > 0 {
            Fixed { raw: self.raw.checked_rem_euclid(o.raw).unwrap() }
        } else {
            Fixed { raw: 0 }
        }
    }

    fn less(self, o: Self) -> (r: bool) {
        self.raw < o.raw
    }

    fn at_most(self, o: Self) -> (r: bool) {
        self.raw <= o.raw
    }

    fn whole(n: i64) -> (r: Self) {
        Fixed { raw: saturate(n as i128 * 65536) }
    }

    fn fraction(n: i64, d: i64) -> (r: Self) {
        let a: i128 = n as i128 * 65536;
        assert(a == n * 65536);
        assert(0 <= n < d ==> 0 <= (n * 65536) / (d as int) < 65536) by (nonlinear_arith)
            requires
                d > 0,
        ;
        Fixed { raw: saturate(floor_div(a, d as i128)) }
    }

    fn root(self) -> (r: Self) {
        if self.raw <= 0 {
            Fixed { raw: 0 }
        } else {
            let v: u128 = self.raw as u128 * 65536;
            let r: u64 = integer_root(v);
            Fixed { raw: saturate(r as i128) }
        }
    }

    fn exponential(self) -> (r: Self) {
        if self.raw < -1024 * ONE {
            Fixed { raw: 0 }
        } else {
            let start = Fixed { raw: saturate(ONE as i128 + floor_div(self.raw as i128, 1024)) };
            let mut y = start;
            let mut i: usize = 0;
            while i < 10
                invariant
                    i <= 10,
                    y == squared_times(start, i as nat),
                decreases 10 - i,
            {
                y = y.times(y);
                i += 1;
            }
            y
        }
    }

    fn logarithm(self) -> (r: Self) {
        let mut raw: i64 = self.raw;
        let mut n: i64 = 0;
        while raw >= 2 * ONE
            invariant
                0 <= n,
                raw <= self.raw,
                n + (if raw > 0 { raw } else { 0 }) <= i64::MAX,
                doublings(self.raw as int) == n + doublings(raw as int),
            decreases raw,
        {
            raw = raw / 2;
            n += 1;
        }
        Fixed { raw: saturate(n as i128 * 45426) }
    }

    fn power(self, e: Self) -> (r: Self) {
        let base = self.root();
        let n: i64 = if e.raw <= 0 {
            0
        } else if e.raw >= 32 * ONE {
            64
        } else {
            e.raw / 32768
        };
        let mut y = Fixed { raw: ONE };
        let mut i: i64 = 0;
        while i < n
            invariant
                0 <= i <= n,
                y == whole_power(base, i as nat),
            decreases n - i,
        {
            y = y.times(base);
            i += 1;
        }
        y
    }

    fn cosine(self) -> (r: Self) {
        let turned: i64 = self.raw.checked_rem_euclid(2 * HALF_TURN).unwrap();
        let folded: i64 = if turned > HALF_TURN {
            2 * HALF_TURN - turned
        } else {
            turned
        };
        if 2 * folded <= HALF_TURN {
            cosine_within(Fixed { raw: folded })
        } else {
            cosine_within(Fixed { raw: HALF_TURN - folded }).negated()
        }
    }

    fn sine(self) -> (r: Self) {
        let turned: i64 = self.raw.checked_rem_euclid(2 * HALF_TURN).unwrap();
        Fixed { raw: turned - HALF_TURN / 2 }.cosine()
    }

    fn round_down(self) -> (r: i64) {
        floor_div(self.raw as i128, ONE as i128) as i64
    }

    fn round_up(self) -> (r: i64) {
        floor_div(self.raw as i128 + (ONE as i128 - 1), ONE as i128) as i64
    }

    fn round_near(self) -> (r: i64) {
        floor_div(self.raw as i128 + 32768, ONE as i128) as i64
    }

    fn to_byte(self) -> (r: u8) {
        if self.raw < 0 {
            0
        } else if self.raw >= 255 * ONE {
            255
        } else {
            (self.raw / ONE) as u8
        }
    }

    fn order_key(self) -> (r: i64) {
        self.raw
    }

    fn is_finite(self) -> (r: bool) {
        true
    }

    fn largest() -> (r: Self) {
        Fixed { raw: i64::MAX }
    }

    fn lowest() -> (r: Self) {
        Fixed { raw: i64::MIN }
    }

    fn parsed(s: &str) -> (r: Option<Self>) {
        match read_signed(s) {
            Some(v) => Some(Self::whole(v)),
            None => None,
        }
    }

    fn empty_sum() -> (r: i128) {
        0
    }

    fn gathered(w: i128, s: Self) -> (r: i128) {
        Self::joined(w, s.raw as i128)
    }

    fn joined(a: i128, b: i128) -> (r: i128) {
        if b >= 0 {
            if a <= i128::MAX - b {
                a + b
            } else {
                a
            }
        } else {
            if a >= i128::MIN - b {
                a + b
            } else {
                a
            }
        }
    }

    fn average(w: i128, n: u32) -> (r: Self) {
        if n == 0 || w < -0x4000_0000_0000_0000_0000_0000_0000_0000i128
            || w > 0x4000_0000_0000_0000_0000_0000_0000_0000i128 {
            Fixed { raw: 0 }
        } else {
            Fixed { raw: saturate(floor_div(w, n as i128)) }
        }
    }
}

/// Fixed-point numbers are linearly ordered.
pub proof fn fixed_numbers_are_ordered()
    ensures
        crate::scalar::linearly_ordered::<Fixed>(),
{
}

/// Every number that is not negative has a root.
pub proof fn lemma_root_exists(v: int) -> (r: int)
    requires
        v >= 0,
    ensures
        is_root(r, v),
        isqrt(v) == r,
    decreases v,
{
    if v == 0 {
        lemma_isqrt(0, 0);
        0
    } else {
        let r = lemma_root_exists(v - 1);
        let next = if v < (r + 1) * (r + 1) {
            r
        } else {
            r + 1
        };
        assert((r + 1) * (r + 1) < (r + 2) * (r + 2)) by (nonlinear_arith)
            requires
                r >= 0,
        ;
        assert(is_root(next, v));
        lemma_isqrt(v, next);
        next
    }
}

proof fn lemma_root_keeps_order(a: Fixed, b: Fixed)
    requires
        a.raw <= b.raw,
    ensures
        0 <= a.sqrt().raw <= b.sqrt().raw,
{
    if a.raw > 0 {
        let u = a.raw * ONE;
        let v = b.raw * ONE;
        let r = lemma_root_exists(u);
        let s = lemma_root_exists(v);
        if s < r {
            assert((s + 1) * (s + 1) <= r * r) by (nonlinear_arith)
                requires
                    0 <= s < r,
            ;
        }
    } else if b.raw > 0 {
        let s = lemma_root_exists(b.raw * ONE);
    }
}

proof fn lemma_whole_power_keeps_order(a: Fixed, b: Fixed, n: nat)
    requires
        0 <= a.raw <= b.raw,
    ensures
        0 <= whole_power(a, n).raw <= whole_power(b, n).raw,
    decreases n,
{
    if n > 0 {
        lemma_whole_power_keeps_order(a, b, (n - 1) as nat);
        let x = whole_power(a, (n - 1) as nat).raw as int;
        let y = whole_power(b, (n - 1) as nat).raw as int;
        assert(0 <= (x * a.raw) / 65536 <= (y * b.raw) / 65536) by {
            assert(0 <= x * a.raw <= y * b.raw) by (nonlinear_arith)
                requires
                    0 <= x <= y,
                    0 <= a.raw <= b.raw,
            ;
        }
    }
}

/// Fixed-point powers keep the order of what they are taken of, and are never
/// negative.
pub proof fn fixed_powers_keep_order(a: Fixed, b: Fixed, e: Fixed)
    requires
        a.le(b),
    ensures
        Fixed::of_int(0).le(a.pow(e)),
        a.pow(e).le(b.pow(e)),
{
    lemma_root_keeps_order(a, b);
    let n = if e.raw >= 32 * ONE {
        64nat
    } else {
        (e.raw as int / 32768) as nat
    };
    lemma_whole_power_keeps_order(a.sqrt(), b.sqrt(), n);
}

} // verus!
