//! Deterministic noise and randomness.
//!
//! Everything must be reproducible from a seed, so there are no global random
//! number generators.
//!
//! * [`rng`] returns a seeded generator for setup work (plate placement).
//! * [`CylinderNoise`] lays a field of noise around the world. Because the
//!   world is a cylinder, x is mapped onto a circle in space and the noise is
//!   read on that circle: the field is then seamless across the x=0 seam by
//!   construction.
//! * [`hash_unit`] is a stateless coordinate hash, for per-cell decisions that
//!   must not depend on iteration order (volcano placement).

use crate::fixed::Fixed;
use crate::scalar::{clamp_to, clamped, full_turn, full_turn_of, larger, max_of, Scalar};
use rand::SeedableRng;
use rand_pcg::Pcg64Mcg;
use vstd::prelude::*;

verus! {

/// The generator of the `rand_pcg` crate, which is opaque here.
#[verifier::external_type_specification]
#[verifier::external_body]
pub struct ExPcg64Mcg(Pcg64Mcg);

pub type Rng = Pcg64Mcg;

/// The generator that `Pcg64Mcg::seed_from_u64` makes of a number.
pub uninterp spec fn pcg_from(state: u64) -> Pcg64Mcg;

/// `Pcg64Mcg::seed_from_u64`: the generator is a function of the number alone.
#[verifier::external_body]
fn seeded(state: u64) -> (r: Rng)
    ensures
        r == pcg_from(state),
{
    Pcg64Mcg::seed_from_u64(state)
}

/// The number that a stream of a seed starts from.
pub open spec fn stream_state(seed: u64, stream: u64) -> u64 {
    seed ^ stream.wrapping_mul(0x9E37_79B9_7F4A_7C15)
}

/// A reproducible generator. `stream` separates independent uses of one seed.
pub fn rng(seed: u64, stream: u64) -> (r: Rng)
    ensures
        r == pcg_from(stream_state(seed, stream)),
{
    seeded(seed ^ stream.wrapping_mul(0x9E37_79B9_7F4A_7C15))
}

// --- fields ----------------------------------------------------------------
/// How a field of noise is made: what its generator is seeded with, roughly
/// how wide one feature is, in cells, and how many octaves it has.
#[derive(Clone, Copy, Debug)]
pub struct Recipe<S> {
    pub seed: u32,
    pub feature_size: S,
    pub octaves: usize,
}

impl<S: Scalar> Recipe<S> {
    pub open spec fn of(seed: u64, salt: u32, feature_size: S, octaves: usize) -> Self {
        Recipe { seed: (seed as u32) ^ salt, feature_size, octaves }
    }

    /// The recipe for one field of a world; the salt separates the fields of
    /// one seed.
    pub fn salted(seed: u64, salt: u32, feature_size: S, octaves: usize) -> (r: Self)
        ensures
            r == Self::of(seed, salt, feature_size, octaves),
    {
        Recipe { seed: (seed as u32) ^ salt, feature_size, octaves }
    }
}

/// The surface in space that a world is wrapped around.
#[derive(Clone, Copy, Debug)]
pub struct Cylinder<D> {
    /// Radius of the circle x is mapped onto, in noise units.
    pub radius: D,
    /// World width, for the mapping from x to an angle.
    pub width: D,
    /// Scale applied to y so features stay isotropic.
    pub y_scale: D,
}

impl<D: Scalar> Cylinder<D> {
    /// One full trip around covers `width / feature_size` noise units, so the
    /// circumference of the circle is exactly that.
    pub open spec fn around(width: int, feature_size: D) -> Self {
        Cylinder {
            radius: D::of_int(width).div(feature_size).div(full_turn()),
            width: D::of_int(width),
            y_scale: D::of_int(1).div(feature_size),
        }
    }

    /// The angle that a column of the world lies at.
    pub open spec fn turn(self, x: D) -> D {
        x.div(self.width).mul(full_turn())
    }

    /// Where in space a point of the world lies.
    pub open spec fn spot(self, x: D, y: D) -> Seq<D> {
        seq![
            self.radius.mul(self.turn(x).cos()),
            self.radius.mul(self.turn(x).sin()),
            y.mul(self.y_scale),
        ]
    }

    /// `feature_size` is roughly the width of one noise feature, in cells.
    pub fn new(width: usize, feature_size: D) -> (r: Self)
        requires
            width <= i64::MAX,
        ensures
            r == Self::around(width as int, feature_size),
    {
        let across = D::whole(width as i64);
        Cylinder {
            radius: across.over(feature_size).over(full_turn_of()),
            width: across,
            y_scale: D::whole(1).over(feature_size),
        }
    }

    pub fn point(&self, x: D, y: D) -> (r: [D; 3])
        ensures
            r@ == self.spot(x, y),
    {
        let theta = x.over(self.width).times(full_turn_of());
        let r: [D; 3] = [
            self.radius.times(theta.cosine()),
            self.radius.times(theta.sine()),
            y.times(self.y_scale),
        ];
        assert(r@ =~= self.spot(x, y));
        r
    }
}

/// How many points a field is measured at.
pub const PROBES: usize = 2048;

/// The fractional part of `i` steps of `step` ten-millionths.
pub open spec fn stride<S: Scalar>(i: int, step: int) -> S {
    let t = S::of_int(i).mul(S::ratio(step, 10_000_000));
    t.sub(S::of_int(t.floor() as int))
}

/// The `i`-th point that a field is measured at.
pub open spec fn probe<S: Scalar>(i: int, width: int, feature_size: S) -> (S, S) {
    (
        stride::<S>(i, 7_548_777).mul(S::of_int(width)),
        stride::<S>(i, 5_698_403).mul(feature_size.mul(S::of_int(64))),
    )
}

fn stride_of<S: Scalar>(i: usize, step: i64) -> (r: S)
    requires
        i <= PROBES,
    ensures
        r == stride::<S>(i as int, step as int),
{
    let t = S::whole(i as i64).times(S::fraction(step, 10_000_000));
    t.minus(S::whole(t.round_down()))
}

/// The points that a field is measured at: a low-discrepancy walk over it, so
/// that the estimate does not depend on lining up with the noise lattice.
pub fn probes<S: Scalar>(width: usize, feature_size: S) -> (r: Vec<(S, S)>)
    requires
        width <= i64::MAX,
    ensures
        r@ == Seq::new(PROBES as nat, |i: int| probe(i, width as int, feature_size)),
{
    let mut points: Vec<(S, S)> = Vec::with_capacity(PROBES);
    let mut i: usize = 0;
    while i < PROBES
        invariant
            i <= PROBES,
            width <= i64::MAX,
            points@ == Seq::new(i as nat, |j: int| probe(j, width as int, feature_size)),
        decreases PROBES - i,
    {
        let x = stride_of::<S>(i, 7_548_777).times(S::whole(width as i64));
        let y = stride_of::<S>(i, 5_698_403).times(feature_size.times(S::whole(64)));
        points.push((x, y));
        i += 1;
        assert(points@ =~= Seq::new(i as nat, |j: int| probe(j, width as int, feature_size)));
    }
    points
}

/// The sum of the first `n` values.
pub open spec fn total<S: Scalar>(values: Seq<S>, n: nat) -> S::Wide
    decreases n,
{
    if n == 0 {
        S::wide_zero()
    } else {
        S::gather(total(values, (n - 1) as nat), values[n - 1])
    }
}

/// The sum of the squares of the first `n` values.
pub open spec fn total_of_squares<S: Scalar>(values: Seq<S>, n: nat) -> S::Wide
    decreases n,
{
    if n == 0 {
        S::wide_zero()
    } else {
        S::gather(total_of_squares(values, (n - 1) as nat), values[n - 1].mul(values[n - 1]))
    }
}

/// The sum of values and the sum of their squares.
pub fn tally<S: Scalar>(values: &Vec<S>) -> (r: (S::Wide, S::Wide))
    ensures
        r.0 == total(values@, values@.len()),
        r.1 == total_of_squares(values@, values@.len()),
{
    let mut sum = S::empty_sum();
    let mut squares = S::empty_sum();
    let mut i: usize = 0;
    while i < values.len()
        invariant
            i <= values@.len(),
            sum == total(values@, i as nat),
            squares == total_of_squares(values@, i as nat),
        decreases values@.len() - i,
    {
        let v = values[i];
        sum = S::gathered(sum, v);
        squares = S::gathered(squares, v.times(v));
        i += 1;
    }
    (sum, squares)
}

/// The standard deviation of `n` values with these sums, kept off zero.
pub open spec fn deviation<D: Scalar>(sum: D, squares: D, n: int) -> D {
    let mean = sum.div(D::of_int(n));
    larger(
        squares.div(D::of_int(n)).sub(mean.mul(mean)),
        D::ratio(1, 1_000_000_000_000),
    ).sqrt()
}

/// The spread of a field, from the sums over its probes.
pub fn spread<D: Scalar>(sum: D, squares: D) -> (r: D)
    ensures
        r == deviation(sum, squares, PROBES as int),
{
    let n = D::whole(PROBES as i64);
    let mean = sum.over(n);
    max_of(
        squares.over(n).minus(mean.times(mean)),
        D::fraction(1, 1_000_000_000_000),
    ).root()
}

/// Seamless noise over the cylindrical world: where on the cylinder it is read,
/// and how much the reading is scaled.
///
/// A noise generator does not fill `[-1, 1]`: with the usual octave counts it
/// comes out around a third of that, and the amount depends on how many octaves
/// were asked for. Left uncalibrated, every amplitude parameter in the
/// simulation would quietly mean something different from what it says. So a
/// field is measured once and scaled to a known spread.
#[derive(Clone, Copy, Debug)]
pub struct CylinderNoise<S, D> {
    pub cylinder: Cylinder<D>,
    /// Calibration factor.
    pub gain: S,
}

/// The factor that brings a field of the given spread to a standard deviation
/// of 0.32, so that samples mostly land in `[-1, 1]` with occasional excursions
/// past it.
pub open spec fn gain_for<S: Scalar>(spread: S) -> S {
    clamped(S::ratio(32, 100).div(spread), S::ratio(1, 2), S::of_int(8))
}

impl<S: Scalar, D: Scalar> CylinderNoise<S, D> {
    /// Noise on a cylinder, with the spread that was measured on it.
    pub fn new(cylinder: Cylinder<D>, spread: S) -> (r: Self)
        ensures
            r.cylinder == cylinder,
            r.gain == gain_for(spread),
    {
        let gain = clamp_to(S::fraction(32, 100).over(spread), S::fraction(1, 2), S::whole(8));
        CylinderNoise { cylinder, gain }
    }

    /// The value of the field where the generator reads `raw`.
    pub fn get(&self, raw: S) -> (r: S)
        ensures
            r == raw.mul(self.gain),
    {
        raw.times(self.gain)
    }
}

/// The arithmetic that closes a circle of the given circumference: a full turn
/// leads back to where it started.
pub open spec fn turns_close<D: Scalar>(width: D) -> bool {
    let nothing = D::of_int(0).div(width).mul(full_turn());
    let once = width.div(width).mul(full_turn());
    once.cos() == nothing.cos() && once.sin() == nothing.sin()
}

/// The noise is seamless: the two ends of a row are read at the same place.
pub proof fn noise_is_seamless<D: Scalar>(c: Cylinder<D>, y: D)
    requires
        turns_close(c.width),
    ensures
        c.spot(D::of_int(0), y) == c.spot(c.width, y),
{
}

/// With fixed-point numbers every row of a world closes exactly.
pub proof fn fixed_turns_close(width: int)
    requires
        0 < width <= 0x7FFF_FFFF_FFFF,
    ensures
        turns_close(Fixed::of_int(width)),
{
    let w = Fixed::of_int(width);
    assert(w.raw == width * 65536);
    assert((w.raw * 65536) / (w.raw as int) == 65536) by (nonlinear_arith)
        requires
            w.raw > 0,
    ;
    assert(0int / (w.raw as int) == 0) by (nonlinear_arith)
        requires
            w.raw > 0,
    ;
    assert(w.div(w) == (Fixed { raw: 65536 }));
    assert(Fixed::of_int(0).div(w) == (Fixed { raw: 0 }));
    let turn: Fixed = full_turn();
    assert(turn == (Fixed { raw: 411774 }));
    let once = w.div(w).mul(turn);
    let nothing = Fixed::of_int(0).div(w).mul(turn);
    let one = w.div(w);
    let zero = Fixed::of_int(0).div(w);
    assert(one.raw * turn.raw == 411774 * 65536 && zero.raw * turn.raw == 0) by (nonlinear_arith)
        requires
            one.raw == 65536,
            zero.raw == 0,
            turn.raw == 411774,
    ;
    assert(once.raw as int % 411774 == nothing.raw as int % 411774);
    assert(once.cos() == nothing.cos());
    assert(once.sin() == nothing.sin());
}

// --- hashes ----------------------------------------------------------------
/// One step of a 64-bit finaliser.
pub open spec fn stirred(z: u64, shift: u64, factor: u64) -> u64 {
    (z ^ (z >> shift)).wrapping_mul(factor)
}

/// The 24 bits that a seed and two coordinates hash to.
pub open spec fn hashed(seed: u64, a: i64, b: i64) -> u64 {
    let z = seed.wrapping_mul(0xD6E8_FEB8_6659_FD93).wrapping_add(
        (a as u64).wrapping_mul(0x9E37_79B9_7F4A_7C15),
    ).wrapping_add((b as u64).wrapping_mul(0xC2B2_AE3D_27D4_EB4F));
    let z1 = stirred(z, 30, 0xBF58_476D_1CE4_E5B9);
    let z2 = stirred(z1, 27, 0x94D0_49BB_1331_11EB);
    (z2 ^ (z2 >> 31u64)) >> 40u64
}

fn hash_bits(seed: u64, a: i64, b: i64) -> (r: u64)
    ensures
        r == hashed(seed, a, b),
        r < 0x100_0000,
{
    let mut z: u64 = seed.wrapping_mul(0xD6E8_FEB8_6659_FD93).wrapping_add(
        (a as u64).wrapping_mul(0x9E37_79B9_7F4A_7C15),
    ).wrapping_add((b as u64).wrapping_mul(0xC2B2_AE3D_27D4_EB4F));
    z = z ^ (z >> 30u64);
    z = z.wrapping_mul(0xBF58_476D_1CE4_E5B9);
    z = z ^ (z >> 27u64);
    z = z.wrapping_mul(0x94D0_49BB_1331_11EB);
    z = z ^ (z >> 31u64);
    assert(z >> 40u64 < 0x100_0000u64) by (bit_vector);
    z >> 40u64
}

/// The hash as a number from 0 up to 1.
pub open spec fn hash_fraction<S: Scalar>(seed: u64, a: i64, b: i64) -> S {
    S::ratio(hashed(seed, a, b) as int, 0x100_0000)
}

/// Stateless hash of two coordinates (plus a salt) to `[0, 1)`.
///
/// A splitmix finaliser - cheap enough to call per cell per iteration.
pub fn hash_unit<S: Scalar>(seed: u64, a: i64, b: i64) -> (r: S)
    ensures
        r == hash_fraction::<S>(seed, a, b),
        S::of_int(0).le(r),
        r.lt(S::of_int(1)),
{
    S::fraction(hash_bits(seed, a, b) as i64, 0x100_0000)
}

/// Stateless coordinate hash to `[-1, 1)`.
pub fn hash_signed<S: Scalar>(seed: u64, a: i64, b: i64) -> (r: S)
    ensures
        r == hash_fraction::<S>(seed, a, b).mul(S::of_int(2)).sub(S::of_int(1)),
{
    hash_unit::<S>(seed, a, b).times(S::whole(2)).minus(S::whole(1))
}

/// The hash is a proper fraction: its numerator is smaller than its
/// denominator.
pub proof fn hash_is_in_range(seed: u64, a: i64, b: i64)
    ensures
        0 <= hashed(seed, a, b) < 0x100_0000,
{
    let z = seed.wrapping_mul(0xD6E8_FEB8_6659_FD93).wrapping_add(
        (a as u64).wrapping_mul(0x9E37_79B9_7F4A_7C15),
    ).wrapping_add((b as u64).wrapping_mul(0xC2B2_AE3D_27D4_EB4F));
    let z2 = stirred(
        stirred(z, 30, 0xBF58_476D_1CE4_E5B9),
        27,
        0x94D0_49BB_1331_11EB,
    );
    let last = z2 ^ (z2 >> 31u64);
    assert(last >> 40u64 < 0x100_0000u64) by (bit_vector);
}

/// Proper fractions lie from 0 up to 1.
pub open spec fn fractions_are_proper<S: Scalar>() -> bool {
    forall|n: int, d: int|
        0 <= n < d ==> S::of_int(0).le(#[trigger] S::ratio(n, d)) && S::ratio(n, d).lt(
            S::of_int(1),
        )
}

/// The hash lies from 0 up to 1, and is a whole number of 24-bit steps, for
/// numbers whose proper fractions are proper.
pub proof fn hash_is_a_share<S: Scalar>(seed: u64, a: i64, b: i64)
    requires
        fractions_are_proper::<S>(),
    ensures
        S::of_int(0).le(hash_fraction::<S>(seed, a, b)),
        hash_fraction::<S>(seed, a, b).lt(S::of_int(1)),
        exists|n: int|
            0 <= n < 0x100_0000 && hash_fraction::<S>(seed, a, b) == #[trigger] S::ratio(
                n,
                0x100_0000,
            ),
{
    hash_is_in_range(seed, a, b);
}

/// With fixed-point numbers proper fractions lie from 0 up to 1.
pub proof fn fixed_fractions_are_proper()
    ensures
        fractions_are_proper::<Fixed>(),
{
    assert forall|n: int, d: int| 0 <= n < d implies Fixed::of_int(0).le(
        #[trigger] Fixed::ratio(n, d),
    ) && Fixed::ratio(n, d).lt(Fixed::of_int(1)) by {
        assert(0 <= (n * 65536) / d < 65536) by (nonlinear_arith)
            requires
                0 <= n < d,
        ;
    }
}

} // verus!
