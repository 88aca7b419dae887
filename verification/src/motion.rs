//! How plates move, and what their motion makes of the boundary between them.

use crate::boundary::classified;
use crate::curves::lemma_product;
use crate::fixed::{isqrt, lemma_isqrt, lemma_root_exists, quarter_cosine, Fixed};
use crate::fixed::{HALF_TURN, HALF_TURN_SQUARED};
use crate::math::{
    delta_between, turned, wrapped_difference, wrapped_difference_is_the_short_way, Vec2,
};
use crate::plate::{moved, plate_on, CrustField, Plate, PlateId};
use crate::scalar::{magnitude, Scalar};
use vstd::arithmetic::div_mod::{
    lemma_fundamental_div_mod_converse, lemma_small_mod, lemma_sub_mod_noop,
};
use vstd::prelude::*;

verus! {

// --- steps -----------------------------------------------------------------
/// A number that stays far from the ends of the range.
pub open spec fn is_near(x: Fixed) -> bool {
    -0x1000_0000_0000 <= x.raw <= 0x1000_0000_0000
}

/// A plate moves by its velocity times the time: east and west it goes around the
/// world, and at a wall it turns back by as much as it would have gone past it,
/// its velocity across the wall reversed. It keeps its number and its crust.
pub proof fn plates_move_by_their_velocity(w: int, h: int, plate: Plate<Fixed>, dt: Fixed)
    requires
        0 < w <= 0x1000_0000,
        1 < h <= 0x1000_0000,
        is_near(plate.position.x),
        is_near(plate.position.y),
        is_near(plate.velocity.x),
        is_near(plate.velocity.y),
        0 <= dt.raw <= 0x1_0000_0000,
    ensures
        ({
            let next = moved(w, h, plate, dt);
            let x = plate.position.x.raw + (plate.velocity.x.raw * dt.raw) / 65536;
            let y = plate.position.y.raw + (plate.velocity.y.raw * dt.raw) / 65536;
            let south = (h - 1) * 65536;
            &&& next.id == plate.id && next.crust_type == plate.crust_type
            &&& next.position.x.raw == x % (w * 65536)
            &&& next.velocity.x == plate.velocity.x
            &&& 0 <= y <= south ==> next.position.y.raw == y && next.velocity.y == plate.velocity.y
            &&& -south <= y < 0 ==> next.position.y.raw == -y
            &&& south < y <= 2 * south ==> next.position.y.raw == 2 * south - y
            &&& y < 0 || south < y ==> next.velocity.y.raw == -plate.velocity.y.raw
            &&& 0 <= next.position.y.raw <= south
        }),
{
    lemma_product(plate.velocity.x, dt);
    lemma_product(plate.velocity.y, dt);
    lemma_shift(plate.velocity.x.raw as int, dt.raw as int);
    lemma_shift(plate.velocity.y.raw as int, dt.raw as int);
    let south = Fixed::of_int(h).sub(Fixed::of_int(1));
    assert(south.raw == (h - 1) * 65536);
    let two = Fixed::of_int(2);
    assert(two.raw == 131072);
    lemma_product(south, two);
    assert(two.mul(south).raw == 2 * south.raw) by {
        assert((south.raw * 131072) / 65536 == 2 * south.raw);
    }
    assert(Fixed::of_int(w).raw == w * 65536);
}

proof fn lemma_shift(v: int, t: int)
    requires
        -0x1000_0000_0000 <= v <= 0x1000_0000_0000,
        0 <= t <= 0x1_0000_0000,
    ensures
        -0x1000_0000_0000_0000 <= (v * t) / 65536 <= 0x1000_0000_0000_0000,
{
    assert(-0x1000_0000_0000_0000 * 65536 <= v * t <= 0x1000_0000_0000_0000 * 65536)
        by (nonlinear_arith)
        requires
            -0x1000_0000_0000 <= v <= 0x1000_0000_0000,
            0 <= t <= 0x1_0000_0000,
    ;
}

/// A plate sets out at its angle: east of the meridian for angles up to a quarter
/// turn either way and west of it for the others, to the south for the first half
/// of a turn and to the north for the second, at its own site, and on land exactly
/// where the noise under the site lies above the threshold.
pub proof fn plates_set_out_at_their_angle(
    i: int,
    site: Vec2<Fixed>,
    angle: Fixed,
    speed: Fixed,
    noise: Fixed,
    crust: CrustField<Fixed>,
)
    requires
        0 <= angle.raw < 2 * HALF_TURN,
        0 <= speed.raw <= 0x1_0000_0000,
        0 <= i <= u16::MAX,
    ensures
        ({
            let plate = plate_on(i, site, angle, speed, noise, crust);
            let v = plate.velocity;
            &&& plate.id == i && plate.position == site
            &&& -speed.raw <= v.x.raw <= speed.raw
            &&& -speed.raw <= v.y.raw <= speed.raw
            &&& 2 * angle.raw <= HALF_TURN || 2 * angle.raw >= 3 * HALF_TURN ==> 0 <= v.x.raw
            &&& HALF_TURN < 2 * angle.raw < 3 * HALF_TURN ==> v.x.raw <= 0
            &&& angle.raw <= HALF_TURN - 1 ==> 0 <= v.y.raw
            &&& HALF_TURN <= angle.raw ==> v.y.raw <= 0
            &&& angle.raw == 0 ==> v.x == speed
            &&& plate.crust_type is Continental <==> crust.threshold.raw < noise.raw
        }),
{
    let x = angle.cos();
    let y = angle.sin();
    let a = angle.raw as int;
    assert(a % (2 * HALF_TURN) == a) by {
        lemma_small_mod(a as nat, (2 * HALF_TURN) as nat);
    }
    let back = a - HALF_TURN / 2;
    let turned = back % (2 * HALF_TURN);
    assert(turned == if back < 0 {
        back + 2 * HALF_TURN
    } else {
        back
    }) by {
        if back < 0 {
            lemma_fundamental_div_mod_converse(back, 2 * HALF_TURN, -1, back + 2 * HALF_TURN);
        } else {
            lemma_small_mod(back as nat, (2 * HALF_TURN) as nat);
        }
    }
    let cut = |t: int|
        {
            let folded = if t > HALF_TURN {
                2 * HALF_TURN - t
            } else {
                t
            };
            if 2 * folded <= HALF_TURN {
                folded
            } else {
                HALF_TURN - folded
            }
        };
    lemma_quarter(cut(a));
    lemma_quarter(cut(turned));
    lemma_quarter(0);
    lemma_product(x, speed);
    lemma_product(y, speed);
    let s = speed.raw as int;
    lemma_scaled(x.raw as int, s);
    lemma_scaled(y.raw as int, s);
}

proof fn lemma_scaled(x: int, s: int)
    requires
        -65536 <= x <= 65536,
        0 <= s,
    ensures
        -s <= (x * s) / 65536 <= s,
        x >= 0 ==> (x * s) / 65536 >= 0,
        x <= 0 ==> (x * s) / 65536 <= 0,
        x == 65536 ==> (x * s) / 65536 == s,
{
    assert(-65536 * s <= x * s <= 65536 * s && (x >= 0 ==> x * s >= 0) && (x <= 0 ==> x * s <= 0))
        by (nonlinear_arith)
        requires
            -65536 <= x <= 65536,
            0 <= s,
    ;
}

proof fn lemma_quarter(x: int)
    requires
        0 <= 2 * x <= HALF_TURN,
    ensures
        0 <= quarter_cosine(Fixed { raw: x as i64 }).raw <= 65536,
        x == 0 ==> quarter_cosine(Fixed { raw: x as i64 }).raw == 65536,
{
    let f = Fixed { raw: x as i64 };
    let q = (x * x) / 65536;
    assert(0 <= x * x <= 102943 * 102943) by (nonlinear_arith)
        requires
            0 <= x <= 102943,
    ;
    assert(x == 0 ==> x * x == 0) by (nonlinear_arith);
    assert(f.mul(f).raw == q);
    let four = Fixed::of_int(4);
    assert(four.raw == 262144);
    assert((q * 262144) / 65536 == 4 * q);
    assert(f.mul(f).mul(four).raw == 4 * q);
    let n = HALF_TURN_SQUARED - 4 * q;
    let d = HALF_TURN_SQUARED + q;
    assert(0 <= (n * 65536) / d <= 65536 && (q == 0 ==> (n * 65536) / d == 65536))
        by (nonlinear_arith)
        requires
            0 <= n <= d,
            0 < d,
            q == 0 ==> n == d,
    ;
}

// --- across a boundary -----------------------------------------------------
/// The length of a vector, in raw units and rounded down.
pub open spec fn length_of(v: Vec2<Fixed>) -> int {
    isqrt(((v.x.raw * v.x.raw) / 65536 + (v.y.raw * v.y.raw) / 65536) * 65536)
}

/// A unit vector points the way its vector does: each of its coordinates, times
/// the length, is that of the vector, but for rounding.
pub proof fn unit_vectors_point_the_same_way(v: Vec2<Fixed>)
    requires
        -0x1000_0000 <= v.x.raw <= 0x1000_0000,
        -0x1000_0000 <= v.y.raw <= 0x1000_0000,
        1 <= length_of(v),
    ensures
        ({
            let far = length_of(v);
            let n = v.unit();
            let slack_x = (magnitude(v.x).raw * far) / 65536 + far + 1;
            let slack_y = (magnitude(v.y).raw * far) / 65536 + far + 1;
            &&& -slack_x <= n.x.raw * far - v.x.raw * 65536 <= slack_x
            &&& -slack_y <= n.y.raw * far - v.y.raw * 65536 <= slack_y
            &&& v.x.raw >= 0 ==> n.x.raw >= 0
            &&& v.x.raw <= 0 ==> n.x.raw <= 0
            &&& v.y.raw >= 0 ==> n.y.raw >= 0
            &&& v.y.raw <= 0 ==> n.y.raw <= 0
        }),
{
    let a = v.x.raw as int;
    let b = v.y.raw as int;
    assert(0 <= a * a <= 0x1000_0000 * 0x1000_0000) by (nonlinear_arith)
        requires
            -0x1000_0000 <= a <= 0x1000_0000,
    ;
    assert(0 <= b * b <= 0x1000_0000 * 0x1000_0000) by (nonlinear_arith)
        requires
            -0x1000_0000 <= b <= 0x1000_0000,
    ;
    let sum = (a * a) / 65536 + (b * b) / 65536;
    assert(v.squared().raw == sum);
    let far = lemma_root_exists(sum * 65536);
    lemma_isqrt(sum * 65536, far);
    assert(sum > 0) by {
        if sum == 0 {
            lemma_isqrt(0, 0);
        }
    }
    assert(far <= 0x1_0000_0000) by (nonlinear_arith)
        requires
            far * far <= sum * 65536,
            0 <= far,
            sum <= 0x1_0000_0000 * 0x1_0000,
    ;
    assert(v.squared().sqrt().raw == far);
    let r = (65536int * 65536) / far;
    assert(r * far <= 4_294_967_296 < r * far + far && 0 <= r <= 4_294_967_296 && 1 <= r)
        by (nonlinear_arith)
        requires
            r == (65536int * 65536) / far,
            1 <= far <= 0x1_0000_0000,
    ;
    let reciprocal = Fixed::of_int(1).div(v.squared().sqrt());
    assert(reciprocal.raw == r);
    lemma_product(v.x, reciprocal);
    lemma_product(v.y, reciprocal);
    lemma_along(a, r, far);
    lemma_along(b, r, far);
}

proof fn lemma_along(a: int, r: int, far: int)
    requires
        r * far <= 4_294_967_296 < r * far + far,
        1 <= far,
        0 <= r,
    ensures
        ({
            let n = (a * r) / 65536;
            let m = if a < 0 {
                -a
            } else {
                a
            };
            let slack = (m * far) / 65536 + far + 1;
            &&& -slack <= n * far - a * 65536 <= slack
            &&& a >= 0 ==> n >= 0
            &&& a <= 0 ==> n <= 0
        }),
{
    let n = (a * r) / 65536;
    let m = if a < 0 {
        -a
    } else {
        a
    };
    assert((a >= 0 ==> a * r >= 0) && (a <= 0 ==> a * r <= 0)) by (nonlinear_arith)
        requires
            0 <= r,
    ;
    let e = 4_294_967_296 - r * far;
    assert(0 <= e < far);
    assert((a * r) * far == a * 4_294_967_296 - a * e) by (nonlinear_arith)
        requires
            e == 4_294_967_296 - r * far,
    ;
    assert(-(m * far) <= a * e <= m * far) by (nonlinear_arith)
        requires
            0 <= e < far,
            m == if a < 0 {
                -a
            } else {
                a
            },
    ;
    let rest = a * r - n * 65536;
    assert(0 <= rest < 65536);
    assert((n * far) * 65536 == (a * r) * far - rest * far) by (nonlinear_arith)
        requires
            rest == a * r - n * 65536,
    ;
    assert(0 <= rest * far <= 65536 * far) by (nonlinear_arith)
        requires
            0 <= rest < 65536,
            1 <= far,
    ;
}

/// What the motion of two plates makes of their boundary. They close at the part of
/// their relative velocity that goes from the one toward the other, and slide by
/// the part that goes across; closing faster than the threshold converges, opening
/// faster than it diverges, anything else is a transform fault; and the boundary is
/// as strong as the motion that decides.
pub proof fn boundaries_go_by_relative_motion(
    w: int,
    plates: Seq<Plate<Fixed>>,
    cell: u32,
    a: PlateId,
    b: PlateId,
    threshold: Fixed,
)
    requires
        -0x100_0000 <= plates[a as int].velocity.x.raw <= 0x100_0000,
        -0x100_0000 <= plates[a as int].velocity.y.raw <= 0x100_0000,
        -0x100_0000 <= plates[b as int].velocity.x.raw <= 0x100_0000,
        -0x100_0000 <= plates[b as int].velocity.y.raw <= 0x100_0000,
        0 <= threshold.raw,
        ({
            let n = classified(w, plates, cell, a, b, threshold).normal;
            -131072 <= n.x.raw <= 131072 && -131072 <= n.y.raw <= 131072
        }),
    ensures
        ({
            let r = classified(w, plates, cell, a, b, threshold);
            let vx = plates[a as int].velocity.x.raw - plates[b as int].velocity.x.raw;
            let vy = plates[a as int].velocity.y.raw - plates[b as int].velocity.y.raw;
            let closing = vx * r.normal.x.raw + vy * r.normal.y.raw;
            let sliding = vy * r.normal.x.raw - vx * r.normal.y.raw;
            &&& r.cell == cell && r.plate_a == a && r.plate_b == b
            &&& closing - 131072 < 65536 * r.convergence.raw <= closing
            &&& sliding - 131072 < 65536 * r.shear.raw <= sliding
            &&& r.kind is Convergent <==> threshold.raw < r.convergence.raw
            &&& r.kind is Divergent <==> r.convergence.raw < -threshold.raw
            &&& r.kind is Convergent ==> r.strength == r.convergence
            &&& r.kind is Divergent ==> r.strength.raw == -r.convergence.raw
            &&& r.kind is Transform && r.shear.raw >= 0 ==> r.strength == r.shear
            &&& r.kind is Transform && r.shear.raw <= 0 ==> r.strength.raw == -r.shear.raw
        }),
{
    let r = classified(w, plates, cell, a, b, threshold);
    let relative = plates[a as int].velocity.taken(plates[b as int].velocity);
    let nx = r.normal.x;
    let ny = r.normal.y;
    lemma_product(relative.x, nx);
    lemma_product(relative.y, ny);
    lemma_product(relative.x, ny.neg());
    lemma_product(relative.y, nx);
    let vx = relative.x.raw as int;
    let vy = relative.y.raw as int;
    assert(ny.neg().raw == -ny.raw);
    assert(vx * (-ny.raw) == -(vx * ny.raw)) by (nonlinear_arith);
    lemma_part(vx, nx.raw as int);
    lemma_part(vy, ny.raw as int);
    lemma_part(vx, ny.raw as int);
    lemma_part(vy, nx.raw as int);
}

proof fn lemma_part(v: int, n: int)
    requires
        -0x200_0000 <= v <= 0x200_0000,
        -131072 <= n <= 131072,
    ensures
        -0x400_0000 * 65536 <= v * n <= 0x400_0000 * 65536,
{
    assert(-0x400_0000 * 65536 <= v * n <= 0x400_0000 * 65536) by (nonlinear_arith)
        requires
            -0x200_0000 <= v <= 0x200_0000,
            -131072 <= n <= 131072,
    ;
}

/// The way from one site to the other, as seen from a cell: each of the two legs
/// is the short way around the world.
pub open spec fn way_between(w: int, here: Plate<Fixed>, there: Plate<Fixed>, cell: u32) -> Vec2<
    Fixed,
> {
    let x = Fixed::of_int(cell as int % w);
    let period = Fixed::of_int(w);
    Vec2 {
        x: wrapped_difference(there.position.x, x, period).sub(
            wrapped_difference(here.position.x, x, period),
        ),
        y: there.position.y.sub(here.position.y),
    }
}

/// The normal of a boundary points from the plate that the cell belongs to toward
/// the other one: along the way between their sites, each leg of which goes the
/// short way around the world to a cell.
pub proof fn normals_point_across_the_boundary(
    w: int,
    plates: Seq<Plate<Fixed>>,
    cell: u32,
    a: PlateId,
    b: PlateId,
    threshold: Fixed,
)
    requires
        0 < w <= 0x800,
        cell / (w as u32) <= 0x800,
        0 <= plates[a as int].position.x.raw < w * 65536,
        0 <= plates[b as int].position.x.raw < w * 65536,
        0 <= plates[a as int].position.y.raw <= 0x800_0000,
        0 <= plates[b as int].position.y.raw <= 0x800_0000,
        1 <= length_of(way_between(w, plates[a as int], plates[b as int], cell)),
    ensures
        ({
            let n = classified(w, plates, cell, a, b, threshold).normal;
            let pa = plates[a as int].position;
            let pb = plates[b as int].position;
            let way = way_between(w, plates[a as int], plates[b as int], cell);
            let far = length_of(way);
            let slack_x = (magnitude(way.x).raw * far) / 65536 + far + 1;
            let slack_y = (magnitude(way.y).raw * far) / 65536 + far + 1;
            &&& way.y.raw == pb.y.raw - pa.y.raw
            &&& (pb.x.raw - pa.x.raw - way.x.raw) % (w * 65536) == 0
            &&& -slack_x <= n.x.raw * far - way.x.raw * 65536 <= slack_x
            &&& -slack_y <= n.y.raw * far - way.y.raw * 65536 <= slack_y
            &&& way.x.raw >= 0 ==> n.x.raw >= 0
            &&& way.x.raw <= 0 ==> n.x.raw <= 0
            &&& way.y.raw >= 0 ==> n.y.raw >= 0
            &&& way.y.raw <= 0 ==> n.y.raw <= 0
        }),
{
    let pa = plates[a as int].position;
    let pb = plates[b as int].position;
    let cx = Fixed::of_int(cell as int % w);
    let cy = Fixed::of_int(cell as int / w);
    let period = Fixed::of_int(w);
    assert(0 <= cell as int % w < w && 0 <= cell as int / w <= 0x800);
    assert(period.raw == w * 65536);
    wrapped_difference_is_the_short_way(pa.x, cx, period);
    wrapped_difference_is_the_short_way(pb.x, cx, period);
    let p = w * 65536;
    let da = wrapped_difference(pa.x, cx, period).raw as int;
    let db = wrapped_difference(pb.x, cx, period).raw as int;
    let ra = pa.x.raw - cx.raw - da;
    let rb = pb.x.raw - cx.raw - db;
    assert(ra % p == 0 && rb % p == 0);
    assert((rb - ra) % p == 0) by {
        lemma_sub_mod_noop(rb, ra, p);
        lemma_small_mod(0, p as nat);
    }
    let to_a = delta_between(w, pa.x, pa.y, cx, cy);
    let to_b = delta_between(w, pb.x, pb.y, cx, cy);
    let way = way_between(w, plates[a as int], plates[b as int], cell);
    assert(to_b.taken(to_a) == way);
    unit_vectors_point_the_same_way(way);
}

} // verus!
