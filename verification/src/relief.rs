//! How light falls on the terrain.

use crate::curves::lemma_product;
use crate::fixed::{is_root, lemma_isqrt, lemma_root_exists, Fixed};
use crate::render::{height_beside, lit};
use crate::scalar::Scalar;
use crate::world::lemma_cell_in_grid;
use vstd::arithmetic::div_mod::lemma_fundamental_div_mod_converse;
use vstd::prelude::*;

verus! {

/// The slope that light is reckoned with, of a difference in height between the
/// cells on either side.
spec fn slope(d: int) -> int {
    (((d * 32768) / 65536) * 144179) / 65536
}

/// How light a slope is, before it is held between its limits.
spec fn glare(a: int, b: int, len: int) -> int {
    let sun = (a * 36045) / 65536 - (-b * 36045) / 65536 + 41287;
    36044 + (49152 * ((sun * 65536) / len)) / 65536
}

proof fn lemma_slope(d: int)
    requires
        -0x8000_0000 <= d <= 0x8000_0000,
    ensures
        d <= 0 ==> slope(d) <= 0,
        d >= 0 ==> slope(d) >= 0,
        d == 0 ==> slope(d) == 0,
        0 <= d <= 59000 ==> d - 5 <= slope(d) <= 65536,
        -0x1_2000_0000 <= slope(d) <= 0x1_2000_0000,
{
}

proof fn lemma_glare(a: int, b: int, len: int)
    requires
        is_root(len, ((a * a) / 65536 + (b * b) / 65536 + 65536) * 65536),
    ensures
        len >= 65536,
        a == 0 && b == 0 ==> len == 65536 && glare(a, b, len) == 67009,
        a <= 0 && b <= 0 ==> glare(a, b, len) <= 67009,
        0 <= a <= 65536 && 0 <= b <= 65536 ==> 20 * (glare(a, b, len) - 67009) >= a + b - 150,
{
    let p = (a * a) / 65536;
    let q = (b * b) / 65536;
    assert(0 <= a * a && 0 <= b * b) by (nonlinear_arith);
    let sum = p + q + 65536;
    assert(len >= 65536) by (nonlinear_arith)
        requires
            is_root(len, sum * 65536),
            sum >= 65536,
    ;
    let sun = (a * 36045) / 65536 - (-b * 36045) / 65536 + 41287;
    let dot = (sun * 65536) / len;
    if a <= 0 && b <= 0 {
        assert(sun <= 41287);
        assert(dot <= 41287) by (nonlinear_arith)
            requires
                dot == (sun * 65536) / len,
                sun <= 41287,
                len >= 65536,
        ;
    }
    if a == 0 && b == 0 {
        assert(a * a == 0 && b * b == 0) by (nonlinear_arith)
            requires
                a == 0,
                b == 0,
        ;
        assert(is_root(65536, sum * 65536));
        lemma_isqrt(sum * 65536, 65536);
        lemma_isqrt(sum * 65536, len);
    }
    if 0 <= a <= 65536 && 0 <= b <= 65536 {
        assert(a * a <= 65536 * a && b * b <= 65536 * b) by (nonlinear_arith)
            requires
                0 <= a <= 65536,
                0 <= b <= 65536,
        ;
        let m = 131072 + a + b;
        assert(len * len <= 65536 * a + 65536 * b + 4_294_967_296);
        assert(4 * (65536 * a + 65536 * b + 4_294_967_296) <= m * m) by (nonlinear_arith)
            requires
                m == 131072 + a + b,
                0 <= a,
                0 <= b,
        ;
        assert(2 * len <= m) by (nonlinear_arith)
            requires
                4 * (len * len) <= m * m,
                0 <= len,
                0 <= m,
        ;
        let s = a + b;
        assert(sun * 65536 >= 36045 * s - 65536 + 41287 * 65536);
        let least = 41285 + (15000 * s) / 131072;
        assert(least * len <= sun * 65536) by {
            let part = (15000 * s) / 131072;
            assert(part * len <= 15000 * s) by (nonlinear_arith)
                requires
                    part == (15000 * s) / 131072,
                    0 <= len <= 131072,
                    0 <= s,
            ;
            assert(least * len == 41285 * len + part * len) by (nonlinear_arith)
                requires
                    least == 41285 + part,
            ;
        }
        assert(dot >= least) by (nonlinear_arith)
            requires
                dot == (sun * 65536) / len,
                least * len <= sun * 65536,
                len > 0,
        ;
    }
}

/// The sun stands in the north-west. Level ground is lit evenly; ground that falls
/// off to the south-east is never lighter than that; ground that gently rises to
/// the south-east is lighter, the more it rises, but for rounding; and no ground is
/// quite dark or glaring.
pub proof fn the_sun_stands_in_the_north_west(
    w: int,
    h: int,
    elevation: Seq<Fixed>,
    x: int,
    y: int,
)
    requires
        1 < w,
        0 <= x < w,
        0 < y < h - 1,
        elevation.len() == w * h,
        forall|c: int|
            0 <= c < w * h ==> -0x4000_0000 <= (#[trigger] elevation[c]).raw <= 0x4000_0000,
    ensures
        ({
            let light = lit(w, h, elevation, y * w + x).raw;
            let east = elevation[y * w + (x + 1) % w].raw;
            let west = elevation[y * w + (x - 1) % w].raw;
            let south = elevation[(y + 1) * w + x].raw;
            let north = elevation[(y - 1) * w + x].raw;
            &&& 22937 <= light <= 88473
            &&& east == west && south == north ==> light == 67009
            &&& east <= west && south <= north ==> light <= 67009
            &&& 0 <= east - west <= 59000 && 0 <= south - north <= 59000 ==> {
                ||| light >= 88473
                ||| 20 * (light - 67009) >= (east - west) + (south - north) - 200
            }
        }),
{
    let c = y * w + x;
    lemma_fundamental_div_mod_converse(c, w, y, x);
    assert(c % w == x && c / w == y);
    assert((x + 0) % w == x) by {
        lemma_fundamental_div_mod_converse(x, w, 0, x);
    }
    let east = height_beside(w, h, elevation, c, 1, 0);
    let west = height_beside(w, h, elevation, c, -1, 0);
    let south = height_beside(w, h, elevation, c, 0, 1);
    let north = height_beside(w, h, elevation, c, 0, -1);
    assert(east == elevation[y * w + (x + 1) % w]);
    assert(west == elevation[y * w + (x - 1) % w]);
    assert(south == elevation[(y + 1) * w + x]);
    assert(north == elevation[(y - 1) * w + x]);
    lemma_cell_in_grid(w, h, (x + 1) % w, y);
    lemma_cell_in_grid(w, h, (x - 1) % w, y);
    lemma_cell_in_grid(w, h, x, y + 1);
    lemma_cell_in_grid(w, h, x, y - 1);
    let dx = east.raw - west.raw;
    let dy = south.raw - north.raw;
    lemma_slope(dx);
    lemma_slope(dy);
    let half = Fixed::ratio(1, 2);
    let steep = Fixed::ratio(22, 10);
    let slant = Fixed::ratio(-55, 100);
    assert(half.raw == 32768 && steep.raw == 144179 && slant.raw == -36045);
    assert(Fixed::ratio(63, 100).raw == 41287 && Fixed::ratio(55, 100).raw == 36044
        && Fixed::ratio(75, 100).raw == 49152);
    assert(Fixed::ratio(35, 100).raw == 22937 && Fixed::ratio(135, 100).raw == 88473);
    let ax = east.sub(west).mul(half).mul(steep);
    let ay = south.sub(north).mul(half).mul(steep);
    let a = slope(dx);
    let b = slope(dy);
    assert(ax.raw == a && ay.raw == b) by {
        lemma_product(east.sub(west), half);
        lemma_product(south.sub(north), half);
        lemma_product(east.sub(west).mul(half), steep);
        lemma_product(south.sub(north).mul(half), steep);
    }
    assert(0 <= a * a <= 0x1_2000_0000 * 0x1_2000_0000) by (nonlinear_arith)
        requires
            -0x1_2000_0000 <= a <= 0x1_2000_0000,
    ;
    assert(0 <= b * b <= 0x1_2000_0000 * 0x1_2000_0000) by (nonlinear_arith)
        requires
            -0x1_2000_0000 <= b <= 0x1_2000_0000,
    ;
    let sum = (a * a) / 65536 + (b * b) / 65536 + 65536;
    let square = ax.mul(ax).add(ay.mul(ay)).add(Fixed::of_int(1));
    assert(square.raw == sum);
    let len = lemma_root_exists(sum * 65536);
    lemma_isqrt(sum * 65536, len);
    lemma_glare(a, b, len);
    assert(len <= 0x4_0000_0000) by (nonlinear_arith)
        requires
            len * len <= sum * 65536,
            sum <= 0x3_0000_0000 * 0x1_0000,
            0 <= len,
    ;
    assert(square.sqrt().raw == len);
    lemma_product(ax.neg(), slant);
    lemma_product(ay, slant);
    assert(-a * -36045 == a * 36045 && b * -36045 == -b * 36045);
    let sun = (a * 36045) / 65536 - (-b * 36045) / 65536 + 41287;
    let bright = ax.neg().mul(slant).sub(ay.mul(slant)).add(Fixed::ratio(63, 100));
    assert(bright.raw == sun);
    let q = (sun * 65536) / len;
    assert(-0x4_0000_0000 <= q <= 0x4_0000_0000) by (nonlinear_arith)
        requires
            q == (sun * 65536) / len,
            -0x3_0000_0000 <= sun <= 0x3_0000_0000,
            len >= 65536,
    ;
    let dot = bright.div(square.sqrt());
    assert(dot.raw == q);
    lemma_product(dot, Fixed::ratio(75, 100));
    assert(q * 49152 == 49152 * q);
}

} // verus!
