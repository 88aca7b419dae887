//! Where it rains: the bands of latitude, and what mountains do to them.

use crate::curves::{
    exponentials_fall, lemma_exponential_of_four, lemma_exponential_of_one,
    lemma_exponential_of_quarter, lemma_exponential_of_zero, lemma_product, lemma_times_one, raw,
};
use crate::fixed::Fixed;
use crate::hydrology::{
    band_rain, climb_to, fixed_rain_follows_the_terrain, rain_at, rain_from_above,
    winds_go_by_latitude, HydrologyParams,
};
use crate::math::smoothstep_is_flat_outside_its_edges;
use crate::scalar::{larger, magnitude, Scalar};
use crate::world::{cell_index, latitude_of, lemma_row_in_grid};
use vstd::prelude::*;

verus! {

// --- latitude bands --------------------------------------------------------
/// The gaussian of a latitude: a distance of `d` over a width of `width`
/// degrees, squared.
proof fn lemma_band(d: int, width: int)
    requires
        -0x100_0000 <= d <= 0x100_0000,
        11 <= width <= 16,
    ensures
        ({
            let t = raw(d).div(Fixed::of_int(width));
            let e = t.mul(t).neg().exp().raw;
            &&& t.mul(t).neg().raw <= 0
            &&& 0 <= e <= 65536
            &&& -width * 32768 <= d <= width * 32768 ==> e >= 50994
            &&& !(-width * 65536 < d < width * 65536) ==> e <= 24022
            &&& !(-width * 131072 < d < width * 131072) ==> e <= 1182
        }),
{
    let w = width * 65536;
    let t = raw(d).div(Fixed::of_int(width));
    assert(Fixed::of_int(width).raw == w);
    let q = (d * 65536) / w;
    assert(q == d / width) by (nonlinear_arith)
        requires
            q == (d * 65536) / (width * 65536),
            width > 0,
    ;
    assert(-0x100_0000 <= q <= 0x100_0000) by (nonlinear_arith)
        requires
            -0x100_0000 <= d <= 0x100_0000,
            q == d / width,
            width >= 11,
    ;
    assert(t.raw == q);
    lemma_product(t, t);
    assert(0 <= q * q <= 0x100_0000 * 0x100_0000) by (nonlinear_arith)
        requires
            -0x100_0000 <= q <= 0x100_0000,
    ;
    let x = t.mul(t).neg();
    assert(x.raw == -((q * q) / 65536));
    lemma_exponential_of_zero();
    exponentials_fall(raw(0), x);
    if -width * 32768 <= d <= width * 32768 {
        assert(-32768 <= q <= 32768) by (nonlinear_arith)
            requires
                -width * 32768 <= d <= width * 32768,
                q == d / width,
                width > 0,
        ;
        assert(q * q <= 32768 * 32768) by (nonlinear_arith)
            requires
                -32768 <= q <= 32768,
        ;
        lemma_exponential_of_quarter();
        exponentials_fall(x, raw(-16384));
    }
    if !(-width * 65536 < d < width * 65536) {
        assert(q <= -65536 || q >= 65536) by (nonlinear_arith)
            requires
                d <= -width * 65536 || d >= width * 65536,
                q == d / width,
                width > 0,
        ;
        assert(q * q >= 65536 * 65536) by (nonlinear_arith)
            requires
                q <= -65536 || q >= 65536,
        ;
        lemma_exponential_of_one();
        exponentials_fall(raw(-65536), x);
    }
    if !(-width * 131072 < d < width * 131072) {
        assert(q <= -131072 || q >= 131072) by (nonlinear_arith)
            requires
                d <= -width * 131072 || d >= width * 131072,
                q == d / width,
                width > 0,
        ;
        assert(q * q >= 131072 * 131072) by (nonlinear_arith)
            requires
                q <= -131072 || q >= 131072,
        ;
        lemma_exponential_of_four();
        exponentials_fall(raw(-262144), x);
    }
}

/// Bounds on the rain of a band, from where it lies.
proof fn lemma_band_rain(lat: Fixed)
    requires
        -0x80_0000 <= lat.raw <= 0x80_0000,
    ensures
        ({
            let r = band_rain(lat).raw;
            let a = magnitude(lat).raw;
            &&& 0 <= r <= 98303
            &&& a <= 5 * 65536 ==> r >= 48000
            &&& a >= 22 * 65536 ==> r <= 37200
            &&& 44 * 65536 <= a <= 60 * 65536 ==> r >= 28000
            &&& 22 * 65536 <= a <= 36 * 65536 || a >= 68 * 65536 ==> r <= 14400
        }),
{
    let a = magnitude(lat).raw as int;
    let d = lat.raw as int;
    assert(a == d || a == -d);
    lemma_band(d, 11);
    lemma_band(a - 52 * 65536, 16);
    let t = lat.div(Fixed::of_int(11));
    assert(lat == raw(d));
    let itcz = t.mul(t).neg().exp();
    let off = magnitude(lat).sub(Fixed::of_int(52));
    assert(off == raw(a - 52 * 65536));
    let u = off.div(Fixed::of_int(16));
    let storm = u.mul(u).neg().exp();
    assert(Fixed::ratio(55, 100).raw == 36044 && Fixed::ratio(95, 100).raw == 62259);
    lemma_product(Fixed::ratio(55, 100), storm);
    lemma_product(Fixed::ratio(95, 100), itcz);
    assert(band_rain(lat).raw == (62259 * itcz.raw) / 65536 + (36044 * storm.raw) / 65536);
}

/// It rains most along the equator, hardly at all in the subtropics, and again
/// in the mid-latitudes, on both hemispheres: every latitude near the equator is
/// wetter than all from 22 degrees on, and every one along the storm tracks is
/// wetter than all of the subtropics and than all near the poles. No band has
/// less than no rain.
pub proof fn rain_comes_in_bands(wet: Fixed, dry: Fixed)
    requires
        -0x80_0000 <= wet.raw <= 0x80_0000,
        -0x80_0000 <= dry.raw <= 0x80_0000,
    ensures
        ({
            let a = magnitude(wet).raw;
            let b = magnitude(dry).raw;
            &&& 0 <= band_rain(dry).raw
            &&& a <= 5 * 65536 && 22 * 65536 <= b ==> band_rain(dry).lt(band_rain(wet))
            &&& 44 * 65536 <= a <= 60 * 65536 && (22 * 65536 <= b <= 36 * 65536 || 68 * 65536 <= b)
                ==> band_rain(dry).lt(band_rain(wet))
        }),
{
    lemma_band_rain(wet);
    lemma_band_rain(dry);
}

// --- from the sky to the ground --------------------------------------------
/// Rain from above follows its band: without noise it is the rain of the band
/// and the base rainfall together, more noise never makes it less, it never
/// falls short of the base rainfall, and what is added to the base rainfall is
/// added to the rain.
pub proof fn rain_follows_its_band(
    p: HydrologyParams<Fixed>,
    w: int,
    h: int,
    noise: Seq<Fixed>,
    more: Seq<Fixed>,
    base: Fixed,
    c: int,
)
    requires
        0 <= p.base_rainfall.raw <= 0x100_0000,
        0 <= base.raw <= 0x100_0000,
        0 <= p.rain_noise.raw <= 0x100_0000,
        -0x100_0000 <= noise[c].raw <= more[c].raw <= 0x100_0000,
        ({
            let lat = latitude_of::<Fixed>(h, c / w);
            -0x80_0000 <= lat.raw <= 0x80_0000
        }),
    ensures
        ({
            let band = band_rain(latitude_of::<Fixed>(h, c / w)).raw;
            let rain = rain_from_above(p, h, w, noise, c).raw;
            let other = rain_from_above(
                (HydrologyParams { base_rainfall: base, ..p }),
                h,
                w,
                noise,
                c,
            ).raw;
            &&& p.rain_noise.raw == 0 || noise[c].raw == 0 ==> rain == band + p.base_rainfall.raw
            &&& p.base_rainfall.raw <= rain
            &&& rain <= rain_from_above(p, h, w, more, c).raw
            &&& rain - p.base_rainfall.raw == other - base.raw
            &&& p.rain_noise.raw == 65536 && 0 <= noise[c].raw ==> rain == band + noise[c].raw
                + p.base_rainfall.raw
        }),
{
    let lat = latitude_of::<Fixed>(h, c / w);
    lemma_band_rain(lat);
    lemma_product(p.rain_noise, noise[c]);
    lemma_product(p.rain_noise, more[c]);
    let k = p.rain_noise.raw as int;
    let a = noise[c].raw as int;
    let b = more[c].raw as int;
    assert(k * a <= k * b && -0x1_0000_0000_0000 <= k * a && k * b <= 0x1_0000_0000_0000 && (k == 0
        || a == 0 ==> k * a == 0) && (k == 65536 ==> k * a == 65536 * a)) by (nonlinear_arith)
        requires
            0 <= k <= 0x100_0000,
            -0x100_0000 <= a <= b <= 0x100_0000,
    ;
    let band = band_rain(lat).raw as int;
    let x = (k * a) / 65536;
    let y = (k * b) / 65536;
    assert(x <= y);
    if k == 65536 {
        assert(k * a == 65536 * a);
        assert((65536 * a) / 65536 == a) by (nonlinear_arith);
    }
    if k == 0 || a == 0 {
        assert(k * a == 0);
        assert(x == 0);
    }
    let low = if band + x < 0 {
        0
    } else {
        band + x
    };
    let high = if band + y < 0 {
        0
    } else {
        band + y
    };
    assert(p.rain_noise.mul(noise[c]).raw == x && p.rain_noise.mul(more[c]).raw == y);
    assert(rain_from_above(p, h, w, noise, c).raw == low + p.base_rainfall.raw);
    assert(rain_from_above(p, h, w, more, c).raw == high + p.base_rainfall.raw);
    let q = HydrologyParams { base_rainfall: base, ..p };
    assert(rain_from_above(q, h, w, noise, c).raw == low + base.raw);
}

/// The cell that the air over cell `c` comes from: the one to the east in the
/// trade winds and near the poles, and the one to the west between them.
pub open spec fn windward_of(w: int, h: int, c: int) -> int {
    let a = magnitude(latitude_of::<Fixed>(h, c / w));
    let eastern = a.lt(Fixed::of_int(30)) || !a.lt(Fixed::of_int(60));
    if eastern {
        cell_index(w, (c % w + 1) % w, c / w)
    } else {
        cell_index(w, (c % w - 1) % w, c / w)
    }
}

/// Mountains take the rain out of the wind. Land that stands above the cell that
/// the air comes from, or above the sea there, gets at least its rain from
/// above, and with two and a half units of climb the full orographic gain on top
/// of it. Land that lies below it gets no more, down to what the full rain shadow
/// leaves. Level land and the sea get their rain from above.
pub proof fn rain_falls_where_the_air_climbs(
    p: HydrologyParams<Fixed>,
    w: int,
    h: int,
    elevation: Seq<Fixed>,
    sea: Fixed,
    noise: Seq<Fixed>,
    c: int,
)
    requires
        0 < w,
        0 <= c < w * h,
        0 <= p.base_rainfall.raw,
        0 <= p.orographic_gain.raw,
        0 <= p.rain_shadow.raw,
    ensures
        ({
            let here = elevation[c].raw;
            let there = if elevation[windward_of(w, h, c)].raw < sea.raw {
                sea.raw
            } else {
                elevation[windward_of(w, h, c)].raw
            };
            let above = rain_from_above(p, h, w, noise, c);
            let rain = rain_at(p, w, h, elevation, sea, noise, c);
            let gained = above.mul(Fixed::of_int(1).add(p.orographic_gain));
            let left = above.div(Fixed::of_int(1).add(p.rain_shadow));
            &&& here <= sea.raw || here == there ==> rain == above
            &&& here > sea.raw && here > there ==> above.le(rain)
            &&& here > sea.raw && here - there >= 163840 ==> rain == gained
            &&& here > sea.raw && here < there ==> rain.le(above) && left.le(rain)
            &&& here > sea.raw && there - here >= 163840 ==> rain == left
        }),
{
    lemma_row_in_grid(w, h, c);
    let lat = latitude_of::<Fixed>(h, c / w);
    winds_go_by_latitude(lat);
    let up = windward_of(w, h, c);
    fixed_rain_follows_the_terrain(p, w, h, elevation, sea, noise, c);
    let climb = climb_to(w, h, elevation, sea, c);
    assert(climb == elevation[c].sub(larger(elevation[up], sea)));
    let steep = Fixed::ratio(5, 2);
    let zero = Fixed::of_int(0);
    assert(steep.raw == 163840);
    smoothstep_is_flat_outside_its_edges(zero, steep, climb);
    smoothstep_is_flat_outside_its_edges(zero, steep, climb.neg());
    lemma_times_one(p.orographic_gain);
    lemma_times_one(p.rain_shadow);
}

} // verus!
