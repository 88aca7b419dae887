//! What is read off a world: quantiles, the spread of its noise, and samples.

use crate::curves::lemma_product;
use crate::fixed::{is_root, lemma_isqrt, lemma_root_exists, Fixed};
use crate::math::{finite_among, quantile, Vec2};
use crate::motion::plates_set_out_at_their_angle;
use crate::noise::{
    deviation, gain_for, probe, stride, total, total_of_squares, Cylinder, PROBES,
};
use crate::plate::{plate_on, CrustField};
use crate::query::{interpolated, Sample};
use crate::scalar::{full_turn, Scalar};
use crate::select::{quantile_place, ranked_by, sorted_values_are_values};
use crate::simulation::Simulation;
use crate::world::lemma_cell_in_grid;
use vstd::prelude::*;

verus! {

// --- quantiles -------------------------------------------------------------
proof fn lemma_all_are_finite(data: Seq<Fixed>, n: nat)
    requires
        n <= data.len(),
    ensures
        finite_among(data, n) =~= data.take(n as int),
    decreases n,
{
    if n > 0 {
        lemma_all_are_finite(data, (n - 1) as nat);
        assert(data.take(n as int) =~= data.take(n - 1).push(data[n - 1]));
    }
}

proof fn lemma_counted(v: Seq<Fixed>, r: int)
    ensures
        ranked_by(v, r, v.len()) == v.filter(|x: Fixed| x.raw <= r).len(),
    decreases v.len(),
{
    reveal(Seq::filter);
    if v.len() > 0 {
        lemma_counted(v.drop_last(), r);
        lemma_fewer(v, r, (v.len() - 1) as nat);
    }
}

proof fn lemma_fewer(v: Seq<Fixed>, r: int, n: nat)
    requires
        n < v.len(),
    ensures
        ranked_by(v, r, n) == ranked_by(v.drop_last(), r, n),
    decreases n,
{
    if n > 0 {
        lemma_fewer(v, r, (n - 1) as nat);
    }
}

/// A quantile splits the values at its share: it is one of them, no more of them lie
/// below it than its place says, and more than that lie no higher; and the place is
/// the whole number nearest to the share of the way from the lowest to the highest.
pub proof fn quantiles_split_the_values(data: Seq<Fixed>, q: Fixed) -> (place: int)
    requires
        0 < data.len() <= 0x1000_0000,
        0 <= q.raw <= 65536,
    ensures
        ({
            let v = quantile(data, q).raw;
            &&& data.contains(quantile(data, q))
            &&& data.filter(|x: Fixed| x.raw <= v - 1).len() <= place < data.filter(
                |x: Fixed| x.raw <= v as int,
            ).len()
            &&& -32768 <= (data.len() - 1) * q.raw - 65536 * place <= 32768
            &&& 0 <= place < data.len()
        }),
{
    let n = data.len() as int;
    lemma_all_are_finite(data, data.len());
    assert(data.take(n) =~= data);
    let k = quantile_place(n, q);
    let most = Fixed::of_int(n - 1);
    assert(most.raw == (n - 1) * 65536);
    lemma_product(most, q);
    let p = (n - 1) * q.raw;
    assert((((n - 1) * 65536) * q.raw) / 65536 == p && 0 <= p <= (n - 1) * 65536)
        by (nonlinear_arith)
        requires
            p == (n - 1) * q.raw,
            0 <= q.raw <= 65536,
            1 <= n,
    ;
    assert(most.mul(q).raw == p);
    sorted_values_are_values(data, k);
    let v = quantile(data, q).raw as int;
    lemma_counted(data, v);
    lemma_counted(data, v - 1);
    k
}

// --- noise -----------------------------------------------------------------
/// The values of a field added up, and their squares.
pub open spec fn sums_of(values: Seq<Fixed>, n: nat) -> (int, int)
    decreases n,
{
    if n == 0 {
        (0, 0)
    } else {
        let (sum, squares) = sums_of(values, (n - 1) as nat);
        let v = values[n - 1].raw;
        (sum + v, squares + (v * v) / 65536)
    }
}

/// The sums over a field are those of its values and of their squares.
pub proof fn tallies_add_up(values: Seq<Fixed>, n: nat)
    requires
        n <= values.len() <= 0x1_0000_0000,
        forall|i: int|
            0 <= i < values.len() ==> -0x1_0000_0000 <= (#[trigger] values[i]).raw <= 0x1_0000_0000,
    ensures
        total(values, n) == sums_of(values, n).0,
        total_of_squares(values, n) == sums_of(values, n).1,
        -0x1_0000_0000 * n <= sums_of(values, n).0 <= 0x1_0000_0000 * n,
        0 <= sums_of(values, n).1 <= 0x1_0000_0000_0000 * n,
    decreases n,
{
    if n > 0 {
        tallies_add_up(values, (n - 1) as nat);
        let v = values[n - 1];
        lemma_product(v, v);
        let x = v.raw as int;
        assert(0 <= x * x <= 0x1_0000_0000 * 0x1_0000_0000) by (nonlinear_arith)
            requires
                -0x1_0000_0000 <= x <= 0x1_0000_0000,
        ;
    }
}

/// The spread of a field is the root of the mean square less the square of the mean,
/// over all of its probes.
pub proof fn spread_is_the_standard_deviation(sum: Fixed, squares: Fixed)
    requires
        -0x1_0000_0000_0000 <= sum.raw <= 0x1_0000_0000_0000,
        0 <= squares.raw <= 0x1000_0000_0000_0000,
    ensures
        ({
            let mean = sum.raw as int / 2048;
            let variance = squares.raw as int / 2048 - (mean * mean) / 65536;
            let d = deviation(sum, squares, PROBES as int).raw as int;
            &&& variance <= 0 ==> d == 0
            &&& variance >= 0 ==> is_root(d, variance * 65536)
        }),
{
    let n = Fixed::of_int(2048);
    assert(n.raw == 2048 * 65536);
    let a = sum.raw as int;
    let b = squares.raw as int;
    assert((a * 65536) / 134_217_728 == a / 2048 && (b * 65536) / 134_217_728 == b / 2048);
    let mean = a / 2048;
    assert(0 <= mean * mean <= 0x20_0000_0000 * 0x20_0000_0000) by (nonlinear_arith)
        requires
            -0x20_0000_0000 <= mean <= 0x20_0000_0000,
    ;
    let variance = b / 2048 - (mean * mean) / 65536;
    assert(Fixed::ratio(1, 1_000_000_000_000).raw == 0);
    if variance > 0 {
        let r = lemma_root_exists(variance * 65536);
        lemma_isqrt(variance * 65536, r);
        assert(r <= 0x1_0000_0000_0000) by (nonlinear_arith)
            requires
                r * r <= variance * 65536,
                variance <= 0x100_0000_0000_0000,
                0 <= r,
        ;
    }
}

/// Fields are brought to one spread: the gain times the spread is thirty-two
/// hundredths, but for rounding, unless the gain would have to be more than eight or
/// less than a half.
pub proof fn gains_bring_fields_to_one_spread(spread: Fixed)
    requires
        0 < spread.raw,
    ensures
        ({
            let gain = gain_for(spread).raw;
            &&& 32768 <= gain <= 524288
            &&& 2622 <= spread.raw <= 41942 ==> -spread.raw < gain * spread.raw - 20971 * 65536 <= 0
            &&& spread.raw <= 2621 ==> gain == 524288
            &&& spread.raw >= 41943 ==> gain == 32768
        }),
{
    assert(Fixed::ratio(32, 100).raw == 20971 && Fixed::ratio(1, 2).raw == 32768);
    let s = spread.raw as int;
    let q = (20971int * 65536) / s;
    assert(q * s <= 20971 * 65536 < q * s + s) by (nonlinear_arith)
        requires
            q == (20971int * 65536) / s,
            0 < s,
    ;
    assert(s <= 2621 ==> q >= 524288) by (nonlinear_arith)
        requires
            20971 * 65536 < q * s + s,
            0 < s,
    ;
    assert(s >= 41943 ==> q <= 32768) by (nonlinear_arith)
        requires
            q * s <= 20971 * 65536,
    ;
    assert(2622 <= s <= 41942 ==> 32768 <= q <= 524288) by (nonlinear_arith)
        requires
            q * s <= 20971 * 65536 < q * s + s,
            0 < s,
    ;
    assert(0 <= q <= 20971 * 65536) by (nonlinear_arith)
        requires
            q == (20971int * 65536) / s,
            0 < s,
    ;
}

/// A row of the world goes once around a circle: as many features long as fit side
/// by side around the world, east and west on its two sides, and rows lie above
/// each other as far as their features are high.
pub proof fn rows_go_around_a_circle(width: int, feature_size: Fixed, x: Fixed, y: Fixed)
    requires
        0 < width <= 0x4_0000,
        65536 <= feature_size.raw <= 0x1_0000_0000,
        0 <= x.raw < width * 65536,
        -0x1000_0000_0000 <= y.raw <= 0x1000_0000_0000,
    ensures
        ({
            let c = Cylinder::around(width, feature_size);
            let p = c.spot(x, y);
            let features = (width * 65536 * 65536) / feature_size.raw as int;
            let way = x.raw as int / width;
            let radius = c.radius.raw;
            &&& radius * 411_774 <= features * 65536 < (radius + 1) * 411_774
            &&& p.len() == 3
            &&& -radius <= p[0].raw <= radius && -radius <= p[1].raw <= radius
            &&& way <= 16383 || way >= 49153 ==> 0 <= p[0].raw
            &&& 16386 <= way <= 49150 ==> p[0].raw <= 0
            &&& way <= 32766 ==> 0 <= p[1].raw
            &&& 32770 <= way ==> p[1].raw <= 0
            &&& x.raw == 0 ==> p[0].raw == radius
            &&& p[2].raw == (y.raw * ((65536int * 65536) / feature_size.raw as int)) / 65536
        }),
{
    let c = Cylinder::around(width, feature_size);
    let f = feature_size.raw as int;
    let n = width * 65536;
    assert(Fixed::of_int(width).raw == n);
    let turn: Fixed = full_turn();
    assert(turn.raw == 411_774);
    let features = (n * 65536) / f;
    assert(0 <= features <= n) by (nonlinear_arith)
        requires
            features == (n * 65536) / f,
            65536 <= f,
            0 <= n,
    ;
    assert(Fixed::of_int(width).div(feature_size).raw == features);
    let radius = (features * 65536) / 411_774;
    assert(c.radius.raw == radius);
    let way = (x.raw * 65536) / n;
    assert(way == x.raw as int / width && 0 <= way < 65536) by (nonlinear_arith)
        requires
            way == (x.raw * 65536) / n,
            n == width * 65536,
            0 <= x.raw < n,
            0 < width,
    ;
    assert(x.div(c.width).raw == way);
    lemma_product(x.div(c.width), turn);
    let angle = c.turn(x);
    assert(angle.raw == (way * 411_774) / 65536);
    let site = Vec2 { x, y };
    let crust = CrustField { threshold: x };
    plates_set_out_at_their_angle(0, site, angle, c.radius, x, crust);
    let v = plate_on(0, site, angle, c.radius, x, crust).velocity;
    assert(v.x == c.radius.mul(angle.cos())) by {
        assert(angle.cos().raw * c.radius.raw == c.radius.raw * angle.cos().raw)
            by (nonlinear_arith);
    }
    assert(v.y == c.radius.mul(angle.sin())) by {
        assert(angle.sin().raw * c.radius.raw == c.radius.raw * angle.sin().raw)
            by (nonlinear_arith);
    }
    let scale = (65536int * 65536) / f;
    assert(0 <= scale <= 65536) by (nonlinear_arith)
        requires
            scale == (65536int * 65536) / f,
            65536 <= f,
    ;
    assert(c.y_scale.raw == scale);
    lemma_product(y, c.y_scale);
}

/// Probes lie on the field: in the columns of the world, and in as many rows as
/// sixty-four features are high.
pub proof fn probes_lie_on_the_field(i: int, width: int, feature_size: Fixed)
    requires
        0 <= i <= PROBES,
        0 < width <= 0x10_0000,
        0 <= feature_size.raw <= 0x100_0000,
    ensures
        ({
            let (x, y) = probe::<Fixed>(i, width, feature_size);
            let east = (i * 49_471) % 65536;
            let south = (i * 37_345) % 65536;
            &&& x.raw == east * width
            &&& 0 <= x.raw < width * 65536
            &&& y.raw == (south * (feature_size.raw * 64)) / 65536
            &&& 0 <= y.raw <= 64 * feature_size.raw
        }),
{
    assert(Fixed::ratio(7_548_777, 10_000_000).raw == 49_471);
    assert(Fixed::ratio(5_698_403, 10_000_000).raw == 37_345);
    lemma_stride(i, 7_548_777, 49_471);
    lemma_stride(i, 5_698_403, 37_345);
    let east = (i * 49_471) % 65536;
    let south = (i * 37_345) % 65536;
    let a: Fixed = stride(i, 7_548_777);
    let b: Fixed = stride(i, 5_698_403);
    let across = Fixed::of_int(width);
    lemma_product(across, a);
    assert((width * 65536 * east) / 65536 == east * width && 0 <= east * width < width * 65536)
        by (nonlinear_arith)
        requires
            0 <= east < 65536,
            0 < width,
    ;
    let tall = Fixed::of_int(64);
    lemma_product(feature_size, tall);
    let rows = feature_size.mul(tall);
    assert((feature_size.raw * (64 * 65536)) / 65536 == feature_size.raw * 64);
    assert(rows.raw == feature_size.raw * 64);
    lemma_product(rows, b);
    let m = rows.raw as int;
    assert((m * south) / 65536 == (south * m) / 65536 && 0 <= (south * m) / 65536 <= m)
        by (nonlinear_arith)
        requires
            0 <= south < 65536,
            0 <= m,
    ;
}

proof fn lemma_stride(i: int, step: int, part: int)
    requires
        0 <= i <= PROBES,
        Fixed::ratio(step, 10_000_000).raw == part,
        0 <= part < 65536,
    ensures
        stride::<Fixed>(i, step).raw == (i * part) % 65536,
{
    let t = Fixed::of_int(i).mul(Fixed::ratio(step, 10_000_000));
    let m = i * part;
    assert(((i * 65536) * part) / 65536 == m && 0 <= m <= 2048 * 65536) by (nonlinear_arith)
        requires
            m == i * part,
            0 <= i <= 2048,
            0 <= part < 65536,
    ;
    assert(t.raw == m);
}

// --- samples ---------------------------------------------------------------
/// A cell is as deep under the sea, or as high above it, as its elevation is below
/// the sea level, or above: the two never go together, and on land it is the height
/// that counts.
pub proof fn depth_and_altitude_add_up(s: Sample<Fixed>)
    requires
        -i64::MAX <= s.elevation.raw - s.sea_level.raw <= i64::MAX,
    ensures
        s.above_sea_by().raw - s.below_sea_by().raw == s.elevation.raw - s.sea_level.raw,
        0 <= s.above_sea_by().raw && 0 <= s.below_sea_by().raw,
        s.above_sea_by().raw == 0 || s.below_sea_by().raw == 0,
        s.above_sea() <==> s.above_sea_by().raw > 0,
{
}

/// A sample tells what the world holds in a cell: its own fields, the plate it
/// belongs to, and the boundary that affects it.
pub proof fn samples_tell_what_the_world_holds(sim: &Simulation<Fixed>, x: int, y: int)
    requires
        0 <= x < sim.world.width,
        0 <= y < sim.world.height,
    ensures
        ({
            let c = y * sim.world.width + x;
            let s = sim.known_at(x, y);
            let plate = sim.plates@[sim.world.plate_id@[c] as int];
            &&& s.x == x && s.y == y
            &&& s.elevation == sim.world.elevation@[c]
            &&& s.crust_age == sim.world.crust_age@[c]
            &&& s.rainfall == sim.world.rainfall@[c]
            &&& s.lake_depth == sim.world.water@[c]
            &&& s.flow == sim.world.flow@[c]
            &&& s.sediment == sim.world.sediment@[c]
            &&& s.sea_level == sim.params.sea_level
            &&& s.plate == sim.world.plate_id@[c]
            &&& s.crust == plate.crust_type
            &&& s.plate_velocity == plate.velocity
            &&& s.boundary is Some <==> sim.field.lookup(c) is Some
            &&& s.boundary matches Some(near) ==> {
                let (source, distance) = sim.field.lookup(c)->0;
                let b = sim.boundaries@[source as int];
                &&& near.distance == distance
                &&& near.kind == b.kind
                &&& near.strength == b.strength
                &&& near.plates == (b.plate_a, b.plate_b)
            }
        }),
{
}

/// Between cells the elevation runs straight: along the row above and the row below
/// by how far the point lies to the east, and from the one to the other by how far
/// it lies to the south.
pub proof fn elevations_run_straight_between_cells(
    w: int,
    h: int,
    elevation: Seq<Fixed>,
    x: Fixed,
    y: Fixed,
)
    requires
        0 < w <= 0x2000_0000,
        0 < h <= 0x2000_0000,
        elevation.len() == w * h,
        0 <= y.raw <= (h - 1) * 65536,
        forall|c: int|
            0 <= c < w * h ==> -0x400_0000_0000 <= (#[trigger] elevation[c]).raw <= 0x400_0000_0000,
    ensures
        ({
            let west = (x.raw as int / 65536) % w;
            let east = (x.raw as int / 65536 + 1) % w;
            let north = y.raw as int / 65536;
            let south = if north + 1 < h {
                north + 1
            } else {
                north
            };
            let tx = x.raw as int % 65536;
            let ty = y.raw as int % 65536;
            let a = elevation[north * w + west].raw;
            let b = elevation[north * w + east].raw;
            let c = elevation[south * w + west].raw;
            let d = elevation[south * w + east].raw;
            let top = a + ((b - a) * tx) / 65536;
            let bottom = c + ((d - c) * tx) / 65536;
            interpolated(w, h, elevation, x, y).raw == top + ((bottom - top) * ty) / 65536
        }),
{
    let x0 = x.raw as int / 65536;
    let y0 = y.raw as int / 65536;
    let tx = x.raw as int % 65536;
    let ty = y.raw as int % 65536;
    let west = x0 % w;
    let east = (x0 + 1) % w;
    let south = if y0 + 1 < h {
        y0 + 1
    } else {
        y0
    };
    assert(0 <= y0 < h);
    lemma_cell_in_grid(w, h, west, y0);
    lemma_cell_in_grid(w, h, east, y0);
    lemma_cell_in_grid(w, h, west, south);
    lemma_cell_in_grid(w, h, east, south);
    assert(x.sub(Fixed::of_int(x0)).raw == tx);
    assert(y.sub(Fixed::of_int(y0)).raw == ty);
    assert((x0 + 0) % w == west);
    let a = elevation[y0 * w + west];
    let b = elevation[y0 * w + east];
    let c = elevation[south * w + west];
    let d = elevation[south * w + east];
    lemma_between_two(a, b, x.sub(Fixed::of_int(x0)));
    lemma_between_two(c, d, x.sub(Fixed::of_int(x0)));
    let top = a.add(b.sub(a).mul(x.sub(Fixed::of_int(x0))));
    let bottom = c.add(d.sub(c).mul(x.sub(Fixed::of_int(x0))));
    lemma_between_two(top, bottom, y.sub(Fixed::of_int(y0)));
}

proof fn lemma_between_two(a: Fixed, b: Fixed, t: Fixed)
    requires
        -0x400_0000_0000 <= a.raw <= 0x400_0000_0000,
        -0x400_0000_0000 <= b.raw <= 0x400_0000_0000,
        0 <= t.raw < 65536,
    ensures
        a.add(b.sub(a).mul(t)).raw == a.raw + ((b.raw - a.raw) * t.raw) / 65536,
        -0x400_0000_0000 <= a.add(b.sub(a).mul(t)).raw <= 0x400_0000_0000,
{
    lemma_product(b.sub(a), t);
    let d = b.raw - a.raw;
    let s = t.raw as int;
    assert((d >= 0 ==> 0 <= (d * s) / 65536 <= d) && (d <= 0 ==> d <= (d * s) / 65536 <= 0))
        by (nonlinear_arith)
        requires
            0 <= s < 65536,
    ;
}

} // verus!
