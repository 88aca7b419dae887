//! When volcanoes erupt, how high they are, and what their cones add.

use crate::boundary::Boundary;
use crate::curves::lemma_product;
use crate::fixed::{is_root, isqrt, lemma_isqrt, lemma_root_exists, Fixed};
use crate::landforms::is_rate;
use crate::noise::{fixed_fractions_are_proper, hash_fraction, hash_is_a_share};
use crate::plate::Plate;
use crate::scalar::Scalar;
use crate::tectonics::{
    cone_at, cone_row, cone_rows, erupted_before, eruption_of, goes_under, tendency_of, with_cone,
    TectonicParams,
};
use crate::world::{cell_index, lemma_cell_in_grid, lemma_coords_of_cell};
use vstd::prelude::*;

verus! {

// --- when they erupt -------------------------------------------------------
/// How readily melt comes up along a boundary, in hundredths: all of it over
/// subduction zones and along mid-ocean ridges, three fifths in continental rifts,
/// little where continents collide and hardly any along transform faults.
pub open spec fn melt(b: Boundary<Fixed>, plates: Seq<Plate<Fixed>>) -> int {
    let a = plates[b.plate_a as int].crust_type;
    let c = plates[b.plate_b as int].crust_type;
    if b.kind is Transform {
        5
    } else if b.kind is Convergent {
        if a is Oceanic || c is Oceanic {
            100
        } else {
            15
        }
    } else if a is Continental || c is Continental {
        60
    } else {
        100
    }
}

/// When a boundary erupts: where the roll, a share of one, is below the volcano
/// chance times how readily melt comes up there, times the strength, times the
/// time; but never from the plate that goes under. Gives the chance per strength
/// and time.
pub proof fn volcanoes_erupt_by_chance(
    p: TectonicParams<Fixed>,
    seed: u64,
    w: int,
    b: Boundary<Fixed>,
    plates: Seq<Plate<Fixed>>,
    plate_age: Seq<Fixed>,
    step: i64,
    dt: Fixed,
) -> (readiness: int)
    requires
        is_rate(p.volcano_chance),
        is_rate(b.strength),
        is_rate(dt),
    ensures
        ({
            let erupts = eruption_of(p, seed, w, b, plates, plate_age, step, dt) is Some;
            let roll = hash_fraction::<Fixed>(seed ^ 0xC0FF_EE01u64, b.cell as i64, step).raw;
            let top = melt(b, plates) * p.volcano_chance.raw;
            let chance = (((readiness * b.strength.raw) / 65536) * dt.raw) / 65536;
            let under = b.kind is Convergent && b.plate_a == goes_under(b, plates, plate_age);
            &&& top - top / 1000 - 100 <= 100 * readiness <= top
            &&& 0 <= roll < 65536
            &&& erupts <==> roll < chance && !under
            &&& chance >= 65536 && !under ==> erupts
        }),
{
    let t = tendency_of(b, plates);
    assert(Fixed::ratio(15, 100).raw == 9830 && Fixed::ratio(6, 10).raw == 39321 && Fixed::ratio(
        5,
        100,
    ).raw == 3276 && Fixed::of_int(1).raw == 65536);
    let v = p.volcano_chance.raw as int;
    lemma_product(p.volcano_chance, t);
    let base = p.volcano_chance.mul(t);
    let a = base.raw as int;
    assert(a == (v * t.raw) / 65536);
    let k = t.raw as int;
    assert(0 <= a <= v) by (nonlinear_arith)
        requires
            a == (v * k) / 65536,
            0 <= k <= 65536,
            0 <= v,
    ;
    assert(v * k == v * 65536 || v * k == v * 39321 || v * k == v * 9830 || v * k == v * 3276);
    lemma_product(base, b.strength);
    let c = (a * b.strength.raw) / 65536;
    assert(0 <= c <= 0x1_0000_0000) by (nonlinear_arith)
        requires
            c == (a * b.strength.raw) / 65536,
            0 <= a <= 0x100_0000,
            0 <= b.strength.raw <= 0x100_0000,
    ;
    lemma_product(base.mul(b.strength), dt);
    let e = (c * dt.raw) / 65536;
    assert(0 <= e) by (nonlinear_arith)
        requires
            e == (c * dt.raw) / 65536,
            0 <= c,
            0 <= dt.raw,
    ;
    fixed_fractions_are_proper();
    hash_is_a_share::<Fixed>(seed ^ 0xC0FF_EE01u64, b.cell as i64, step);
    a
}

/// How high a volcano is: from three fifths of the volcano height, by chance, up
/// to seven fifths of it.
pub proof fn volcanoes_differ_in_height(
    p: TectonicParams<Fixed>,
    seed: u64,
    w: int,
    b: Boundary<Fixed>,
    plates: Seq<Plate<Fixed>>,
    plate_age: Seq<Fixed>,
    step: i64,
    dt: Fixed,
)
    requires
        is_rate(p.volcano_height),
    ensures
        ({
            let luck = hash_fraction::<Fixed>(seed ^ 0xA11Eu64, b.cell as i64, step ^ 0x5F).raw;
            let top = p.volcano_height.raw;
            match eruption_of(p, seed, w, b, plates, plate_age, step, dt) {
                Some((x, y, height)) => {
                    let fair = top * (3 * 65536 + 4 * luck);
                    &&& 0 <= luck < 65536
                    &&& fair - 327_680 - 20 * top <= 327_680 * height.raw <= fair
                    &&& 3 * top - 5 - top / 1000 <= 5 * height.raw <= 7 * top
                },
                None => true,
            }
        }),
{
    let j = hash_fraction::<Fixed>(seed ^ 0xA11Eu64, b.cell as i64, step ^ 0x5F);
    fixed_fractions_are_proper();
    hash_is_a_share::<Fixed>(seed ^ 0xA11Eu64, b.cell as i64, step ^ 0x5F);
    let least = Fixed::ratio(6, 10);
    let spread = Fixed::ratio(8, 10);
    assert(least.raw == 39321 && spread.raw == 52428);
    lemma_product(j, spread);
    let luck = j.raw as int;
    let s = least.add(spread.mul(j));
    assert(spread.mul(j).raw == (52428 * luck) / 65536);
    let m = 39321 + (52428 * luck) / 65536;
    assert(s.raw == m);
    assert(3 * 65536 + 4 * luck - 20 <= 5 * m <= 3 * 65536 + 4 * luck);
    lemma_product(p.volcano_height, s);
    let top = p.volcano_height.raw as int;
    assert(top * (3 * 65536 + 4 * luck) - 20 * top <= 5 * (top * m) <= top * (3 * 65536 + 4
        * luck)) by (nonlinear_arith)
        requires
            3 * 65536 + 4 * luck - 20 <= 5 * m <= 3 * 65536 + 4 * luck,
            0 <= top,
    ;
    assert(top * 196_605 <= 5 * (top * m) <= top * 458_752) by (nonlinear_arith)
        requires
            196_605 <= 5 * m <= 458_752,
            0 <= top,
    ;
}

// --- their cones -----------------------------------------------------------
proof fn lemma_distance(n: int)
    requires
        0 <= n <= 0x1_0000_0000,
    ensures
        Fixed::of_int(n).sqrt().raw >= 0,
        Fixed::of_int(n).sqrt().raw == isqrt(n * 65536 * 65536),
        is_root(Fixed::of_int(n).sqrt().raw as int, n * 65536 * 65536),
{
    let r = lemma_root_exists(n * 65536 * 65536);
    lemma_isqrt(n * 65536 * 65536, r);
    assert(r <= 0x1_0000_0000 * 65536) by (nonlinear_arith)
        requires
            is_root(r, n * 65536 * 65536),
            0 <= n <= 0x1_0000_0000,
    ;
    if n == 0 {
        assert(is_root(0, 0));
        lemma_isqrt(0, 0);
    }
}

/// The shape of a cone: its height in the middle, less and less further out,
/// a quarter of it half way to its foot, and nothing outside its radius.
pub proof fn cones_are_pointed(
    elevation: Fixed,
    dx: int,
    dy: int,
    ex: int,
    ey: int,
    radius: Fixed,
    height: Fixed,
)
    requires
        -0x1000_0000_0000 <= elevation.raw <= 0x1000_0000_0000,
        0 < radius.raw <= 0x1000_0000_0000,
        is_rate(height),
        0 <= dx * dx + dy * dy <= ex * ex + ey * ey <= 0x1_0000_0000,
    ensures
        ({
            let inner = cone_at(elevation, dx, dy, radius, height).raw - elevation.raw;
            let outer = cone_at(elevation, ex, ey, radius, height).raw - elevation.raw;
            let away = (dx * dx + dy * dy) * 65536 * 65536;
            &&& 0 <= outer <= inner <= height.raw
            &&& away == 0 ==> inner == height.raw
            &&& (radius.raw + 1) * (radius.raw + 1) <= away ==> inner == 0
            &&& forall|k: int|
                0 <= k && dx * dx + dy * dy == #[trigger] (k * k) && radius.raw == 2 * k * 65536
                    ==> inner == height.raw / 4
        }),
{
    let m = dx * dx + dy * dy;
    let n = ex * ex + ey * ey;
    lemma_distance(m);
    lemma_distance(n);
    let a = Fixed::of_int(m).sqrt().raw as int;
    let b = Fixed::of_int(n).sqrt().raw as int;
    assert(a <= b) by (nonlinear_arith)
        requires
            is_root(a, m * 65536 * 65536),
            is_root(b, n * 65536 * 65536),
            m <= n,
    ;
    let g = radius.raw as int;
    if a <= g {
        lemma_cone(a, radius, height);
    }
    if b <= g {
        lemma_cone(b, radius, height);
        lemma_cones_fall(a, b, radius, height);
    }
    if m == 0 {
        assert(a == 0) by {
            assert(is_root(0, 0));
            lemma_isqrt(0, 0);
        }
    }
    if (g + 1) * (g + 1) <= m * 65536 * 65536 {
        assert(a > g) by (nonlinear_arith)
            requires
                is_root(a, m * 65536 * 65536),
                (g + 1) * (g + 1) <= m * 65536 * 65536,
                0 < g,
        ;
    }
    assert forall|k: int|
        0 <= k && m == #[trigger] (k * k) && g == 2 * k * 65536 implies cone_at(
        elevation,
        dx,
        dy,
        radius,
        height,
    ).raw - elevation.raw == height.raw / 4 by {
        assert(is_root(k * 65536, m * 65536 * 65536)) by (nonlinear_arith)
            requires
                0 <= k,
                m == k * k,
        ;
        lemma_isqrt(m * 65536 * 65536, k * 65536);
        assert(a == k * 65536);
        assert((a * 65536) / g == 32768) by (nonlinear_arith)
            requires
                g == 2 * a,
                a > 0,
        ;
        let h = height.raw as int;
        let m = h / 2;
        assert((h * 32768) / 65536 == m) by (nonlinear_arith)
            requires
                m == h / 2,
        ;
        assert((m * 32768) / 65536 == h / 4) by (nonlinear_arith)
            requires
                m == h / 2,
        ;
    }
}

/// What a cone adds at a distance.
spec fn cone_part(d: int, radius: Fixed, height: Fixed) -> int {
    let t = 65536 - (d * 65536) / radius.raw as int;
    (((height.raw * t) / 65536) * t) / 65536
}

proof fn lemma_cone(d: int, radius: Fixed, height: Fixed)
    requires
        0 <= d <= radius.raw,
        0 < radius.raw <= 0x1000_0000_0000,
        is_rate(height),
    ensures
        ({
            let t = Fixed::of_int(1).sub((Fixed { raw: d as i64 }).div(radius));
            &&& t.raw == 65536 - (d * 65536) / radius.raw as int
            &&& height.mul(t).mul(t).raw == cone_part(d, radius, height)
        }),
        0 <= cone_part(d, radius, height) <= height.raw,
        d == 0 ==> cone_part(d, radius, height) == height.raw,
{
    let g = radius.raw as int;
    let q = (d * 65536) / g;
    assert(0 <= q <= 65536 && (d == 0 ==> q == 0)) by (nonlinear_arith)
        requires
            q == (d * 65536) / g,
            0 <= d <= g,
            0 < g,
    ;
    let t = Fixed::of_int(1).sub((Fixed { raw: d as i64 }).div(radius));
    let k = 65536 - q;
    assert(t.raw == k);
    lemma_product(height, t);
    let h = height.raw as int;
    let u = (h * k) / 65536;
    assert(0 <= u <= h && (k == 65536 ==> u == h)) by (nonlinear_arith)
        requires
            u == (h * k) / 65536,
            0 <= k <= 65536,
            0 <= h,
    ;
    lemma_product(height.mul(t), t);
    assert(0 <= (u * k) / 65536 <= u && (k == 65536 ==> (u * k) / 65536 == u)) by (nonlinear_arith)
        requires
            0 <= k <= 65536,
            0 <= u,
    ;
}

proof fn lemma_cones_fall(near: int, far: int, radius: Fixed, height: Fixed)
    requires
        0 <= near <= far <= radius.raw,
        0 < radius.raw,
        0 <= height.raw,
    ensures
        cone_part(far, radius, height) <= cone_part(near, radius, height),
{
    let g = radius.raw as int;
    let p = (near * 65536) / g;
    let q = (far * 65536) / g;
    assert(0 <= p <= q <= 65536) by (nonlinear_arith)
        requires
            p == (near * 65536) / g,
            q == (far * 65536) / g,
            0 <= near <= far <= g,
            0 < g,
    ;
    let h = height.raw as int;
    let s = 65536 - p;
    let t = 65536 - q;
    let u = (h * s) / 65536;
    let v = (h * t) / 65536;
    assert(0 <= v <= u) by (nonlinear_arith)
        requires
            u == (h * s) / 65536,
            v == (h * t) / 65536,
            0 <= t <= s,
            0 <= h,
    ;
    assert((v * t) / 65536 <= (u * s) / 65536) by (nonlinear_arith)
        requires
            0 <= v <= u,
            0 <= t <= s,
    ;
}

pub proof fn lemma_columns_differ(w: int, x0: int, i: int, j: int)
    requires
        0 < w,
        -w < i - j < w,
        (x0 + i) % w == (x0 + j) % w,
    ensures
        i == j,
{
    let a = (x0 + i) / w;
    let b = (x0 + j) / w;
    vstd::arithmetic::div_mod::lemma_fundamental_div_mod(x0 + i, w);
    vstd::arithmetic::div_mod::lemma_fundamental_div_mod(x0 + j, w);
    assert(i - j == w * (a - b)) by (nonlinear_arith)
        requires
            x0 + i == w * a + (x0 + i) % w,
            x0 + j == w * b + (x0 + j) % w,
            (x0 + i) % w == (x0 + j) % w,
    ;
    assert(a == b) by (nonlinear_arith)
        requires
            -w < w * (a - b) < w,
            0 < w,
    ;
}

proof fn lemma_row_of_cone(
    w: int,
    h: int,
    elevation: Seq<Fixed>,
    x0: int,
    y: int,
    dy: int,
    r: int,
    radius: Fixed,
    height: Fixed,
    k: nat,
    x: int,
    y2: int,
    dx: int,
)
    requires
        0 < w,
        elevation.len() == w * h,
        0 <= y < h,
        0 <= y2 < h,
        k <= 2 * r + 1 <= w,
        -r <= dx <= r,
        x == (x0 + dx) % w,
    ensures
        ({
            let after = cone_row(w, elevation, x0, y, dy, r, radius, height, k);
            let c = cell_index(w, x, y2);
            &&& after.len() == w * h
            &&& after[c] == if y2 == y && dx + r < k {
                cone_at(elevation[c], dx, dy, radius, height)
            } else {
                elevation[c]
            }
        }),
    decreases k,
{
    assert(0 <= x < w);
    lemma_cell_in_grid(w, h, x, y2);
    if k > 0 {
        lemma_row_of_cone(
            w,
            h,
            elevation,
            x0,
            y,
            dy,
            r,
            radius,
            height,
            (k - 1) as nat,
            x,
            y2,
            dx,
        );
        let step = k - 1 - r;
        let at = (x0 + step) % w;
        assert(0 <= at < w);
        lemma_cell_in_grid(w, h, at, y);
        lemma_coords_of_cell(w, at, y);
        lemma_coords_of_cell(w, x, y2);
        if cell_index(w, at, y) == cell_index(w, x, y2) {
            lemma_columns_differ(w, x0, step, dx);
        }
    }
}

proof fn lemma_rows_of_cone(
    w: int,
    h: int,
    elevation: Seq<Fixed>,
    x0: int,
    y0: int,
    r: int,
    radius: Fixed,
    height: Fixed,
    k: nat,
    dx: int,
    dy: int,
)
    requires
        0 < w,
        elevation.len() == w * h,
        k <= 2 * r + 1 <= w,
        -r <= dx <= r,
        -r <= dy <= r,
        0 <= y0 + dy < h,
    ensures
        ({
            let after = cone_rows(w, h, elevation, x0, y0, r, radius, height, k);
            let c = cell_index(w, (x0 + dx) % w, y0 + dy);
            &&& after.len() == w * h
            &&& after[c] == if dy + r < k {
                cone_at(elevation[c], dx, dy, radius, height)
            } else {
                elevation[c]
            }
        }),
    decreases k,
{
    if k > 0 {
        lemma_rows_of_cone(w, h, elevation, x0, y0, r, radius, height, (k - 1) as nat, dx, dy);
        let before = cone_rows(w, h, elevation, x0, y0, r, radius, height, (k - 1) as nat);
        let row = k - 1 - r;
        if 0 <= y0 + row < h {
            lemma_row_of_cone(
                w,
                h,
                before,
                x0,
                y0 + row,
                row,
                r,
                radius,
                height,
                (2 * r + 1) as nat,
                (x0 + dx) % w,
                y0 + dy,
                dx,
            );
        }
    }
}

/// A cone stands on the cell nearest to its place and around it, wrapping from
/// east to west: every cell within its radius, rounded up, gets what the cone has
/// at that offset, once.
pub proof fn cones_stand_around_their_place(
    w: int,
    h: int,
    elevation: Seq<Fixed>,
    cx: Fixed,
    cy: Fixed,
    radius: Fixed,
    height: Fixed,
    dx: int,
    dy: int,
)
    requires
        0 < w,
        elevation.len() == w * h,
        0 <= radius.raw,
        2 * ((radius.raw + 65535) / 65536) + 1 <= w,
        -radius.raw - 65535 <= 65536 * dx <= radius.raw + 65535,
        -radius.raw - 65535 <= 65536 * dy <= radius.raw + 65535,
        0 <= (cy.raw + 32768) / 65536 + dy < h,
    ensures
        ({
            let x = ((cx.raw + 32768) / 65536 + dx) % w;
            let y = (cy.raw + 32768) / 65536 + dy;
            let c = y * w + x;
            with_cone(w, h, elevation, cx, cy, radius, height)[c] == cone_at(
                elevation[c],
                dx,
                dy,
                radius,
                height,
            )
        }),
{
    let r = (radius.raw + 65535) / 65536;
    assert(radius.ceil() == r);
    assert(-r <= dx <= r && -r <= dy <= r);
    lemma_rows_of_cone(
        w,
        h,
        elevation,
        cx.round() as int,
        cy.round() as int,
        r,
        radius,
        height,
        (2 * r + 1) as nat,
        dx,
        dy,
    );
}

/// Every boundary has its chance, and the volcanoes that are counted are those that
/// erupted.
pub proof fn counted_volcanoes_have_erupted(
    p: TectonicParams<Fixed>,
    seed: u64,
    w: int,
    h: int,
    elevation: Seq<Fixed>,
    boundaries: Seq<Boundary<Fixed>>,
    plates: Seq<Plate<Fixed>>,
    plate_age: Seq<Fixed>,
    step: i64,
    dt: Fixed,
    n: nat,
)
    requires
        n <= boundaries.len(),
    ensures
        erupted_before(
            p,
            seed,
            w,
            h,
            elevation,
            boundaries,
            plates,
            plate_age,
            step,
            dt,
            n,
        ).1 == boundaries.take(n as int).filter(
            |b: Boundary<Fixed>| eruption_of(p, seed, w, b, plates, plate_age, step, dt) is Some,
        ).len(),
    decreases n,
{
    reveal(Seq::filter);
    if n > 0 {
        counted_volcanoes_have_erupted(
            p,
            seed,
            w,
            h,
            elevation,
            boundaries,
            plates,
            plate_age,
            step,
            dt,
            (n - 1) as nat,
        );
        assert(boundaries.take(n as int).drop_last() =~= boundaries.take(n - 1));
        assert(boundaries.take(n as int).last() == boundaries[n - 1]);
    }
}

} // verus!
