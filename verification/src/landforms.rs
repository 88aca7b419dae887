//! What plates do to the terrain: where the ground rises, where it sinks, and
//! where volcanoes stand.

use crate::boundary::Boundary;
use crate::curves::{
    bells_peak_at_their_center, exponentials_fall, lemma_exponential_past_two, lemma_product,
    lemma_times_one, raw,
};
use crate::fixed::Fixed;
use crate::math::bell;
use crate::plate::{Plate, PlateId};
use crate::scalar::Scalar;
use crate::tectonics::{
    effect_of, eruption_of, faded, fixed_falloff_is_a_share, fixed_falloff_starts_at_one,
    goes_under, TectonicParams,
};
use vstd::prelude::*;

verus! {

// --- where plates converge -------------------------------------------------
/// A rate, or a strength, that is not negative and not far out.
pub open spec fn is_rate(x: Fixed) -> bool {
    0 <= x.raw <= 0x100_0000
}

/// A radius whose falloff is not lost to rounding.
pub open spec fn is_radius(x: Fixed) -> bool {
    Fixed::of_int(0).lt(x.mul(Fixed::ratio(35, 100)))
}

/// A cell on the plate that stays on top of a subduction zone.
pub open spec fn overrides(
    b: Boundary<Fixed>,
    plates: Seq<Plate<Fixed>>,
    plate_age: Seq<Fixed>,
    own: PlateId,
) -> bool {
    &&& b.kind is Convergent
    &&& !(plates[b.plate_a as int].crust_type is Continental
        && plates[b.plate_b as int].crust_type is Continental)
    &&& own != goes_under(b, plates, plate_age)
}

/// The part of an effect that a rate times a shape brings, per strength.
proof fn lemma_part(s: Fixed, rate: Fixed, shape: Fixed)
    requires
        is_rate(s),
        is_rate(rate),
        0 <= shape.raw <= 65536,
    ensures
        0 <= rate.mul(shape).raw <= rate.raw,
        0 <= s.mul(rate.mul(shape)).raw,
{
    lemma_product(rate, shape);
    assert(0 <= (rate.raw * shape.raw) / 65536 <= rate.raw) by (nonlinear_arith)
        requires
            0 <= rate.raw,
            0 <= shape.raw <= 65536,
    ;
    let x = rate.mul(shape);
    lemma_product(s, x);
    assert((s.raw * x.raw) / 65536 >= 0) by (nonlinear_arith)
        requires
            s.raw >= 0,
            x.raw >= 0,
    ;
}

/// A strength over a sum is no less than over either part, and more than over
/// one of them where the other is worth a smallest step.
proof fn lemma_sum_of_parts(s: Fixed, x: Fixed, y: Fixed)
    requires
        is_rate(s),
        0 <= x.raw <= 0x200_0000,
        0 <= y.raw <= 0x200_0000,
    ensures
        s.mul(x).raw <= s.mul(x.add(y)).raw,
        s.mul(y).raw <= s.mul(x.add(y)).raw,
        s.raw * y.raw >= 65536 ==> s.mul(x).raw < s.mul(x.add(y)).raw,
        s.mul(x).raw + s.mul(y).raw <= s.mul(x.add(y)).raw <= s.mul(x).raw + s.mul(y).raw + 1,
{
    let a = s.raw as int;
    let b = x.raw as int;
    let c = y.raw as int;
    lemma_product(s, x);
    lemma_product(s, y);
    lemma_product(s, x.add(y));
    assert(a * (b + c) == a * b + a * c && 0 <= a * b && 0 <= a * c) by (nonlinear_arith)
        requires
            0 <= a,
            0 <= b,
            0 <= c,
    ;
}

/// The volcanic arc: on the plate that stays on top the ground rises at least
/// as the arc does, a bell at its offset from the trench; and with an arc it
/// rises by more there than without one.
pub proof fn arcs_rise_behind_the_trench(
    p: TectonicParams<Fixed>,
    b: Boundary<Fixed>,
    plates: Seq<Plate<Fixed>>,
    plate_age: Seq<Fixed>,
    own: PlateId,
    d: Fixed,
    texture: Fixed,
)
    requires
        overrides(b, plates, plate_age, own),
        is_rate(b.strength),
        is_rate(p.orogeny_rate),
        is_rate(p.arc_rate),
        is_radius(p.orogeny_radius),
        Fixed::of_int(0).le(d),
    ensures
        ({
            let delta = effect_of(p, b, plates, plate_age, own, d, texture).delta;
            let flat = (TectonicParams { arc_rate: Fixed::of_int(0), ..p });
            let without = effect_of(flat, b, plates, plate_age, own, d, texture).delta;
            let arc = p.arc_rate.mul(bell(d, p.arc_offset, p.arc_sigma));
            &&& b.strength.mul(arc).le(delta)
            &&& without.le(delta)
            &&& without.raw + b.strength.mul(arc).raw <= delta.raw
            &&& d == p.arc_offset && 0 < p.arc_sigma.raw && b.strength.raw * p.arc_rate.raw >= 65536
                ==> without.lt(delta)
        }),
{
    let own_crust = plates[own as int].crust_type;
    let f = faded(d, p.orogeny_radius);
    let g = bell(d, p.arc_offset, p.arc_sigma);
    fixed_falloff_is_a_share(d, p.orogeny_radius);
    bells_peak_at_their_center(d, p.arc_offset, p.arc_sigma);
    let slow = Fixed::ratio(45, 100);
    assert(slow.raw == 29491);
    lemma_part(b.strength, p.orogeny_rate, slow);
    let rate = if own_crust is Continental {
        p.orogeny_rate
    } else {
        p.orogeny_rate.mul(slow)
    };
    assert(is_rate(rate));
    lemma_part(b.strength, rate, f);
    lemma_part(b.strength, p.arc_rate, g);
    let x = rate.mul(f);
    let y = p.arc_rate.mul(g);
    lemma_sum_of_parts(b.strength, x, y);
    let none = Fixed::of_int(0).mul(g);
    assert(none.raw == 0) by {
        assert(0 * g.raw == 0);
    }
    assert(x.add(none) == x);
    if d == p.arc_offset && 0 < p.arc_sigma.raw {
        lemma_times_one(p.arc_rate);
        assert(g == Fixed::of_int(1));
        assert(y == p.arc_rate);
    }
}

/// How far a falloff reaches: up to seven tenths of its radius more than a ninth
/// of the full effect is left.
pub proof fn falloffs_reach_out(d: Fixed, radius: Fixed)
    requires
        0x1_0000 <= radius.raw <= 0x1000_0000_0000,
        0 <= d.raw,
        d.le(radius.mul(Fixed::ratio(7, 10))),
    ensures
        is_radius(radius),
        7282 <= faded(d, radius).raw <= 65536,
{
    let edge = radius.mul(Fixed::ratio(7, 10));
    let width = radius.mul(Fixed::ratio(35, 100));
    assert(Fixed::ratio(7, 10).raw == 45875 && Fixed::ratio(35, 100).raw == 22937);
    let r = radius.raw as int;
    assert(edge.raw == (r * 45875) / 65536 && width.raw == (r * 22937) / 65536);
    assert(width.raw >= 22937);
    fixed_falloff_starts_at_one(d, radius);
    fixed_falloff_is_a_share(d, radius);
    let x = d.neg().div(width);
    let e = d.raw as int;
    let m = width.raw as int;
    assert(e * 64 <= m * 136) by {
        assert(e * 65536 <= r * 45875);
        assert(m * 65536 > r * 22937 - 65536);
        assert(r * 22937 <= m * 65536 + 65536);
    }
    assert(((-e) * 65536) / m >= -139264) by (nonlinear_arith)
        requires
            e * 64 <= m * 136,
            m > 0,
            e >= 0,
    ;
    assert(((-e) * 65536) / m <= 0) by (nonlinear_arith)
        requires
            m > 0,
            e >= 0,
    ;
    lemma_exponential_past_two();
    exponentials_fall(x, raw(-139264));
}

/// A product of a rate and a strength, faded: full at the boundary, a ninth of
/// it at least up to seven tenths of the radius, nothing from the radius on, and
/// never more than all of it.
pub proof fn lemma_faded_rate(rate: Fixed, s: Fixed, d: Fixed, radius: Fixed)
    requires
        -0x100_0000 <= rate.raw <= 0x100_0000,
        is_rate(s),
        0x1_0000 <= radius.raw <= 0x1000_0000_0000,
        0 <= d.raw,
    ensures
        ({
            let full = rate.mul(s);
            let part = full.mul(faded(d, radius));
            &&& -0x1_0000_0000 <= full.raw <= 0x1_0000_0000
            &&& (0 <= full.raw ==> 0 <= part.raw <= full.raw)
            &&& (full.raw <= 0 ==> full.raw <= part.raw <= 0)
            &&& (d.raw == 0 ==> part == full)
            &&& (radius.le(d) ==> part.raw == 0)
            &&& (d.le(radius.mul(Fixed::ratio(7, 10))) && 0 <= full.raw ==> 9 * part.raw + 9
                >= full.raw)
            &&& (d.le(radius.mul(Fixed::ratio(7, 10))) && full.raw <= 0 ==> 9 * part.raw
                <= full.raw)
        }),
{
    let full = rate.mul(s);
    lemma_product(rate, s);
    assert(-0x1_0000_0000 * 65536 <= rate.raw * s.raw <= 0x1_0000_0000 * 65536) by (nonlinear_arith)
        requires
            -0x100_0000 <= rate.raw <= 0x100_0000,
            0 <= s.raw <= 0x100_0000,
    ;
    let zero = Fixed::of_int(0);
    assert(zero.le(radius.mul(Fixed::ratio(7, 10))));
    falloffs_reach_out(zero, radius);
    fixed_falloff_is_a_share(d, radius);
    fixed_falloff_starts_at_one(zero, radius);
    let f = faded(d, radius);
    lemma_product(full, f);
    lemma_times_one(full);
    let a = full.raw as int;
    let b = f.raw as int;
    assert((0 <= a ==> 0 <= (a * b) / 65536 <= a) && (a <= 0 ==> a <= (a * b) / 65536 <= 0))
        by (nonlinear_arith)
        requires
            0 <= b <= 65536,
    ;
    if radius.le(d) {
        assert(a * 0 == 0);
    }
    if d.le(radius.mul(Fixed::ratio(7, 10))) {
        falloffs_reach_out(d, radius);
        assert((0 <= a ==> 9 * (a * b) >= a * 65536) && (a <= 0 ==> 9 * (a * b) <= a * 65536))
            by (nonlinear_arith)
            requires
                7282 <= b,
        ;
    }
}

/// Two continents that collide lift both sides alike: by the collision rate
/// times the strength at the boundary, less and less away from it, and not at
/// all from the collision radius on.
pub proof fn collisions_raise_a_belt(
    p: TectonicParams<Fixed>,
    b: Boundary<Fixed>,
    plates: Seq<Plate<Fixed>>,
    plate_age: Seq<Fixed>,
    own: PlateId,
    d: Fixed,
    texture: Fixed,
)
    requires
        b.kind is Convergent,
        plates[b.plate_a as int].crust_type is Continental,
        plates[b.plate_b as int].crust_type is Continental,
        is_rate(b.strength),
        is_rate(p.collision_rate),
        0x1_0000 <= p.collision_radius.raw <= 0x1000_0000_0000,
        0 <= d.raw,
    ensures
        ({
            let e = effect_of(p, b, plates, plate_age, own, d, texture);
            let full = p.collision_rate.mul(b.strength).raw;
            &&& e.new_crust.raw == 0
            &&& 0 <= e.delta.raw <= full
            &&& d.raw == 0 ==> e.delta.raw == full
            &&& d.le(p.collision_radius.mul(Fixed::ratio(7, 10))) ==> 9 * e.delta.raw + 9 >= full
            &&& p.collision_radius.le(d) ==> e.delta.raw == 0
        }),
{
    lemma_faded_rate(p.collision_rate, b.strength, d, p.collision_radius);
    lemma_product(p.collision_rate, b.strength);
    assert((p.collision_rate.raw * b.strength.raw) / 65536 >= 0) by (nonlinear_arith)
        requires
            p.collision_rate.raw >= 0,
            b.strength.raw >= 0,
    ;
}

/// The plate that goes under is dragged down: by the trench rate times the
/// strength at the boundary, less and less away from it, and not at all from
/// the trench radius on.
pub proof fn trenches_sink(
    p: TectonicParams<Fixed>,
    b: Boundary<Fixed>,
    plates: Seq<Plate<Fixed>>,
    plate_age: Seq<Fixed>,
    d: Fixed,
    texture: Fixed,
)
    requires
        b.kind is Convergent,
        !(plates[b.plate_a as int].crust_type is Continental
            && plates[b.plate_b as int].crust_type is Continental),
        is_rate(b.strength),
        is_rate(p.trench_rate),
        0x1_0000 <= p.trench_radius.raw <= 0x1000_0000_0000,
        0 <= d.raw,
    ensures
        ({
            let own = goes_under(b, plates, plate_age);
            let e = effect_of(p, b, plates, plate_age, own, d, texture);
            let full = (p.trench_rate.raw * b.strength.raw) / 65536;
            &&& e.new_crust.raw == 0
            &&& -full - 1 <= e.delta.raw <= 0
            &&& d.raw == 0 ==> e.delta.raw <= -full
            &&& d.le(p.trench_radius.mul(Fixed::ratio(7, 10))) ==> 9 * e.delta.raw <= -full
            &&& p.trench_radius.le(d) ==> e.delta.raw == 0
        }),
{
    let down = p.trench_rate.neg();
    lemma_faded_rate(down, b.strength, d, p.trench_radius);
    lemma_product(down, b.strength);
    let a = p.trench_rate.raw as int;
    let s = b.strength.raw as int;
    assert((-a) * s == -(a * s) && a * s >= 0) by (nonlinear_arith)
        requires
            a >= 0,
            s >= 0,
    ;
}

/// Transform zones are broken up: the ground goes where the texture of the rock
/// points, by the transform rate times the strength times the texture at the
/// boundary, and not at all from the transform radius on.
pub proof fn transform_zones_follow_the_rock(
    p: TectonicParams<Fixed>,
    b: Boundary<Fixed>,
    plates: Seq<Plate<Fixed>>,
    plate_age: Seq<Fixed>,
    own: PlateId,
    d: Fixed,
    texture: Fixed,
)
    requires
        b.kind is Transform,
        is_rate(b.strength),
        is_rate(p.transform_rate),
        -0x10_0000 <= texture.raw <= 0x10_0000,
        0x1_0000 <= p.transform_radius.raw <= 0x1000_0000_0000,
        0 <= d.raw,
    ensures
        ({
            let e = effect_of(p, b, plates, plate_age, own, d, texture);
            let slide = (p.transform_rate.raw * b.strength.raw) / 65536;
            let full = (slide * texture.raw) / 65536;
            &&& e.new_crust.raw == 0
            &&& 0 <= texture.raw ==> 0 <= e.delta.raw <= full
            &&& texture.raw <= 0 ==> full <= e.delta.raw <= 0
            &&& d.raw == 0 ==> e.delta.raw == full
            &&& p.transform_radius.le(d) ==> e.delta.raw == 0
        }),
{
    let slide = p.transform_rate.mul(b.strength);
    lemma_product(p.transform_rate, b.strength);
    let a = p.transform_rate.raw as int;
    let s = b.strength.raw as int;
    assert(0 <= a * s <= 0x1_0000_0000 * 65536) by (nonlinear_arith)
        requires
            0 <= a <= 0x100_0000,
            0 <= s <= 0x100_0000,
    ;
    lemma_product(slide, texture);
    let x = slide.raw as int;
    let t = texture.raw as int;
    assert((0 <= t ==> 0 <= x * t) && (t <= 0 ==> x * t <= 0) && -0x1_0000_0000 * 0x10_0000 <= x * t
        <= 0x1_0000_0000 * 0x10_0000) by (nonlinear_arith)
        requires
            0 <= x <= 0x1_0000_0000,
            -0x10_0000 <= t <= 0x10_0000,
    ;
    let full = slide.mul(texture);
    let zero = Fixed::of_int(0);
    assert(zero.le(p.transform_radius.mul(Fixed::ratio(7, 10))));
    falloffs_reach_out(zero, p.transform_radius);
    fixed_falloff_is_a_share(d, p.transform_radius);
    fixed_falloff_starts_at_one(zero, p.transform_radius);
    let f = faded(d, p.transform_radius);
    lemma_product(full, f);
    lemma_times_one(full);
    let c = full.raw as int;
    let g = f.raw as int;
    assert((0 <= c ==> 0 <= (c * g) / 65536 <= c) && (c <= 0 ==> c <= (c * g) / 65536 <= 0))
        by (nonlinear_arith)
        requires
            0 <= g <= 65536,
    ;
    if p.transform_radius.le(d) {
        assert(c * 0 == 0);
    }
}

/// The cordillera: without an arc the plate that stays on top rises by the
/// orogeny rate times the strength at the boundary, not at all from the orogeny
/// radius on, and an oceanic plate by less than half of what a continent does.
pub proof fn cordilleras_rise_on_top(
    p: TectonicParams<Fixed>,
    b: Boundary<Fixed>,
    plates: Seq<Plate<Fixed>>,
    plate_age: Seq<Fixed>,
    own: PlateId,
    d: Fixed,
    texture: Fixed,
)
    requires
        overrides(b, plates, plate_age, own),
        is_rate(b.strength),
        is_rate(p.orogeny_rate),
        p.arc_rate == Fixed::of_int(0),
        0x1_0000 <= p.orogeny_radius.raw <= 0x1000_0000_0000,
        0 <= d.raw,
    ensures
        ({
            let e = effect_of(p, b, plates, plate_age, own, d, texture);
            let full = (b.strength.raw * p.orogeny_rate.raw) / 65536;
            let own_crust = plates[own as int].crust_type;
            &&& e.new_crust.raw == 0
            &&& 0 <= e.delta.raw <= full
            &&& own_crust is Oceanic ==> 100 * e.delta.raw <= 45 * full + 45
            &&& own_crust is Continental && d.raw == 0 ==> e.delta.raw == full
            &&& own_crust is Oceanic && d.raw == 0 ==> 100 * e.delta.raw + 200 + b.strength.raw
                / 100 >= 44 * full
            &&& p.orogeny_radius.le(d) ==> e.delta.raw == 0
        }),
{
    let own_crust = plates[own as int].crust_type;
    let slow = Fixed::ratio(45, 100);
    assert(slow.raw == 29491);
    lemma_part(b.strength, p.orogeny_rate, slow);
    lemma_product(p.orogeny_rate, slow);
    let low = p.orogeny_rate.mul(slow);
    let rate = if own_crust is Continental {
        p.orogeny_rate
    } else {
        low
    };
    let zero = Fixed::of_int(0);
    assert(zero.le(p.orogeny_radius.mul(Fixed::ratio(7, 10))));
    falloffs_reach_out(zero, p.orogeny_radius);
    fixed_falloff_is_a_share(d, p.orogeny_radius);
    fixed_falloff_starts_at_one(zero, p.orogeny_radius);
    let f = faded(d, p.orogeny_radius);
    let g = bell(d, p.arc_offset, p.arc_sigma);
    assert(zero.mul(g).raw == 0) by {
        assert(0 * g.raw == 0);
    }
    lemma_part(b.strength, rate, f);
    lemma_times_one(rate);
    let x = rate.mul(f);
    assert(x.add(zero.mul(g)) == x);
    lemma_product(b.strength, x);
    lemma_product(b.strength, rate);
    let s = b.strength.raw as int;
    let k = p.orogeny_rate.raw as int;
    let m = rate.raw as int;
    let y = x.raw as int;
    assert(0 <= s * y && s * y <= s * m && s * m <= s * k) by (nonlinear_arith)
        requires
            0 <= s,
            0 <= y <= m <= k,
    ;
    if own_crust is Oceanic {
        assert(m == (k * 29491) / 65536);
        assert(100 * m <= 45 * k && 45 * k <= 100 * m + 101 + k / 1000) by {
            assert(m * 65536 <= k * 29491);
            assert(m * 65536 > k * 29491 - 65536);
        }
        assert(100 * (s * m) <= 45 * (s * k)) by (nonlinear_arith)
            requires
                100 * m <= 45 * k,
                0 <= s,
        ;
        assert(44 * k <= 100 * m + 101);
        assert(44 * (s * k) <= 100 * (s * m) + 101 * s) by (nonlinear_arith)
            requires
                44 * k <= 100 * m + 101,
                0 <= s,
        ;
    }
    if p.orogeny_radius.le(d) {
        assert(f.raw == 0);
        assert(rate.raw * 0 == 0);
        assert(s * 0 == 0);
    }
}

// --- volcanoes -------------------------------------------------------------
/// Volcanoes stand where they belong. One over a subduction zone is set back
/// from the trench by the arc offset, away from the plate that goes under, and
/// never on it; any other stands on the boundary itself.
pub proof fn arc_volcanoes_stand_behind_the_trench(
    p: TectonicParams<Fixed>,
    seed: u64,
    w: int,
    b: Boundary<Fixed>,
    plates: Seq<Plate<Fixed>>,
    plate_age: Seq<Fixed>,
    step: i64,
    dt: Fixed,
)
    requires
        0 < w <= 0x7FFF_FFFF,
        0 <= p.arc_offset.raw <= 0x1_0000_0000,
        -131072 <= b.normal.x.raw <= 131072,
        -131072 <= b.normal.y.raw <= 131072,
    ensures
        match eruption_of(p, seed, w, b, plates, plate_age, step, dt) {
            Some((x, y, height)) => {
                let dx = x.raw - (b.cell as int % w) * 65536;
                let dy = y.raw - (b.cell as int / w) * 65536;
                if b.kind is Convergent {
                    &&& b.plate_a != goes_under(b, plates, plate_age)
                    &&& dx * b.normal.x.raw + dy * b.normal.y.raw <= 0
                    &&& -65536 < dx * 65536 + p.arc_offset.raw * b.normal.x.raw <= 0
                    &&& -65536 < dy * 65536 + p.arc_offset.raw * b.normal.y.raw <= 0
                } else {
                    dx == 0 && dy == 0
                }
            },
            None => true,
        },
{
    let cx = b.cell as int % w;
    let cy = b.cell as int / w;
    assert(0 <= cx <= 0x7FFF_FFFF && 0 <= cy <= 0xFFFF_FFFF) by (nonlinear_arith)
        requires
            0 < w <= 0x7FFF_FFFF,
            cx == b.cell as int % w,
            cy == b.cell as int / w,
    ;
    let back = p.arc_offset.neg();
    let none = Fixed::of_int(0);
    lemma_set_back(b.normal.x, p.arc_offset);
    lemma_set_back(b.normal.y, p.arc_offset);
    assert(b.normal.x.mul(none).raw == 0 && b.normal.y.mul(none).raw == 0) by {
        assert(b.normal.x.raw * 0 == 0 && b.normal.y.raw * 0 == 0);
    }
    assert(Fixed::of_int(cx).raw == cx * 65536 && Fixed::of_int(cy).raw == cy * 65536);
}

proof fn lemma_set_back(n: Fixed, offset: Fixed)
    requires
        0 <= offset.raw <= 0x1_0000_0000,
        -131072 <= n.raw <= 131072,
    ensures
        ({
            let m = n.mul(offset.neg()).raw;
            &&& m == (-(offset.raw * n.raw)) / 65536
            &&& m * n.raw <= 0
            &&& -0x10_0000_0000 <= m <= 0x10_0000_0000
            &&& -65536 < m * 65536 + offset.raw * n.raw <= 0
        }),
{
    let o = offset.raw as int;
    let k = n.raw as int;
    let q = o * k;
    assert(k * (-o) == -q && -0x10_0000_0000 * 65536 <= q <= 0x10_0000_0000 * 65536)
        by (nonlinear_arith)
        requires
            q == o * k,
            0 <= o <= 0x1_0000_0000,
            -131072 <= k <= 131072,
    ;
    let m = (-q) / 65536;
    assert((k >= 0 ==> m <= 0) && (k <= 0 ==> m >= 0)) by {
        assert((k >= 0 ==> q >= 0) && (k <= 0 ==> q <= 0)) by (nonlinear_arith)
            requires
                q == o * k,
                0 <= o,
        ;
    }
    assert(m * k <= 0) by (nonlinear_arith)
        requires
            (k >= 0 && m <= 0) || (k <= 0 && m >= 0),
    ;
}

} // verus!
