//! What the layers of a world show.

use crate::boundary::Boundary;
use crate::curves::lemma_product;
use crate::fixed::{doublings, Fixed};
use crate::landforms::is_radius;
use crate::layer::Layer;
use crate::math::{
    hermite, quantile, smoothstep_is_flat_outside_its_edges, smoothstep_stays_between_zero_and_one,
};
use crate::palette::{blends_channels, layers_span_their_ramp, mixtures_run_from_first_to_second};
use crate::ramp::{plate_tint, shaded, AGE, FLOW, INFERNO, RAIN};
use crate::render::{
    boundary_color, cell_colors, classified_pixels, dimmed, influence, layer_pixels, lit, logged,
    ownership_color, peak_influence, peak_strength, river_level, terrain_color,
};
use crate::scalar::{larger, Scalar};
use crate::simulation::Simulation;
use crate::tectonics::{faded, fixed_falloff_is_a_share, fixed_falloff_starts_at_one};
use vstd::prelude::*;

verus! {

// --- terrain ---------------------------------------------------------------
/// The colours of two maps, and how they blend into a third.
pub open spec fn blends_colors(
    c: (u8, u8, u8),
    a: (u8, u8, u8),
    b: (u8, u8, u8),
    share: int,
) -> bool {
    &&& blends_channels(c.0, a.0, b.0, share)
    &&& blends_channels(c.1, a.1, b.1, share)
    &&& blends_channels(c.2, a.2, b.2, share)
}

/// The terrain map is the elevation map with light and fresh water on it: the sea
/// looks the same on both, dry land is lit, lakes are mostly blue, and rivers are
/// blue to nearly half at least, and to nine tenths where they are twelve times as
/// large as the smallest that is drawn. Gives how blue a river is.
pub proof fn terrain_maps_add_light_and_water(sim: &Simulation<Fixed>, c: int) -> (blue: int)
    requires
        0 <= c < sim.world.cells(),
        river_level(sim.world.flow@).raw <= 0x1_0000_0000,
    ensures
        ({
            let w = sim.world;
            let plain = layer_pixels(sim, Layer::Elevation)[c];
            let shown = layer_pixels(sim, Layer::Terrain)[c];
            let land = shaded(plain, lit(w.width as int, w.height as int, w.elevation@, c));
            let level = river_level(w.flow@).raw;
            let flow = w.flow@[c].raw;
            let is_lake = 100 * w.water@[c].raw > 2 * 65536;
            let sea = sim.params.sea_level.raw;
            let lake_blue = (58u8, 102u8, 160u8);
            let river_blue = (46u8, 88u8, 150u8);
            &&& w.elevation@[c].raw <= sea ==> shown == plain
            &&& w.elevation@[c].raw > sea && flow <= level && w.water@[c].raw <= 1310 ==> shown
                == land
            &&& w.elevation@[c].raw > sea && flow <= level && is_lake ==> blends_colors(
                shown,
                land,
                lake_blue,
                55705,
            )
            &&& w.elevation@[c].raw > sea && flow > level && w.water@[c].raw <= 1310
                ==> blends_colors(shown, land, river_blue, blue)
            &&& 29490 <= blue <= 58982
            &&& flow >= 12 * level ==> blue == 58982
            &&& level >= 65536
        }),
{
    let w = sim.world;
    let level = river_level(w.flow@);
    assert(level.raw >= 65536);
    let f = w.flow@[c];
    let far = level.mul(Fixed::of_int(12));
    lemma_product(level, Fixed::of_int(12));
    assert(far.raw == 12 * level.raw) by {
        assert((level.raw * (12 * 65536)) / 65536 == 12 * level.raw);
    }
    let t = hermite(level, far, f);
    smoothstep_stays_between_zero_and_one(level, far, f);
    smoothstep_is_flat_outside_its_edges(level, far, f);
    let share = Fixed::ratio(45, 100);
    assert(share.raw == 29491);
    lemma_product(t, share);
    let blue = share.add(share.mul(t));
    assert(share.mul(t).raw == (t.raw * 29491) / 65536);
    assert(Fixed::ratio(85, 100).raw == 55705 && Fixed::ratio(2, 100).raw == 1310);
    let plain = layer_pixels(sim, Layer::Elevation)[c];
    let land = shaded(plain, lit(w.width as int, w.height as int, w.elevation@, c));
    let lake_blue = (58u8, 102u8, 160u8);
    let river_blue = (46u8, 88u8, 150u8);
    assert(plain == terrain_color(sim, false, level, c));
    assert(layer_pixels(sim, Layer::Terrain)[c] == terrain_color(sim, true, level, c));
    mixtures_run_from_first_to_second(land, lake_blue, Fixed::ratio(85, 100));
    mixtures_run_from_first_to_second(land, river_blue, blue);
    blue.raw as int
}

// --- plates ----------------------------------------------------------------
/// Continental plates are drawn lighter than oceanic ones of the same number: their
/// own colour, a third of the way to white.
pub proof fn continents_are_drawn_lighter(sim: &Simulation<Fixed>, c: int)
    ensures
        ({
            let id = sim.world.plate_id@[c];
            let tint = plate_tint::<Fixed>(id);
            let shown = ownership_color(sim, c);
            let white = (255u8, 255u8, 255u8);
            &&& sim.plates@[id as int].crust_type is Oceanic ==> shown == tint
            &&& sim.plates@[id as int].crust_type is Continental ==> blends_colors(
                shown,
                tint,
                white,
                22937,
            )
        }),
{
    let tint = plate_tint::<Fixed>(sim.world.plate_id@[c]);
    assert(Fixed::ratio(35, 100).raw == 22937);
    mixtures_run_from_first_to_second(tint, (255u8, 255u8, 255u8), Fixed::ratio(35, 100));
}

// --- strength --------------------------------------------------------------
/// A cell is worked on as hard as its boundary is strong where it lies on it, less
/// hard further away, and not at all where no boundary reaches it.
pub proof fn influence_fades_with_distance(sim: &Simulation<Fixed>, c: int)
    requires
        is_radius(sim.field.max_radius),
        match sim.field.lookup(c) {
            Some((source, d)) => 0 <= sim.boundaries@[source as int].strength.raw <= 0x1_0000_0000
                && 0 <= d.raw,
            None => true,
        },
    ensures
        match sim.field.lookup(c) {
            Some((source, d)) => {
                let full = sim.boundaries@[source as int].strength.raw;
                &&& 0 <= influence(sim, c).raw <= full
                &&& d.raw == 0 && sim.field.max_radius.raw >= 65536 ==> influence(sim, c).raw
                    == full
                &&& sim.field.max_radius.raw <= d.raw ==> influence(sim, c).raw == 0
            },
            None => influence(sim, c).raw == 0,
        },
{
    match sim.field.lookup(c) {
        Some((source, d)) => {
            let s = sim.boundaries@[source as int].strength;
            let f = faded(d, sim.field.max_radius);
            fixed_falloff_is_a_share(d, sim.field.max_radius);
            let radius = sim.field.max_radius;
            if d.raw == 0 && radius.raw >= 65536 {
                assert(Fixed::ratio(7, 10).raw == 45875);
                assert(0 <= radius.mul(Fixed::ratio(7, 10)).raw);
                fixed_falloff_starts_at_one(d, radius);
            }
            lemma_product(s, f);
            assert(0 <= (s.raw * f.raw) / 65536 <= s.raw && (f.raw == 65536 ==> (s.raw * f.raw)
                / 65536 == s.raw) && (f.raw == 0 ==> (s.raw * f.raw) / 65536 == 0))
                by (nonlinear_arith)
                requires
                    0 <= s.raw,
                    0 <= f.raw <= 65536,
            ;
        },
        None => {},
    }
}

// --- scalar layers ---------------------------------------------------------
/// The age map runs from fresh crust to old: crust without age has the colour of the
/// first stop, crust older than all but a hundredth that of the last.
pub proof fn age_maps_run_from_fresh_to_old(sim: &Simulation<Fixed>, c: int)
    requires
        0 <= c < sim.world.crust_age@.len(),
    ensures
        ({
            let age = sim.world.crust_age@[c].raw;
            let oldest = quantile(sim.world.crust_age@, Fixed::ratio(99, 100)).raw;
            let shown = layer_pixels(sim, Layer::CrustAge)[c];
            &&& age <= 0 ==> shown == (250u8, 248u8, 168u8)
            &&& age >= oldest && age >= 65536 ==> shown == (34u8, 24u8, 72u8)
        }),
{
    let oldest = larger(quantile(sim.world.crust_age@, Fixed::ratio(99, 100)), Fixed::of_int(1));
    layers_span_their_ramp(AGE, sim.world.crust_age@[c], Fixed::of_int(0), oldest);
}

/// The rain map runs from dry to wet: a cell without rain has the colour of the
/// first stop, one wetter than all but a hundredth that of the last.
pub proof fn rain_maps_run_from_dry_to_wet(sim: &Simulation<Fixed>, c: int)
    requires
        0 <= c < sim.world.rainfall@.len(),
    ensures
        ({
            let rain = sim.world.rainfall@[c].raw;
            let wettest = quantile(sim.world.rainfall@, Fixed::ratio(99, 100)).raw;
            let shown = layer_pixels(sim, Layer::Rainfall)[c];
            &&& rain <= 0 ==> shown == (246u8, 238u8, 208u8)
            &&& rain >= wettest && rain >= 66 ==> shown == (24u8, 52u8, 128u8)
        }),
{
    let least = Fixed::ratio(1, 1000);
    assert(least.raw == 65);
    let wettest = larger(quantile(sim.world.rainfall@, Fixed::ratio(99, 100)), least);
    layers_span_their_ramp(RAIN, sim.world.rainfall@[c], Fixed::of_int(0), wettest);
}

/// The strength map runs from untouched to the hardest worked on: a cell that no
/// boundary reaches has the colour of the first stop, the one with the largest
/// influence that of the last.
pub proof fn strength_maps_run_up_to_the_strongest(sim: &Simulation<Fixed>, c: int)
    requires
        0 <= c < sim.world.cells(),
        0 < peak_influence(sim, sim.world.cells() as nat).raw,
    ensures
        ({
            let most = peak_influence(sim, sim.world.cells() as nat).raw;
            let shown = layer_pixels(sim, Layer::Strength)[c];
            &&& influence(sim, c).raw <= most
            &&& influence(sim, c).raw <= 0 ==> shown == (8u8, 8u8, 20u8)
            &&& influence(sim, c).raw == most ==> shown == (252u8, 252u8, 190u8)
        }),
{
    let n = sim.world.cells() as nat;
    let most = peak_influence(sim, n);
    lemma_peak(sim, n, c);
    let value = influence(sim, c);
    let zero = Fixed::of_int(0);
    layers_span_their_ramp(INFERNO, value, zero, most);
    assert(value.sub(zero) == value && most.sub(zero) == most);
    assert(Fixed::ratio(1, 1_000_000).raw == 0);
}

proof fn lemma_peak(sim: &Simulation<Fixed>, n: nat, c: int)
    requires
        0 <= c < n,
    ensures
        influence(sim, c).raw <= peak_influence(sim, n).raw,
    decreases n,
{
    if c < n - 1 {
        lemma_peak(sim, (n - 1) as nat, c);
    }
}

/// The flow map leaves the sea out: there, and where nothing flows, it has the
/// colour of the first stop; land with more flow than all but a thousandth has that
/// of the last.
pub proof fn flow_maps_leave_the_sea_out(sim: &Simulation<Fixed>, c: int)
    requires
        0 <= c < sim.world.flow@.len(),
    ensures
        ({
            let dark = (12u8, 16u8, 26u8);
            let shown = layer_pixels(sim, Layer::Flow)[c];
            let scale = logged(sim.world.flow@);
            let most = quantile(scale, Fixed::ratio(999, 1000)).raw;
            let on_land = sim.world.elevation@[c].raw > sim.params.sea_level.raw;
            &&& !on_land ==> shown == dark
            &&& scale[c].raw <= 0 ==> shown == dark
            &&& on_land && scale[c].raw >= most && scale[c].raw >= 65 ==> shown == (
                232u8,
                248u8,
                255u8,
            )
        }),
{
    let scale = logged(sim.world.flow@);
    let least = Fixed::ratio(1, 1000);
    assert(least.raw == 65);
    let most = larger(quantile(scale, Fixed::ratio(999, 1000)), least);
    layers_span_their_ramp(FLOW, scale[c], Fixed::of_int(0), most);
}

// --- boundaries ------------------------------------------------------------
proof fn lemma_classified(
    pixels: Seq<(u8, u8, u8)>,
    bs: Seq<Boundary<Fixed>>,
    peak: Fixed,
    k: nat,
    c: int,
    last: int,
)
    requires
        k <= bs.len(),
        0 <= c < pixels.len(),
        last < k,
        0 <= last ==> bs[last].cell == c,
        forall|i: int| last < i < k ==> (#[trigger] bs[i]).cell != c,
        forall|i: int| 0 <= i < bs.len() ==> (#[trigger] bs[i]).cell < pixels.len(),
        -1 <= last,
    ensures
        ({
            let after = classified_pixels(pixels, bs, peak, k);
            &&& after.len() == pixels.len()
            &&& last < 0 ==> after[c] == pixels[c]
            &&& last >= 0 ==> after[c] == boundary_color(bs[last], peak)
        }),
    decreases k,
{
    if k > 0 {
        if last == k - 1 {
            lemma_lengths(pixels, bs, peak, (k - 1) as nat);
        } else {
            lemma_classified(pixels, bs, peak, (k - 1) as nat, c, last);
            assert(bs[k - 1].cell != c);
        }
    }
}

proof fn lemma_lengths(pixels: Seq<(u8, u8, u8)>, bs: Seq<Boundary<Fixed>>, peak: Fixed, k: nat)
    requires
        k <= bs.len(),
        forall|i: int| 0 <= i < bs.len() ==> (#[trigger] bs[i]).cell < pixels.len(),
    ensures
        classified_pixels(pixels, bs, peak, k).len() == pixels.len(),
    decreases k,
{
    if k > 0 {
        lemma_lengths(pixels, bs, peak, (k - 1) as nat);
    }
}

/// The boundary map: a cell with boundary records has the colour of the last of
/// them, seen against the strongest of all; any other shows its elevation, darkened
/// by three fifths. Gives the strength that they are seen against.
pub proof fn boundary_maps_show_the_last_record(
    sim: &Simulation<Fixed>,
    c: int,
    last: int,
) -> (peak: Fixed)
    requires
        0 <= c < sim.world.cells(),
        -1 <= last < sim.boundaries@.len(),
        0 <= last ==> sim.boundaries@[last].cell == c,
        forall|i: int|
            0 <= i < sim.boundaries@.len() ==> (#[trigger] sim.boundaries@[i]).cell
                < sim.world.cells(),
        forall|i: int|
            last < i < sim.boundaries@.len() ==> (#[trigger] sim.boundaries@[i]).cell != c,
    ensures
        ({
            let shown = layer_pixels(sim, Layer::Boundaries)[c];
            let plain = layer_pixels(sim, Layer::Elevation)[c];
            let bs = sim.boundaries@;
            &&& last >= 0 ==> shown == boundary_color(bs[last], peak)
            &&& last < 0 ==> blends_colors(shown, plain, (0u8, 0u8, 0u8), 39321)
            &&& forall|i: int|
                0 <= i < bs.len() ==> (#[trigger] bs[i]).strength.raw <= peak.raw
            &&& peak.raw == 0 || exists|i: int|
                0 <= i < bs.len() && (#[trigger] bs[i]).strength == peak
        }),
{
    let bs = sim.boundaries@;
    let peak = peak_strength(bs, bs.len());
    let under = cell_colors(
        sim.world.cells() as nat,
        |c: int| dimmed(sim.world.elevation@[c]),
    );
    lemma_classified(under, bs, peak, bs.len(), c, last);
    lemma_strongest(bs, bs.len());
    let plain = layer_pixels(sim, Layer::Elevation)[c];
    assert(Fixed::ratio(6, 10).raw == 39321);
    mixtures_run_from_first_to_second(plain, (0u8, 0u8, 0u8), Fixed::ratio(6, 10));
    peak
}

proof fn lemma_strongest(bs: Seq<Boundary<Fixed>>, k: nat)
    requires
        k <= bs.len(),
    ensures
        forall|i: int|
            0 <= i < k ==> (#[trigger] bs[i]).strength.raw <= peak_strength(bs, k).raw,
        peak_strength(bs, k).raw == 0 || exists|i: int|
            0 <= i < k && (#[trigger] bs[i]).strength == peak_strength(bs, k),
    decreases k,
{
    assert(Fixed::ratio(1, 1_000_000).raw == 0);
    if k > 0 {
        lemma_strongest(bs, (k - 1) as nat);
        assert(bs[k - 1].strength == peak_strength(bs, k) || peak_strength(bs, k) == peak_strength(
            bs,
            (k - 1) as nat,
        ));
    }
}

proof fn lemma_doublings(a: int, b: int)
    requires
        a <= b,
    ensures
        doublings(a) <= doublings(b),
    decreases b,
{
    if a >= 131072 {
        lemma_doublings(a / 2, b / 2);
    }
}

/// Flow is shown by its doublings: what does not flow counts nothing, more flow
/// never counts less, and twice the flow and the one it is reckoned from counts one
/// doubling more.
pub proof fn flow_is_shown_by_its_doublings(flow: Seq<Fixed>, c: int, d: int)
    requires
        0 <= c < flow.len(),
        0 <= d < flow.len(),
        flow[c].raw <= flow[d].raw <= 0x1000_0000_0000,
    ensures
        ({
            let scale = logged(flow);
            &&& scale.len() == flow.len()
            &&& flow[c].raw <= 0 ==> scale[c].raw == 0
            &&& scale[c].raw <= scale[d].raw
            &&& 0 <= flow[c].raw && flow[d].raw == 2 * flow[c].raw + 65536 ==> scale[d].raw
                == scale[c].raw + 45426
        }),
{
    let a = if flow[c].raw > 0 {
        65536 + flow[c].raw
    } else {
        65536
    };
    let b = if flow[d].raw > 0 {
        65536 + flow[d].raw
    } else {
        65536
    };
    lemma_doublings(a, b);
    lemma_few_doublings(a);
    lemma_few_doublings(b);
    if 0 <= flow[c].raw && flow[d].raw == 2 * flow[c].raw + 65536 {
        assert(b == 2 * a);
        assert(b / 2 == a);
    }
}

proof fn lemma_few_doublings(a: int)
    requires
        0 <= a,
    ensures
        doublings(a) * 65536 <= a,
    decreases a,
{
    if a >= 131072 {
        lemma_few_doublings(a / 2);
    }
}

} // verus!
