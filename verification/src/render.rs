//! Debug and terrain rendering.
//!
//! The point of these layers is diagnosis. When a world looks wrong, the
//! question is always *which stage* is wrong - plate motion, boundary
//! detection, classification, deformation, or erosion - and each of those has
//! a layer here that shows it directly rather than through its effect on the
//! final terrain.

use crate::boundary::{Boundary, BoundaryKind};
use crate::canvas::{channels, Picture};
use crate::draw::{draw_arrow, draw_disc, drawable, with_arrow, with_disc};
pub use crate::layer::Layer;
use crate::math::{hermite, percentile, quantile, smoothstep};
use crate::plate::Plate;
pub use crate::ramp::{ColorRamp, HYPSOMETRIC, INFERNO};
use crate::ramp::{mix, mixed, plate_color, plate_tint, shade, shaded, AGE, FLOW, RAIN};
use crate::scalar::{clamp_to, clamped, larger, max_of, Scalar};
use crate::simulation::Simulation;
use crate::tectonics::{faded, falloff};
use crate::world::{lemma_cell_of_coords, lemma_row_in_grid, neighbor_of, World};
use vstd::prelude::*;

verus! {

/// A picture of the world with one colour per cell.
fn paint<S: Scalar>(world: &World<S>, colors: &Vec<[u8; 3]>) -> (img: Picture)
    requires
        world.wf(),
        world.width <= u32::MAX,
        world.height <= u32::MAX,
        3 * world.cells() <= isize::MAX,
        colors@.len() == world.cells(),
    ensures
        drawable(&img),
        img.wide() == world.width,
        img.high() == world.height,
        img.pixels() == colors@.map_values(|c: [u8; 3]| channels(c)),
{
    let n: usize = world.len();
    let ghost w = world.width as int;
    let ghost h = world.height as int;
    let mut img = Picture::new(world.width as u32, world.height as u32);
    let mut idx: usize = 0;
    while idx < n
        invariant
            idx <= n,
            n == world.cells(),
            world.wf(),
            w == world.width,
            h == world.height,
            w <= u32::MAX,
            h <= u32::MAX,
            colors@.len() == n,
            drawable(&img),
            img.wide() == w,
            img.high() == h,
            img.pixels().len() == n,
            forall|c: int| 0 <= c < idx ==> #[trigger] img.pixels()[c] == channels(colors@[c]),
        decreases n - idx,
    {
        let (x, y) = world.coords(idx);
        proof {
            lemma_row_in_grid(w, h, idx as int);
            lemma_cell_of_coords(w, idx as int);
        }
        img.put_pixel(x as u32, y as u32, colors[idx]);
        idx += 1;
    }
    assert(img.pixels() =~= colors@.map_values(|c: [u8; 3]| channels(c)));
    img
}

/// One colour per cell, by a rule.
pub open spec fn cell_colors(n: nat, rule: spec_fn(int) -> (u8, u8, u8)) -> Seq<(u8, u8, u8)> {
    Seq::new(n, |c: int| rule(c))
}

// --- terrain ---------------------------------------------------------------
/// Elevation of the cell a step away; that of the cell itself past a wall.
pub open spec fn height_beside<S: Scalar>(
    w: int,
    h: int,
    elevation: Seq<S>,
    c: int,
    dx: int,
    dy: int,
) -> S {
    match neighbor_of(w, h, c % w, c / w, dx, dy) {
        Some(n) => elevation[n],
        None => elevation[c],
    }
}

pub open spec fn lit<S: Scalar>(w: int, h: int, elevation: Seq<S>, c: int) -> S {
    let half = S::ratio(1, 2);
    let exaggeration = S::ratio(22, 10);
    let east = height_beside(w, h, elevation, c, 1, 0);
    let west = height_beside(w, h, elevation, c, -1, 0);
    let south = height_beside(w, h, elevation, c, 0, 1);
    let north = height_beside(w, h, elevation, c, 0, -1);
    let dzdx = east.sub(west).mul(half).mul(exaggeration);
    let dzdy = south.sub(north).mul(half).mul(exaggeration);
    let len = dzdx.mul(dzdx).add(dzdy.mul(dzdy)).add(S::of_int(1)).sqrt();
    let slant = S::ratio(-55, 100);
    let dot = dzdx.neg().mul(slant).sub(dzdy.mul(slant)).add(S::ratio(63, 100)).div(len);
    clamped(
        S::ratio(55, 100).add(S::ratio(75, 100).mul(dot)),
        S::ratio(35, 100),
        S::ratio(135, 100),
    )
}

fn beside<S: Scalar>(world: &World<S>, idx: usize, dx: i64, dy: i64) -> (r: S)
    requires
        world.wf(),
        idx < world.cells(),
        -1 <= dx <= 1,
        -1 <= dy <= 1,
    ensures
        r == height_beside(
            world.width as int,
            world.height as int,
            world.elevation@,
            idx as int,
            dx as int,
            dy as int,
        ),
{
    let (x, y) = world.coords(idx);
    proof {
        lemma_row_in_grid(world.width as int, world.height as int, idx as int);
    }
    match world.neighbor(x, y, dx, dy) {
        Some(i) => world.elevation[i],
        None => world.elevation[idx],
    }
}

/// Lambert shading from a north-west sun, on the elevation gradient.
fn hillshade<S: Scalar>(world: &World<S>, idx: usize) -> (r: S)
    requires
        world.wf(),
        idx < world.cells(),
    ensures
        r == lit(world.width as int, world.height as int, world.elevation@, idx as int),
{
    let half = S::fraction(1, 2);
    let exaggeration = S::fraction(22, 10);
    let dzdx = beside(world, idx, 1, 0).minus(beside(world, idx, -1, 0)).times(half).times(
        exaggeration,
    );
    let dzdy = beside(world, idx, 0, 1).minus(beside(world, idx, 0, -1)).times(half).times(
        exaggeration,
    );
    // Normal (-dzdx, -dzdy, 1) against a light from the north-west.
    let slant = S::fraction(-55, 100);
    let len = dzdx.times(dzdx).plus(dzdy.times(dzdy)).plus(S::whole(1)).root();
    let dot = dzdx.negated().times(slant).minus(dzdy.times(slant)).plus(
        S::fraction(63, 100),
    ).over(len);
    clamp_to(
        S::fraction(55, 100).plus(S::fraction(75, 100).times(dot)),
        S::fraction(35, 100),
        S::fraction(135, 100),
    )
}

/// The flow above which a river is drawn.
pub open spec fn river_level<S: Scalar>(flow: Seq<S>) -> S {
    larger(quantile(flow, S::ratio(995, 1000)), S::of_int(1))
}

/// The colour of cell `c` on the terrain map. With `water`, hillshade, rivers
/// and lakes go on top of the elevation tint.
pub open spec fn terrain_color<S: Scalar>(
    sim: &Simulation<S>,
    water: bool,
    level: S,
    c: int,
) -> (u8, u8, u8) {
    let w = sim.world;
    let e = w.elevation@[c];
    let f = w.flow@[c];
    let tint = HYPSOMETRIC.color_of(e);
    if water && sim.params.sea_level.lt(e) {
        let land = shaded(tint, lit(w.width as int, w.height as int, w.elevation@, c));
        let lake = if S::ratio(2, 100).lt(w.water@[c]) {
            mixed(land, (58u8, 102u8, 160u8), S::ratio(85, 100))
        } else {
            land
        };
        if level.lt(f) {
            let t = hermite(level, level.mul(S::of_int(12)), f);
            mixed(
                lake,
                (46u8, 88u8, 150u8),
                S::ratio(45, 100).add(S::ratio(45, 100).mul(t)),
            )
        } else {
            lake
        }
    } else {
        tint
    }
}

/// A world that can be rendered: its picture fits in memory.
pub open spec fn renderable<S: Scalar>(sim: &Simulation<S>) -> bool {
    sim.wf() && 3 * sim.world.cells() <= isize::MAX
}

/// Whether the world's picture fits in memory.
pub fn can_be_rendered<S: Scalar>(sim: &Simulation<S>) -> (r: bool)
    requires
        sim.wf(),
    ensures
        r == renderable(sim),
{
    sim.world.len() <= isize::MAX as usize / 3
}

/// The picture shows the given pixels at the size of the world.
pub open spec fn shows<S: Scalar>(
    img: &Picture,
    sim: &Simulation<S>,
    pixels: Seq<(u8, u8, u8)>,
) -> bool {
    &&& img.wf()
    &&& img.wide() == sim.world.width
    &&& img.high() == sim.world.height
    &&& img.pixels() == pixels
}

pub open spec fn terrain_pixels<S: Scalar>(sim: &Simulation<S>, water: bool) -> Seq<(u8, u8, u8)> {
    cell_colors(
        sim.world.cells() as nat,
        |c: int| terrain_color(sim, water, river_level(sim.world.flow@), c),
    )
}

/// Hypsometric terrain. With `water`, hillshade, rivers and lakes go on top.
fn terrain<S: Scalar>(sim: &Simulation<S>, water: bool) -> (img: Picture)
    requires
        renderable(sim),
    ensures
        shows(&img, sim, terrain_pixels(sim, water)),
{
    let w = &sim.world;
    let sea = sim.sea_level();
    // Rivers are drawn where flow is large relative to the map's own scale,
    // so the threshold does not need retuning per world size.
    let level = sim.river_threshold();
    let n: usize = w.len();
    let mut colors: Vec<[u8; 3]> = Vec::with_capacity(n);
    let mut idx: usize = 0;
    while idx < n
        invariant
            idx <= n,
            n == sim.world.cells(),
            *w == sim.world,
            sim.wf(),
            sea == sim.params.sea_level,
            level == river_level(sim.world.flow@),
            colors@.len() == idx,
            forall|c: int|
                0 <= c < idx ==> channels(#[trigger] colors@[c]) == terrain_color(
                    sim,
                    water,
                    level,
                    c,
                ),
        decreases n - idx,
    {
        let e = w.elevation[idx];
        let mut color: [u8; 3] = HYPSOMETRIC.sample(e);
        if water && sea.less(e) {
            color = shade(color, hillshade(w, idx));
            if S::fraction(2, 100).less(w.water[idx]) {
                color = mix(color, [58, 102, 160], S::fraction(85, 100));  // lake
            }
            let f = w.flow[idx];
            if level.less(f) {
                let t = smoothstep(level, level.times(S::whole(12)), f);
                color =
                mix(
                    color,
                    [46, 88, 150],
                    S::fraction(45, 100).plus(S::fraction(45, 100).times(t)),
                );
            }
        }
        colors.push(color);
        idx += 1;
    }
    let img = paint(w, &colors);
    assert(img.pixels() =~= terrain_pixels(sim, water));
    img
}

// --- plates ----------------------------------------------------------------
/// The colour of cell `c` by the plate that holds it. Continental plates are
/// drawn lighter, so the crust layout reads at a glance.
pub open spec fn ownership_color<S: Scalar>(sim: &Simulation<S>, c: int) -> (u8, u8, u8) {
    let id = sim.world.plate_id@[c];
    if sim.plates@[id as int].crust_type is Continental {
        mixed(plate_tint::<S>(id), (255u8, 255u8, 255u8), S::ratio(35, 100))
    } else {
        plate_tint::<S>(id)
    }
}

/// The pixels after the cells of the first `k` boundaries have been blackened.
pub open spec fn outlined<S: Scalar>(
    pixels: Seq<(u8, u8, u8)>,
    bs: Seq<Boundary<S>>,
    k: nat,
) -> Seq<(u8, u8, u8)>
    decreases k,
{
    if k == 0 {
        pixels
    } else {
        outlined(pixels, bs, (k - 1) as nat).update(bs[k - 1].cell as int, (20u8, 20u8, 20u8))
    }
}

/// The pixels after the first `k` plates have got their arrow and their site.
pub open spec fn marked<S: Scalar>(
    w: int,
    h: int,
    pixels: Seq<(u8, u8, u8)>,
    plates: Seq<Plate<S>>,
    k: nat,
) -> Seq<(u8, u8, u8)>
    decreases k,
{
    if k == 0 {
        pixels
    } else {
        let before = marked(w, h, pixels, plates, (k - 1) as nat);
        let p = plates[k - 1];
        let tip = p.position.added(p.velocity.scaled(S::of_int(220)));
        let dark = (15u8, 15u8, 15u8);
        let arrow = with_arrow(w, h, before, p.position, tip, dark, S::ratio(16, 10));
        let ring = with_disc(
            w,
            h,
            arrow,
            p.position,
            S::of_int(3),
            (250u8, 250u8, 250u8),
        );
        with_disc(w, h, ring, p.position, S::ratio(16, 10), (20u8, 20u8, 20u8))
    }
}

pub open spec fn plate_pixels<S: Scalar>(sim: &Simulation<S>) -> Seq<(u8, u8, u8)> {
    let filled = cell_colors(sim.world.cells() as nat, |c: int| ownership_color(sim, c));
    marked(
        sim.world.width as int,
        sim.world.height as int,
        outlined(filled, sim.boundaries@, sim.boundaries@.len()),
        sim.plates@,
        sim.plates@.len(),
    )
}

/// Colour the pixel of one cell.
fn put_cell<S: Scalar>(img: &mut Picture, world: &World<S>, cell: u32, color: [u8; 3])
    requires
        world.wf(),
        world.width <= u32::MAX,
        world.height <= u32::MAX,
        cell < world.cells(),
        drawable(old(img)),
        old(img).wide() == world.width,
        old(img).high() == world.height,
    ensures
        drawable(final(img)),
        final(img).wide() == world.width,
        final(img).high() == world.height,
        final(img).pixels() == old(img).pixels().update(cell as int, channels(color)),
{
    let (x, y) = world.coords(cell as usize);
    proof {
        lemma_row_in_grid(world.width as int, world.height as int, cell as int);
        lemma_cell_of_coords(world.width as int, cell as int);
    }
    img.put_pixel(x as u32, y as u32, color);
}

/// Plate ownership, plus each plate's site and velocity arrow.
fn plates<S: Scalar>(sim: &Simulation<S>) -> (img: Picture)
    requires
        renderable(sim),
    ensures
        shows(&img, sim, plate_pixels(sim)),
{
    let w = &sim.world;
    let ghost wide = w.width as int;
    let ghost high = w.height as int;
    let n: usize = w.len();
    let mut colors: Vec<[u8; 3]> = Vec::with_capacity(n);
    let mut idx: usize = 0;
    while idx < n
        invariant
            idx <= n,
            n == sim.world.cells(),
            *w == sim.world,
            sim.wf(),
            colors@.len() == idx,
            forall|c: int|
                0 <= c < idx ==> channels(#[trigger] colors@[c]) == ownership_color(sim, c),
        decreases n - idx,
    {
        let id: u16 = w.plate_id[idx];
        let mut color: [u8; 3] = plate_color::<S>(id);
        if sim.plates[id as usize].crust_type.is_continental() {
            color = mix(color, [255, 255, 255], S::fraction(35, 100));
        }
        colors.push(color);
        idx += 1;
    }
    let mut img = paint(w, &colors);
    let ghost filled = cell_colors(n as nat, |c: int| ownership_color(sim, c));
    assert(img.pixels() =~= filled);
    // Boundaries in black, so plate outlines stay visible over the fill.
    let mut i: usize = 0;
    while i < sim.boundaries.len()
        invariant
            i <= sim.boundaries@.len(),
            *w == sim.world,
            sim.wf(),
            drawable(&img),
            img.wide() == sim.world.width,
            img.high() == sim.world.height,
            img.pixels() == outlined(filled, sim.boundaries@, i as nat),
        decreases sim.boundaries@.len() - i,
    {
        assert(sim.boundaries@[i as int].cell < sim.world.cells());
        put_cell(&mut img, w, sim.boundaries[i].cell, [20, 20, 20]);
        i += 1;
    }
    // Arrows are scaled so a typical plate speed reads clearly at map size;
    // the length is proportional to speed, so relative motion stays legible.
    let ghost under = img.pixels();
    let mut i: usize = 0;
    while i < sim.plates.len()
        invariant
            i <= sim.plates@.len(),
            wide == sim.world.width,
            high == sim.world.height,
            drawable(&img),
            img.wide() == wide,
            img.high() == high,
            img.pixels() == marked(wide, high, under, sim.plates@, i as nat),
        decreases sim.plates@.len() - i,
    {
        let p = sim.plates[i];
        let tip = p.position.plus(p.velocity.times(S::whole(220)));
        draw_arrow(&mut img, p.position, tip, [15, 15, 15], S::fraction(16, 10));
        draw_disc(&mut img, p.position, S::whole(3), [250, 250, 250]);
        draw_disc(&mut img, p.position, S::fraction(16, 10), [20, 20, 20]);
        i += 1;
    }
    img
}

// --- boundaries ------------------------------------------------------------
pub open spec fn kind_hue(kind: BoundaryKind) -> (u8, u8, u8) {
    match kind {
        BoundaryKind::Convergent => (235u8, 70u8, 60u8),
        BoundaryKind::Divergent => (70u8, 130u8, 240u8),
        BoundaryKind::Transform => (90u8, 210u8, 110u8),
    }
}

/// The strongest of the first `k` boundaries.
pub open spec fn peak_strength<S: Scalar>(bs: Seq<Boundary<S>>, k: nat) -> S
    decreases k,
{
    if k == 0 {
        S::ratio(1, 1_000_000)
    } else {
        larger(peak_strength(bs, (k - 1) as nat), bs[k - 1].strength)
    }
}

/// Brightness carries strength, so a fast boundary stands out from a
/// barely-moving one of the same kind.
pub open spec fn boundary_color<S: Scalar>(b: Boundary<S>, peak: S) -> (u8, u8, u8) {
    let t = S::ratio(35, 100).add(
        S::ratio(65, 100).mul(clamped(b.strength.div(peak), S::of_int(0), S::of_int(1))),
    );
    mixed((0u8, 0u8, 0u8), kind_hue(b.kind), t)
}

/// The pixels after the cells of the first `k` boundaries have been coloured.
pub open spec fn classified_pixels<S: Scalar>(
    pixels: Seq<(u8, u8, u8)>,
    bs: Seq<Boundary<S>>,
    peak: S,
    k: nat,
) -> Seq<(u8, u8, u8)>
    decreases k,
{
    if k == 0 {
        pixels
    } else {
        classified_pixels(pixels, bs, peak, (k - 1) as nat).update(
            bs[k - 1].cell as int,
            boundary_color(bs[k - 1], peak),
        )
    }
}

/// Terrain dimmed, for context under something else.
pub open spec fn dimmed<S: Scalar>(e: S) -> (u8, u8, u8) {
    mixed(HYPSOMETRIC.color_of(e), (0u8, 0u8, 0u8), S::ratio(6, 10))
}

pub open spec fn boundary_pixels<S: Scalar>(sim: &Simulation<S>) -> Seq<(u8, u8, u8)> {
    let bs = sim.boundaries@;
    classified_pixels(
        cell_colors(sim.world.cells() as nat, |c: int| dimmed(sim.world.elevation@[c])),
        bs,
        peak_strength(bs, bs.len()),
        bs.len(),
    )
}

/// Boundary classification. This is the layer that answers "is the simulation
/// deciding the right *kind* of boundary here?".
fn boundaries<S: Scalar>(sim: &Simulation<S>) -> (img: Picture)
    requires
        renderable(sim),
    ensures
        shows(&img, sim, boundary_pixels(sim)),
{
    let w = &sim.world;
    let n: usize = w.len();
    let ghost bs = sim.boundaries@;
    let mut colors: Vec<[u8; 3]> = Vec::with_capacity(n);
    let mut idx: usize = 0;
    while idx < n
        invariant
            idx <= n,
            n == sim.world.cells(),
            *w == sim.world,
            sim.wf(),
            colors@.len() == idx,
            forall|c: int|
                0 <= c < idx ==> channels(#[trigger] colors@[c]) == dimmed(
                    sim.world.elevation@[c],
                ),
        decreases n - idx,
    {
        let base: [u8; 3] = mix(
            HYPSOMETRIC.sample(w.elevation[idx]),
            [0, 0, 0],
            S::fraction(6, 10),
        );
        colors.push(base);
        idx += 1;
    }
    let mut img = paint(w, &colors);
    let ghost under = cell_colors(n as nat, |c: int| dimmed(sim.world.elevation@[c]));
    assert(img.pixels() =~= under);
    let mut peak = S::fraction(1, 1_000_000);
    let mut i: usize = 0;
    while i < sim.boundaries.len()
        invariant
            i <= bs.len(),
            bs == sim.boundaries@,
            peak == peak_strength(bs, i as nat),
        decreases bs.len() - i,
    {
        peak = max_of(peak, sim.boundaries[i].strength);
        i += 1;
    }
    let mut i: usize = 0;
    while i < sim.boundaries.len()
        invariant
            i <= bs.len(),
            bs == sim.boundaries@,
            *w == sim.world,
            sim.wf(),
            drawable(&img),
            img.wide() == sim.world.width,
            img.high() == sim.world.height,
            img.pixels() == classified_pixels(under, bs, peak, i as nat),
        decreases bs.len() - i,
    {
        let b = sim.boundaries[i];
        assert(sim.boundaries@[i as int].cell < sim.world.cells());
        let hue: [u8; 3] = match b.kind {
            BoundaryKind::Convergent => [235, 70, 60],
            BoundaryKind::Divergent => [70, 130, 240],
            BoundaryKind::Transform => [90, 210, 110],
        };
        let t = S::fraction(35, 100).plus(
            S::fraction(65, 100).times(
                clamp_to(b.strength.over(peak), S::whole(0), S::whole(1)),
            ),
        );
        put_cell(&mut img, w, b.cell, mix([0, 0, 0], hue, t));
        i += 1;
    }
    img
}

// --- strength --------------------------------------------------------------
/// How hard cell `c` is being worked on: strength through the same falloff that
/// the tectonics stage uses.
pub open spec fn influence<S: Scalar>(sim: &Simulation<S>, c: int) -> S {
    match sim.field.lookup(c) {
        Some((source, d)) => sim.boundaries@[source as int].strength.mul(
            faded(d, sim.field.max_radius),
        ),
        None => S::of_int(0),
    }
}

/// The largest of the first `k` influences.
pub open spec fn peak_influence<S: Scalar>(sim: &Simulation<S>, k: nat) -> S
    decreases k,
{
    if k == 0 {
        S::ratio(1, 1_000_000)
    } else {
        larger(peak_influence(sim, (k - 1) as nat), influence(sim, k - 1))
    }
}

pub open spec fn strength_pixels<S: Scalar>(sim: &Simulation<S>) -> Seq<(u8, u8, u8)> {
    let n = sim.world.cells() as nat;
    cell_colors(
        n,
        |c: int|
            INFERNO.color_of(
                clamped(
                    influence(sim, c).div(peak_influence(sim, n)),
                    S::of_int(0),
                    S::of_int(1),
                ),
            ),
    )
}

/// How much deformation each cell is receiving. Bright means "this is being
/// worked on".
fn strength<S: Scalar>(sim: &Simulation<S>) -> (img: Picture)
    requires
        renderable(sim),
    ensures
        shows(&img, sim, strength_pixels(sim)),
{
    let w = &sim.world;
    let radius = sim.field.max_radius;
    let n: usize = w.len();
    let mut worked: Vec<S> = Vec::with_capacity(n);
    let mut peak = S::fraction(1, 1_000_000);
    let mut idx: usize = 0;
    while idx < n
        invariant
            idx <= n,
            n == sim.world.cells(),
            *w == sim.world,
            sim.wf(),
            radius == sim.field.max_radius,
            worked@.len() == idx,
            peak == peak_influence(sim, idx as nat),
            forall|c: int| 0 <= c < idx ==> #[trigger] worked@[c] == influence(sim, c),
        decreases n - idx,
    {
        let mut value = S::whole(0);
        if let Some((source, d)) = sim.field.at(idx) {
            assert(sim.field.source@[idx as int] == source);
            value = sim.boundaries[source as usize].strength.times(falloff(d, radius));
        }
        worked.push(value);
        peak = max_of(peak, value);
        idx += 1;
    }
    let mut colors: Vec<[u8; 3]> = Vec::with_capacity(n);
    let mut idx: usize = 0;
    while idx < n
        invariant
            idx <= n,
            worked@.len() == n,
            peak == peak_influence(sim, n as nat),
            forall|c: int| 0 <= c < n ==> #[trigger] worked@[c] == influence(sim, c),
            colors@.len() == idx,
            forall|c: int|
                0 <= c < idx ==> channels(#[trigger] colors@[c]) == INFERNO.color_of(
                    clamped(influence(sim, c).div(peak), S::of_int(0), S::of_int(1)),
                ),
        decreases n - idx,
    {
        let t = clamp_to(worked[idx].over(peak), S::whole(0), S::whole(1));
        let color: [u8; 3] = INFERNO.sample(t);
        colors.push(color);
        idx += 1;
    }
    let img = paint(w, &colors);
    assert(img.pixels() =~= strength_pixels(sim));
    img
}

// --- scalar layers ---------------------------------------------------------
/// The colour of a value on a ramp that runs from `lo` to `hi`.
pub open spec fn scaled_color<S: Scalar>(ramp: ColorRamp, value: S, lo: S, hi: S) -> (u8, u8, u8) {
    let span = larger(hi.sub(lo), S::ratio(1, 1_000_000));
    ramp.color_of(clamped(value.sub(lo).div(span), S::of_int(0), S::of_int(1)))
}

pub open spec fn scaled_pixels<S: Scalar>(
    ramp: ColorRamp,
    data: Seq<S>,
    lo: S,
    hi: S,
) -> Seq<(u8, u8, u8)> {
    Seq::new(data.len(), |c: int| scaled_color(ramp, data[c], lo, hi))
}

fn scalar_layer<S: Scalar>(
    sim: &Simulation<S>,
    data: &Vec<S>,
    lo: S,
    hi: S,
    ramp: ColorRamp,
) -> (img: Picture)
    requires
        renderable(sim),
        data@.len() == sim.world.cells(),
    ensures
        drawable(&img),
        shows(&img, sim, scaled_pixels(ramp, data@, lo, hi)),
{
    let span = max_of(hi.minus(lo), S::fraction(1, 1_000_000));
    let n: usize = data.len();
    let mut colors: Vec<[u8; 3]> = Vec::with_capacity(n);
    let mut idx: usize = 0;
    while idx < n
        invariant
            idx <= n,
            n == data@.len(),
            span == larger(hi.sub(lo), S::ratio(1, 1_000_000)),
            colors@.len() == idx,
            forall|c: int|
                0 <= c < idx ==> channels(#[trigger] colors@[c]) == scaled_color(
                    ramp,
                    data@[c],
                    lo,
                    hi,
                ),
        decreases n - idx,
    {
        let t = clamp_to(data[idx].minus(lo).over(span), S::whole(0), S::whole(1));
        let color: [u8; 3] = ramp.sample(t);
        colors.push(color);
        idx += 1;
    }
    let img = paint(&sim.world, &colors);
    assert(img.pixels() =~= scaled_pixels(ramp, data@, lo, hi));
    img
}

pub open spec fn age_pixels<S: Scalar>(sim: &Simulation<S>) -> Seq<(u8, u8, u8)> {
    let ages = sim.world.crust_age@;
    let oldest = larger(quantile(ages, S::ratio(99, 100)), S::of_int(1));
    scaled_pixels(AGE, ages, S::of_int(0), oldest)
}

fn crust_age<S: Scalar>(sim: &Simulation<S>) -> (img: Picture)
    requires
        renderable(sim),
    ensures
        shows(&img, sim, age_pixels(sim)),
{
    let oldest = max_of(percentile(&sim.world.crust_age, S::fraction(99, 100)), S::whole(1));
    scalar_layer(sim, &sim.world.crust_age, S::whole(0), oldest, AGE)
}

pub open spec fn rain_pixels<S: Scalar>(sim: &Simulation<S>) -> Seq<(u8, u8, u8)> {
    let rain = sim.world.rainfall@;
    let wettest = larger(quantile(rain, S::ratio(99, 100)), S::ratio(1, 1000));
    scaled_pixels(RAIN, rain, S::of_int(0), wettest)
}

fn rainfall<S: Scalar>(sim: &Simulation<S>) -> (img: Picture)
    requires
        renderable(sim),
    ensures
        shows(&img, sim, rain_pixels(sim)),
{
    let wettest = max_of(
        percentile(&sim.world.rainfall, S::fraction(99, 100)),
        S::fraction(1, 1000),
    );
    scalar_layer(sim, &sim.world.rainfall, S::whole(0), wettest, RAIN)
}

/// Flow on a log scale - without the log, one trunk river saturates and every
/// tributary disappears.
pub open spec fn logged<S: Scalar>(flow: Seq<S>) -> Seq<S> {
    Seq::new(flow.len(), |c: int| S::of_int(1).add(larger(flow[c], S::of_int(0))).ln())
}

pub open spec fn flow_pixels<S: Scalar>(sim: &Simulation<S>) -> Seq<(u8, u8, u8)> {
    let data = logged(sim.world.flow@);
    let peak = larger(quantile(data, S::ratio(999, 1000)), S::ratio(1, 1000));
    Seq::new(
        data.len(),
        |c: int|
            if sim.world.elevation@[c].le(sim.params.sea_level) {
                (12u8, 16u8, 26u8)
            } else {
                scaled_color(FLOW, data[c], S::of_int(0), peak)
            },
    )
}

/// Flow accumulation on a log scale, with the sea masked out: accumulated rain
/// in the ocean is not a river.
fn flow<S: Scalar>(sim: &Simulation<S>) -> (img: Picture)
    requires
        renderable(sim),
    ensures
        shows(&img, sim, flow_pixels(sim)),
{
    let w = &sim.world;
    let sea = sim.sea_level();
    let n: usize = w.len();
    let mut data: Vec<S> = Vec::with_capacity(n);
    let mut idx: usize = 0;
    while idx < n
        invariant
            idx <= n,
            n == sim.world.cells(),
            *w == sim.world,
            sim.wf(),
            data@.len() == idx,
            forall|c: int| 0 <= c < idx ==> #[trigger] data@[c] == logged(sim.world.flow@)[c],
        decreases n - idx,
    {
        data.push(S::whole(1).plus(max_of(w.flow[idx], S::whole(0))).logarithm());
        idx += 1;
    }
    assert(data@ =~= logged(sim.world.flow@));
    let peak = max_of(percentile(&data, S::fraction(999, 1000)), S::fraction(1, 1000));
    let mut img = scalar_layer(sim, &data, S::whole(0), peak, FLOW);
    let ghost under = img.pixels();
    let mut idx: usize = 0;
    while idx < n
        invariant
            idx <= n,
            n == sim.world.cells(),
            n <= u32::MAX,
            *w == sim.world,
            sim.wf(),
            sea == sim.params.sea_level,
            drawable(&img),
            img.wide() == sim.world.width,
            img.high() == sim.world.height,
            under.len() == n,
            img.pixels().len() == n,
            forall|c: int|
                0 <= c < idx ==> #[trigger] img.pixels()[c] == (if sim.world.elevation@[c].le(sea) {
                    (12u8, 16u8, 26u8)
                } else {
                    under[c]
                }),
            forall|c: int| idx <= c < n ==> #[trigger] img.pixels()[c] == under[c],
        decreases n - idx,
    {
        if w.elevation[idx].at_most(sea) {
            put_cell(&mut img, w, idx as u32, [12, 16, 26]);
        }
        idx += 1;
    }
    assert(img.pixels() =~= flow_pixels(sim));
    img
}

// --- rendering -------------------------------------------------------------
/// The pixels of a layer.
pub open spec fn layer_pixels<S: Scalar>(sim: &Simulation<S>, layer: Layer) -> Seq<(u8, u8, u8)> {
    match layer {
        Layer::Terrain => terrain_pixels(sim, true),
        Layer::Elevation => terrain_pixels(sim, false),
        Layer::Plates => plate_pixels(sim),
        Layer::Boundaries => boundary_pixels(sim),
        Layer::Strength => strength_pixels(sim),
        Layer::CrustAge => age_pixels(sim),
        Layer::Rainfall => rain_pixels(sim),
        Layer::Flow => flow_pixels(sim),
    }
}

/// Render a layer at the size of the world.
pub fn render<S: Scalar>(sim: &Simulation<S>, layer: Layer) -> (img: Picture)
    requires
        renderable(sim),
    ensures
        shows(&img, sim, layer_pixels(sim, layer)),
{
    match layer {
        Layer::Terrain => terrain(sim, true),
        Layer::Elevation => terrain(sim, false),
        Layer::Plates => plates(sim),
        Layer::Boundaries => boundaries(sim),
        Layer::Strength => strength(sim),
        Layer::CrustAge => crust_age(sim),
        Layer::Rainfall => rainfall(sim),
        Layer::Flow => flow(sim),
    }
}

} // verus!
