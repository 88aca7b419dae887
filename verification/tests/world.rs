use noise::{Fbm, MultiFractal, NoiseFn, Perlin};
use rand::RngExt as _;
use voronoi_geology::boundary::{detect, nearest_boundary, BoundaryKind};
use voronoi_geology::canvas::Picture;
use voronoi_geology::draw::{draw_arrow, draw_disc};
use voronoi_geology::erosion::ErosionParams;
use voronoi_geology::hydrology::HydrologyParams;
use voronoi_geology::layer::Layer;
use voronoi_geology::math::{bump, normalize_or_zero, percentile, perp, smoothstep, wrap_delta};
use voronoi_geology::noise::{
    hash_signed, hash_unit, probes, rng, spread, tally, Cylinder, CylinderNoise, Recipe,
};
use voronoi_geology::plate::{
    self, advance, place_sites, plate_rng, sample_points, site_range, CrustType, PlateId,
};
use voronoi_geology::ramp::{HYPSOMETRIC, INFERNO};
use voronoi_geology::render::render;
use voronoi_geology::scalar::Scalar;
use voronoi_geology::simulation::{Fields, Ground};
use voronoi_geology::tectonics::{falloff, mean_crust_age, subducting_plate, TectonicParams};
use voronoi_geology::voronoi;

// --- numbers -----------------------------------------------------------------

#[derive(Clone, Copy, Debug, PartialEq, PartialOrd)]
struct F(f32);

impl Scalar for F {
    type Wide = f64;
    fn plus(self, o: Self) -> Self { F(self.0 + o.0) }
    fn minus(self, o: Self) -> Self { F(self.0 - o.0) }
    fn times(self, o: Self) -> Self { F(self.0 * o.0) }
    fn over(self, o: Self) -> Self { F(self.0 / o.0) }
    fn negated(self) -> Self { F(-self.0) }
    fn wrapped(self, o: Self) -> Self { F(self.0.rem_euclid(o.0)) }
    fn less(self, o: Self) -> bool { self.0 < o.0 }
    fn at_most(self, o: Self) -> bool { self.0 <= o.0 }
    fn whole(n: i64) -> Self { F(n as f32) }
    fn fraction(n: i64, d: i64) -> Self { F((n as f64 / d as f64) as f32) }
    fn root(self) -> Self { F(self.0.sqrt()) }
    fn exponential(self) -> Self { F(self.0.exp()) }
    fn logarithm(self) -> Self { F(self.0.ln()) }
    fn power(self, e: Self) -> Self { F(self.0.powf(e.0)) }
    fn cosine(self) -> Self { F(self.0.cos()) }
    fn sine(self) -> Self { F(self.0.sin()) }
    fn round_down(self) -> i64 { self.0.floor() as i64 }
    fn round_up(self) -> i64 { self.0.ceil() as i64 }
    fn round_near(self) -> i64 { self.0.round() as i64 }
    fn to_byte(self) -> u8 { self.0 as u8 }
    fn order_key(self) -> i64 {
        let b = self.0.to_bits() as i32;
        (b ^ (((b >> 31) as u32) >> 1) as i32) as i64
    }
    fn is_finite(self) -> bool { self.0.is_finite() }
    fn largest() -> Self { F(f32::MAX) }
    fn lowest() -> Self { F(f32::MIN) }
    fn parsed(s: &str) -> Option<Self> { s.parse().ok().map(F) }
    fn empty_sum() -> f64 { 0.0 }
    fn gathered(w: f64, s: Self) -> f64 { w + s.0 as f64 }
    fn joined(a: f64, b: f64) -> f64 { a + b }
    fn average(w: f64, n: u32) -> Self { F((w / n as f64) as f32) }
}

/// The numbers that points in noise space are computed with.
#[derive(Clone, Copy, Debug, PartialEq, PartialOrd)]
struct D(f64);

impl Scalar for D {
    type Wide = f64;
    fn plus(self, o: Self) -> Self { D(self.0 + o.0) }
    fn minus(self, o: Self) -> Self { D(self.0 - o.0) }
    fn times(self, o: Self) -> Self { D(self.0 * o.0) }
    fn over(self, o: Self) -> Self { D(self.0 / o.0) }
    fn negated(self) -> Self { D(-self.0) }
    fn wrapped(self, o: Self) -> Self { D(self.0.rem_euclid(o.0)) }
    fn less(self, o: Self) -> bool { self.0 < o.0 }
    fn at_most(self, o: Self) -> bool { self.0 <= o.0 }
    fn whole(n: i64) -> Self { D(n as f64) }
    fn fraction(n: i64, d: i64) -> Self { D(n as f64 / d as f64) }
    fn root(self) -> Self { D(self.0.sqrt()) }
    fn exponential(self) -> Self { D(self.0.exp()) }
    fn logarithm(self) -> Self { D(self.0.ln()) }
    fn power(self, e: Self) -> Self { D(self.0.powf(e.0)) }
    fn cosine(self) -> Self { D(self.0.cos()) }
    fn sine(self) -> Self { D(self.0.sin()) }
    fn round_down(self) -> i64 { self.0.floor() as i64 }
    fn round_up(self) -> i64 { self.0.ceil() as i64 }
    fn round_near(self) -> i64 { self.0.round() as i64 }
    fn to_byte(self) -> u8 { self.0 as u8 }
    fn order_key(self) -> i64 {
        let b = self.0.to_bits() as i64;
        b ^ (((b >> 63) as u64) >> 1) as i64
    }
    fn is_finite(self) -> bool { self.0.is_finite() }
    fn largest() -> Self { D(f64::MAX) }
    fn lowest() -> Self { D(f64::MIN) }
    fn parsed(s: &str) -> Option<Self> { s.parse().ok().map(D) }
    fn empty_sum() -> f64 { 0.0 }
    fn gathered(w: f64, s: Self) -> f64 { w + s.0 }
    fn joined(a: f64, b: f64) -> f64 { a + b }
    fn average(w: f64, n: u32) -> Self { D(w / n as f64) }
}

type World = voronoi_geology::world::World<F>;
type Vec2 = voronoi_geology::math::Vec2<F>;
type Plate = plate::Plate<F>;
type PlateParams = plate::PlateParams<F>;
type CrustField = plate::CrustField<F>;
type Boundary = voronoi_geology::boundary::Boundary<F>;
type NearestBoundary = voronoi_geology::boundary::NearestBoundary<F>;
type Tectonics = voronoi_geology::tectonics::Tectonics<F>;
type Hydrology = voronoi_geology::hydrology::Hydrology<F>;
type FlowNetwork = voronoi_geology::hydrology::FlowNetwork<F>;
type Erosion = voronoi_geology::erosion::Erosion<F>;
type Warp = voronoi::Warp<F>;
type Simulation = voronoi_geology::simulation::Simulation<F>;
type SimulationParams = voronoi_geology::simulation::SimulationParams<F>;
type Sample = voronoi_geology::query::Sample<F>;

fn v2(x: f32, y: f32) -> Vec2 {
    Vec2::new(F(x), F(y))
}

// --- noise -------------------------------------------------------------------

/// A field of noise: a generator read on a cylinder.
struct Noise {
    fbm: Fbm<Perlin>,
    on: CylinderNoise<F, D>,
}

impl Noise {
    fn new(seed: u32, width: usize, feature_size: f32, octaves: usize) -> Self {
        let fbm = Fbm::<Perlin>::new(seed)
            .set_octaves(octaves)
            .set_persistence(0.5)
            .set_lacunarity(2.0);
        let cylinder = Cylinder::new(width, D(feature_size as f64));
        let values: Vec<F> = probes(width, F(feature_size))
            .into_iter()
            .map(|(x, y)| read(&fbm, &cylinder, x.0, y.0))
            .collect();
        let (sum, squares) = tally(&values);
        let sd = spread(D(sum), D(squares)).0 as f32;
        Noise { fbm, on: CylinderNoise::new(cylinder, F(sd)) }
    }

    fn made_by(recipe: Recipe<F>, width: usize) -> Self {
        Noise::new(recipe.seed, width, recipe.feature_size.0, recipe.octaves)
    }

    fn get(&self, x: f32, y: f32) -> f32 {
        self.on.get(read(&self.fbm, &self.on.cylinder, x, y)).0
    }

    /// The value at every cell of a world.
    fn field(&self, world: &World) -> Vec<F> {
        (0..world.len())
            .map(|i| {
                let (x, y) = world.coords(i);
                F(self.get(x as f32, y as f32))
            })
            .collect()
    }
}

fn read(fbm: &Fbm<Perlin>, cylinder: &Cylinder<D>, x: f32, y: f32) -> F {
    let [a, b, c] = cylinder.point(D(x as f64), D(y as f64));
    F(fbm.get([a.0, b.0, c.0]) as f32)
}

// --- building worlds ---------------------------------------------------------

/// The crust field together with the noise that it cuts.
struct Crust {
    noise: Noise,
    field: CrustField,
}

impl Crust {
    fn new(world: &World, seed: u64, fraction: f32) -> Self {
        let noise = Noise::new((seed as u32) ^ 0x5EED, world.width, 260.0, 3);
        let samples: Vec<F> = sample_points(world)
            .into_iter()
            .map(|(x, y)| F(noise.get(x as f32, y as f32)))
            .collect();
        let field = CrustField::new(&samples, F(fraction));
        Crust { noise, field }
    }

    fn is_continental(&self, x: f32, y: f32) -> bool {
        self.field.is_continental(F(self.noise.get(x, y)))
    }
}

struct Draws {
    sites: Vec<Vec2>,
    angles: Vec<F>,
    speeds: Vec<F>,
}

fn draw(world: &World, params: &PlateParams, seed: u64) -> Draws {
    let mut r = plate_rng(seed);
    let (w, h) = site_range(world);
    let candidates: Vec<Vec2> = (0..params.count * params.candidates_per_site())
        .map(|_| {
            let x = r.random_range(0.0..w.0);
            let y = r.random_range(0.0..h.0);
            v2(x, y)
        })
        .collect();
    let sites = place_sites(world, params, &candidates);
    let (lo, hi) = params.speed_range();
    let mut angles = Vec::new();
    let mut speeds = Vec::new();
    for _ in 0..params.count {
        let angle: f32 = r.random_range(0.0..std::f32::consts::TAU);
        let speed: f32 = r.random_range(lo.0..hi.0);
        angles.push(F(angle));
        speeds.push(F(speed));
    }
    Draws { sites, angles, speeds }
}

fn generate(world: &World, params: &PlateParams, seed: u64, crust: &Crust) -> Vec<Plate> {
    let d = draw(world, params, seed);
    let noise: Vec<F> = d
        .sites
        .iter()
        .map(|p| F(crust.noise.get(p.x.0, p.y.0)))
        .collect();
    plate::generate(&d.sites, &d.angles, &d.speeds, &noise, &crust.field)
}

fn warp(world: &World, seed: u64, amplitude: f32, feature_size: f32) -> Warp {
    let nx = Noise::new((seed as u32) ^ 0x1A2B, world.width, feature_size, 3);
    let ny = Noise::new((seed as u32) ^ 0x3C4D, world.width, feature_size, 3);
    Warp::new(&nx.field(world), &ny.field(world), F(amplitude))
}

fn hydrology(world: &World, sea_level: f32, seed: u64, width: usize) -> Hydrology {
    let params: HydrologyParams<F> = HydrologyParams::default();
    let noise = Noise::new(
        (seed as u32) ^ 0x5A10_BEE5,
        width,
        params.rain_feature_size.0,
        4,
    );
    Hydrology::new(params, F(sea_level), noise.field(world))
}

fn tectonics(world: &World, seed: u64) -> Tectonics {
    let stress = Noise::new((seed as u32) ^ 0x7EC7, world.width, 5.0, 3);
    Tectonics::new(TectonicParams::default(), seed, stress.field(world))
}

fn simulate(params: SimulationParams) -> Simulation {
    let world = World::new(params.width, params.height);
    let seed = params.seed;
    let crust = Crust::new(&world, seed, params.plates.continental_fraction.0);
    let samples: Vec<F> = sample_points(&world)
        .into_iter()
        .map(|(x, y)| F(crust.noise.get(x as f32, y as f32)))
        .collect();
    let mut r = plate_rng(seed);
    let (w, h) = site_range(&world);
    let candidates: Vec<Vec2> = (0..params.plates.count * params.plates.candidates_per_site())
        .map(|_| {
            let x = r.random_range(0.0..w.0);
            let y = r.random_range(0.0..h.0);
            v2(x, y)
        })
        .collect();
    let ground = Ground::survey(&params, &samples, &candidates);
    let (lo, hi) = params.plates.speed_range();
    let mut angles = Vec::new();
    let mut speeds = Vec::new();
    for _ in 0..params.plates.count {
        let angle: f32 = r.random_range(0.0..std::f32::consts::TAU);
        let speed: f32 = r.random_range(lo.0..hi.0);
        angles.push(F(angle));
        speeds.push(F(speed));
    }
    let site_noise: Vec<F> = ground
        .sites
        .iter()
        .map(|p| F(crust.noise.get(p.x.0, p.y.0)))
        .collect();
    let recipes = params.recipes();
    let field = |recipe: Recipe<F>| Noise::made_by(recipe, params.width).field(&world);
    let fields = Fields {
        crust: field(recipes.crust),
        shape: field(recipes.shape),
        relief: field(recipes.relief),
        age: field(recipes.age),
        warp_x: field(recipes.warp_x),
        warp_y: field(recipes.warp_y),
        stress: field(recipes.stress),
        rain: field(recipes.rain),
    };
    Simulation::new(params, &ground, &site_noise, &angles, &speeds, fields)
}

// --- grid --------------------------------------------------------------------

fn w() -> World {
    World::new(16, 8)
}

#[test]
fn indexing_round_trips() {
    let w = w();
    for y in 0..w.height {
        for x in 0..w.width {
            assert_eq!(w.coords(w.idx(x, y)), (x, y));
        }
    }
}

#[test]
fn x_wraps_and_y_walls() {
    let w = w();
    assert_eq!(w.wrap_x(-1), 15);
    assert_eq!(w.wrap_x(16), 0);
    assert_eq!(w.neighbor(15, 3, 1, 0), Some(w.idx(0, 3)));
    assert_eq!(w.neighbor(0, 0, 0, -1), None);
    assert_eq!(w.neighbor(0, 7, 0, 1), None);
}

#[test]
fn neighbors8_clips_at_the_walls() {
    let w = w();
    assert_eq!(w.neighbors8(w.idx(5, 0)).len(), 5);
    assert_eq!(w.neighbors8(w.idx(5, 7)).len(), 5);
    assert_eq!(w.neighbors8(w.idx(0, 3)).len(), 8);
}

#[test]
fn delta_crosses_the_seam() {
    let w = w();
    let d = w.delta(F(0.0), F(1.0), F(15.0), F(1.0));
    assert_eq!(d.x, F(1.0));
}

#[test]
fn contain_wraps_and_clamps() {
    let w = w();
    let p = w.contain(v2(-1.0, -5.0));
    assert_eq!(p.x, F(15.0));
    assert_eq!(p.y, F(0.0));
    let p = w.contain(v2(17.0, 100.0));
    assert_eq!(p.x, F(1.0));
    assert_eq!(p.y, F(7.0));
}

#[test]
fn latitude_runs_from_pole_to_pole() {
    let w: World = World::new(4, 181);
    assert_eq!(w.latitude(0), F(90.0));
    assert_eq!(w.latitude(90), F(0.0));
    assert_eq!(w.latitude(180), F(-90.0));
}

// --- math --------------------------------------------------------------------

#[test]
fn wrap_delta_takes_the_short_way_around() {
    assert_eq!(wrap_delta(F(1.0), F(1023.0), F(1024.0)), F(2.0));
    assert_eq!(wrap_delta(F(1023.0), F(1.0), F(1024.0)), F(-2.0));
    assert_eq!(wrap_delta(F(10.0), F(4.0), F(1024.0)), F(6.0));
}

#[test]
fn percentile_ignores_outliers() {
    let data: Vec<F> = (0..100).map(|i| F(i as f32)).collect();
    assert_eq!(percentile(&data, F(0.0)), F(0.0));
    assert_eq!(percentile(&data, F(0.5)), F(50.0));
    assert_eq!(percentile(&data, F(1.0)), F(99.0));
    assert_eq!(percentile(&Vec::new(), F(0.5)), F(0.0));
    assert_eq!(percentile(&vec![F(f32::NAN), F(3.0)], F(1.0)), F(3.0));
}

#[test]
fn vectors_agree_with_glam() {
    for (x, y) in [(3.0, 4.0), (-0.3, 0.7), (0.0, -2.5), (1e-30, 0.0), (0.0, 0.0), (7e5, -1e4)] {
        let ours = v2(x, y);
        let theirs = glam::Vec2::new(x, y);
        assert_eq!(ours.length().0, theirs.length());
        assert_eq!(ours.dot(v2(0.5, -2.0)).0, theirs.dot(glam::Vec2::new(0.5, -2.0)));
        let unit = normalize_or_zero(ours);
        let expected = theirs.normalize_or_zero();
        assert_eq!((unit.x.0, unit.y.0), (expected.x, expected.y));
        let turned = perp(ours);
        assert_eq!((turned.x.0, turned.y.0), (theirs.perp().x, theirs.perp().y));
    }
}

#[test]
fn smoothstep_and_bump_behave() {
    assert_eq!(smoothstep(F(0.0), F(1.0), F(-1.0)), F(0.0));
    assert_eq!(smoothstep(F(0.0), F(1.0), F(2.0)), F(1.0));
    assert!((smoothstep(F(0.0), F(1.0), F(0.5)).0 - 0.5).abs() < 1e-6);
    assert!((bump(F(3.0), F(3.0), F(2.0)).0 - 1.0).abs() < 1e-6);
    assert!(bump(F(9.0), F(3.0), F(1.0)).0 < 0.01);
}

#[test]
fn wrap_delta_stays_in_half_period() {
    for a in 0..1024 {
        let d = wrap_delta(F(a as f32), F(0.0), F(1024.0)).0;
        assert!((-512.0..=512.0).contains(&d), "a={a} d={d}");
    }
}

// --- noise -------------------------------------------------------------------

#[test]
fn rng_is_deterministic_and_stream_separated() {
    let mut a = rng(42, 0);
    let mut b = rng(42, 0);
    let mut c = rng(42, 1);
    let xs: Vec<u64> = (0..16).map(|_| a.random()).collect();
    let ys: Vec<u64> = (0..16).map(|_| b.random()).collect();
    let zs: Vec<u64> = (0..16).map(|_| c.random()).collect();
    assert_eq!(xs, ys);
    assert_ne!(xs, zs);
}

#[test]
fn cylinder_noise_is_seamless() {
    let n = Noise::new(7, 1024, 64.0, 4);
    for i in 0..32 {
        let y = i as f32 * 13.0;
        let a = n.get(0.0, y);
        let b = n.get(1024.0, y);
        assert!((a - b).abs() < 1e-5, "seam mismatch at y={y}: {a} vs {b}");
        let l = n.get(1023.0, y);
        assert!((l - a).abs() < 0.2, "discontinuity at seam: {l} vs {a}");
    }
}

#[test]
fn cylinder_noise_actually_varies() {
    let n = Noise::new(7, 1024, 64.0, 4);
    let samples: Vec<f32> = (0..64).map(|i| n.get(i as f32 * 16.0, 128.0)).collect();
    let min = samples.iter().cloned().fold(f32::MAX, f32::min);
    let max = samples.iter().cloned().fold(f32::MIN, f32::max);
    assert!(max - min > 0.2, "noise is too flat: {min}..{max}");
}

#[test]
fn fields_are_calibrated_to_a_known_spread() {
    for (feature, octaves) in [(12.0f32, 3usize), (55.0, 5), (260.0, 3)] {
        let n = Noise::new(11, 1024, feature, octaves);
        let mut values = Vec::new();
        for y in (0..512).step_by(7) {
            for x in (0..1024).step_by(7) {
                values.push(n.get(x as f32, y as f32));
            }
        }
        let mean = values.iter().sum::<f32>() / values.len() as f32;
        let sd = (values.iter().map(|v| (v - mean).powi(2)).sum::<f32>()
            / values.len() as f32)
            .sqrt();
        let peak = values.iter().fold(0.0f32, |a, v| a.max(v.abs()));

        assert!(
            (sd - 0.32).abs() < 0.08,
            "feature {feature}/{octaves} octaves: sd {sd} is off target"
        );
        assert!(
            (0.7..2.0).contains(&peak),
            "feature {feature}/{octaves} octaves: peak {peak} is implausible"
        );
    }
}

#[test]
fn hash_is_stable_and_in_range() {
    for a in 0..50 {
        for b in 0..50 {
            let v: F = hash_unit(99, a, b);
            assert!((0.0..1.0).contains(&v.0));
            assert_eq!(v, hash_unit::<F>(99, a, b));
        }
    }
    assert_ne!(hash_unit::<F>(1, 2, 3), hash_unit::<F>(2, 2, 3));
}

#[test]
fn signed_hash_is_the_hash_stretched_around_zero() {
    for a in 0..50 {
        let u: F = hash_unit(7, a, 3);
        let s: F = hash_signed(7, a, 3);
        assert_eq!(s.0, u.0 * 2.0 - 1.0);
        assert!((-1.0..1.0).contains(&s.0));
    }
}

// --- plates ------------------------------------------------------------------

fn plate_world() -> World {
    World::new(256, 128)
}

fn make_plates(world: &World, params: &PlateParams, seed: u64) -> Vec<Plate> {
    let crust = Crust::new(world, seed, params.continental_fraction.0);
    generate(world, params, seed, &crust)
}

#[test]
fn generation_is_deterministic() {
    let w = plate_world();
    let p = PlateParams::default();
    let a = make_plates(&w, &p, 1234);
    let b = make_plates(&w, &p, 1234);
    let c = make_plates(&w, &p, 5678);
    assert_eq!(a.len(), p.count);
    for (x, y) in a.iter().zip(b.iter()) {
        assert_eq!(x.position, y.position);
        assert_eq!(x.velocity, y.velocity);
        assert_eq!(x.crust_type, y.crust_type);
    }
    assert!(a.iter().zip(c.iter()).any(|(x, y)| x.position != y.position));
}

#[test]
fn the_crust_field_covers_the_requested_fraction_of_the_world() {
    let w = plate_world();
    for fraction in [0.2f32, 0.4, 0.65] {
        let f = Crust::new(&w, 9, fraction);
        let mut land = 0;
        for y in 0..w.height {
            for x in 0..w.width {
                if f.is_continental(x as f32, y as f32) {
                    land += 1;
                }
            }
        }
        let actual = land as f32 / w.len() as f32;
        assert!(
            (actual - fraction).abs() < 0.03,
            "asked for {fraction} continental, got {actual}"
        );
    }
}

#[test]
fn plates_take_their_crust_from_the_field_under_them() {
    let w = plate_world();
    let params = PlateParams {
        count: 40,
        continental_fraction: F(0.35),
        ..PlateParams::default()
    };
    let f = Crust::new(&w, 9, params.continental_fraction.0);
    let plates = generate(&w, &params, 9, &f);
    for p in &plates {
        assert_eq!(
            p.crust_type.is_continental(),
            f.is_continental(p.position.x.0, p.position.y.0),
            "plate {} disagrees with the crust under it",
            p.id
        );
    }
    let cont = plates.iter().filter(|p| p.crust_type.is_continental()).count();
    assert!((6..=22).contains(&cont), "{cont} of 40 plates continental");
}

#[test]
fn sites_land_inside_the_world() {
    let w = plate_world();
    for p in make_plates(&w, &PlateParams::default(), 3) {
        assert!(p.position.x.0 >= 0.0 && p.position.x.0 < w.width as f32);
        assert!(p.position.y.0 >= 0.0 && p.position.y.0 <= w.height as f32 - 1.0);
    }
}

#[test]
fn movement_wraps_east_west_and_bounces_off_walls() {
    let w = plate_world();
    let mut plates = vec![
        Plate {
            id: 0,
            position: v2(255.5, 10.0),
            velocity: v2(1.0, 0.0),
            crust_type: CrustType::Oceanic,
        },
        Plate {
            id: 1,
            position: v2(10.0, 1.0),
            velocity: v2(0.0, -4.0),
            crust_type: CrustType::Oceanic,
        },
    ];
    advance(&mut plates, &w, F(1.0));
    assert!(plates[0].position.x.0 < 1.0, "should have wrapped: {:?}", plates[0].position);
    assert!(plates[1].position.y.0 >= 0.0);
    assert!(plates[1].velocity.y.0 > 0.0, "wall should reflect velocity");
}

#[test]
fn best_candidate_spacing_beats_pure_random() {
    let w = plate_world();
    let spaced = make_plates(
        &w,
        &PlateParams { spacing_candidates: 32, ..Default::default() },
        11,
    );
    let clumped = make_plates(
        &w,
        &PlateParams { spacing_candidates: 1, ..Default::default() },
        11,
    );
    let min_gap = |ps: &Vec<Plate>| {
        let mut m = f32::MAX;
        for i in 0..ps.len() {
            for j in (i + 1)..ps.len() {
                let (a, b) = (ps[i].position, ps[j].position);
                m = m.min(w.dist2(a.x, a.y, b.x, b.y).0);
            }
        }
        m
    };
    assert!(min_gap(&spaced) > min_gap(&clumped));
}

// --- voronoi -----------------------------------------------------------------

fn plate_at(id: PlateId, x: f32, y: f32) -> Plate {
    Plate {
        id,
        position: v2(x, y),
        velocity: v2(0.0, 0.0),
        crust_type: CrustType::Oceanic,
    }
}

fn plates_for(world: &World, count: usize, seed: u64) -> Vec<Plate> {
    let crust = Crust::new(world, seed, 0.4);
    generate(world, &PlateParams { count, ..Default::default() }, seed, &crust)
}

#[test]
fn every_cell_goes_to_its_nearest_site() {
    let mut world = World::new(64, 32);
    let plates = plates_for(&world, 8, 5);
    let flat = Warp::none(&world);
    voronoi::assign(&mut world, &plates, &flat);

    for y in 0..world.height {
        for x in 0..world.width {
            let owner = world.plate_id[world.idx(x, y)] as usize;
            let at = |p: &Plate| {
                world.dist2(F(x as f32), F(y as f32), p.position.x, p.position.y).0
            };
            let owner_d = at(&plates[owner]);
            for p in &plates {
                assert!(owner_d <= at(p) + 1e-4, "cell ({x},{y}) claimed by the wrong plate");
            }
        }
    }
}

#[test]
fn ownership_wraps_across_the_seam() {
    let mut world = World::new(64, 8);
    let plates = vec![plate_at(0, 1.0, 4.0), plate_at(1, 32.0, 4.0)];
    let flat = Warp::none(&world);
    voronoi::assign(&mut world, &plates, &flat);
    assert_eq!(world.plate_id[world.idx(63, 4)], 0);
    assert_eq!(world.plate_id[world.idx(40, 4)], 1);
}

#[test]
fn sites_own_their_own_cell() {
    let mut world = World::new(128, 64);
    let plates = plates_for(&world, 12, 77);
    let flat = Warp::none(&world);
    voronoi::assign(&mut world, &plates, &flat);
    for p in &plates {
        let idx = world.idx(
            p.position.x.0.round() as usize % 128,
            p.position.y.0.round() as usize,
        );
        assert_eq!(world.plate_id[idx], p.id);
    }
}

#[test]
fn a_warp_bends_boundaries_without_breaking_the_diagram() {
    let mut plain = World::new(128, 64);
    let mut warped = World::new(128, 64);
    let plates = plates_for(&plain, 10, 12);
    let flat = Warp::none(&plain);
    voronoi::assign(&mut plain, &plates, &flat);
    let bent = warp(&warped, 12, 9.0, 40.0);
    voronoi::assign(&mut warped, &plates, &bent);

    assert_ne!(plain.plate_id, warped.plate_id);
    for id in &warped.plate_id {
        assert!((*id as usize) < plates.len());
    }
    for p in &plates {
        assert!(
            warped.plate_id.contains(&p.id),
            "plate {} lost all of its territory to the warp",
            p.id
        );
    }
}

#[test]
fn warped_boundaries_are_longer_than_straight_ones() {
    let mut plain = World::new(256, 128);
    let mut warped = World::new(256, 128);
    let plates = plates_for(&plain, 14, 4);
    let flat = Warp::none(&plain);
    voronoi::assign(&mut plain, &plates, &flat);
    let bent = warp(&warped, 4, 10.0, 45.0);
    voronoi::assign(&mut warped, &plates, &bent);

    let edge_cells = |w: &World| {
        (0..w.len())
            .filter(|i| {
                w.neighbors8(*i)
                    .iter()
                    .any(|(n, _, _)| w.plate_id[*n] != w.plate_id[*i])
            })
            .count()
    };
    assert!(
        edge_cells(&warped) > edge_cells(&plain),
        "the warp should lengthen boundaries, not shorten them"
    );
}

#[test]
fn the_warp_is_deterministic() {
    let world = World::new(64, 32);
    let a = warp(&world, 77, 8.0, 30.0);
    let b = warp(&world, 77, 8.0, 30.0);
    assert_eq!(a.dx, b.dx);
    assert_eq!(a.dy, b.dy);
}

// --- boundaries --------------------------------------------------------------

fn moving(id: PlateId, pos: (f32, f32), vel: (f32, f32)) -> Plate {
    Plate {
        id,
        position: v2(pos.0, pos.1),
        velocity: v2(vel.0, vel.1),
        crust_type: CrustType::Oceanic,
    }
}

fn two_plate_world(va: (f32, f32), vb: (f32, f32)) -> (World, Vec<Plate>, Vec<Boundary>) {
    let mut world = World::new(64, 32);
    let plates = vec![moving(0, (16.0, 16.0), va), moving(1, (48.0, 16.0), vb)];
    let flat = Warp::none(&world);
    voronoi::assign(&mut world, &plates, &flat);
    let b = detect(&world, &plates, F(0.05));
    (world, plates, b)
}

fn kinds(world: &World, bs: &[Boundary]) -> (Vec<BoundaryKind>, Vec<BoundaryKind>) {
    let mut middle = Vec::new();
    let mut seam = Vec::new();
    for b in bs {
        let (x, _) = world.coords(b.cell as usize);
        if (24..40).contains(&x) {
            middle.push(b.kind);
        } else if !(8..=56).contains(&x) {
            seam.push(b.kind);
        }
    }
    assert!(!middle.is_empty() && !seam.is_empty());
    (middle, seam)
}

#[test]
fn convergent_divergent_transform_come_from_relative_velocity() {
    let (world, _, bs) = two_plate_world((0.5, 0.0), (-0.5, 0.0));
    let (middle, seam) = kinds(&world, &bs);
    assert!(middle.iter().all(|k| *k == BoundaryKind::Convergent));
    assert!(seam.iter().all(|k| *k == BoundaryKind::Divergent));

    let (world, _, bs) = two_plate_world((-0.5, 0.0), (0.5, 0.0));
    let (middle, seam) = kinds(&world, &bs);
    assert!(middle.iter().all(|k| *k == BoundaryKind::Divergent));
    assert!(seam.iter().all(|k| *k == BoundaryKind::Convergent));

    let (_, _, sliding) = two_plate_world((0.0, 0.5), (0.0, -0.5));
    assert!(sliding.iter().all(|b| b.kind == BoundaryKind::Transform));
}

#[test]
fn strength_scales_with_relative_motion() {
    let (_, _, slow) = two_plate_world((0.05, 0.0), (-0.05, 0.0));
    let (_, _, fast) = two_plate_world((0.5, 0.0), (-0.5, 0.0));
    let peak = |bs: &Vec<Boundary>| bs.iter().map(|b| b.strength.0).fold(0.0, f32::max);
    assert!(peak(&fast) > peak(&slow) * 5.0);
}

#[test]
fn normals_point_from_a_toward_b() {
    let (world, plates, bs) = two_plate_world((0.5, 0.0), (-0.5, 0.0));
    for b in &bs {
        let (x, y) = world.coords(b.cell as usize);
        let pb = plates[b.plate_b as usize];
        let toward_b = world.delta(pb.position.x, pb.position.y, F(x as f32), F(y as f32));
        assert!(
            b.normal.dot(toward_b).0 > 0.0,
            "normal {:?} at ({x},{y}) does not face plate b at {:?}",
            b.normal,
            pb.position
        );
        assert!((b.normal.length().0 - 1.0).abs() < 1e-5);
    }
}

#[test]
fn boundaries_are_found_on_both_sides_and_nowhere_else() {
    let (world, _, bs) = two_plate_world((0.5, 0.0), (-0.5, 0.0));
    assert!(!bs.is_empty());
    for b in &bs {
        let idx = b.cell as usize;
        assert_eq!(world.plate_id[idx], b.plate_a);
        let touches_other = world
            .neighbors8(idx)
            .iter()
            .any(|(n, _, _)| world.plate_id[*n] == b.plate_b);
        assert!(touches_other, "boundary cell is not actually adjacent to plate b");
    }
}

#[test]
fn boundaries_are_detected_across_the_seam() {
    let mut world = World::new(64, 16);
    let plates = vec![moving(0, (8.0, 8.0), (0.2, 0.0)), moving(1, (40.0, 8.0), (-0.2, 0.0))];
    let flat = Warp::none(&world);
    voronoi::assign(&mut world, &plates, &flat);
    let bs = detect(&world, &plates, F(0.05));
    let seam_side = bs
        .iter()
        .filter(|b| {
            let (x, _) = world.coords(b.cell as usize);
            x > 50
        })
        .count();
    assert!(seam_side > 0, "the wrapped boundary should be detected too");
}

#[test]
fn distance_field_matches_brute_force() {
    let mut world = World::new(96, 48);
    let plates = plates_for(&world, 6, 21);
    let flat = Warp::none(&world);
    voronoi::assign(&mut world, &plates, &flat);
    let bs = detect(&world, &plates, F(0.05));
    let radius = 12.0;
    let field = nearest_boundary(&world, &bs, F(radius));

    for y in 0..world.height {
        for x in 0..world.width {
            let idx = world.idx(x, y);
            let mut truth = f32::MAX;
            for b in &bs {
                let (bx, by) = world.coords(b.cell as usize);
                let d = world
                    .delta(F(bx as f32), F(by as f32), F(x as f32), F(y as f32))
                    .length()
                    .0;
                truth = truth.min(d);
            }
            match field.at(idx) {
                Some((_, d)) => assert!(
                    (d.0 - truth).abs() < 1e-3,
                    "distance wrong at ({x},{y}): {d:?} vs {truth}"
                ),
                None => assert!(
                    truth > radius,
                    "cell ({x},{y}) is {truth} away but was cut off at {radius}"
                ),
            }
        }
    }
}

#[test]
fn distance_field_respects_the_hard_cutoff() {
    let mut world = World::new(128, 64);
    let plates = plates_for(&world, 4, 3);
    let flat = Warp::none(&world);
    voronoi::assign(&mut world, &plates, &flat);
    let bs = detect(&world, &plates, F(0.05));
    let field = nearest_boundary(&world, &bs, F(6.0));
    assert!(field.dist.iter().filter(|d| d.0 <= 6.0).count() > 0);
    for i in 0..world.len() {
        if let Some((s, d)) = field.at(i) {
            assert!(d.0 <= 6.0);
            assert!((s as usize) < bs.len());
        }
    }
    let affected = (0..world.len()).filter(|i| field.at(*i).is_some()).count();
    assert!(
        affected < world.len() / 2,
        "effects should stay local: {affected} of {} cells",
        world.len()
    );
}

#[test]
fn a_cell_among_four_other_plates_has_a_record_for_each() {
    let mut world = World::new(5, 5);
    for id in world.plate_id.iter_mut() {
        *id = 0;
    }
    let around = [(3, 2, 1), (1, 2, 2), (2, 3, 3), (2, 1, 4)];
    for (x, y, id) in around {
        let i = world.idx(x, y);
        world.plate_id[i] = id;
    }
    let plates: Vec<Plate> =
        (0..5).map(|i| moving(i, (i as f32, 2.0), (0.1 * i as f32, 0.0))).collect();
    let bs = detect(&world, &plates, F(0.05));
    let centre = world.idx(2, 2) as u32;
    let met: Vec<PlateId> =
        bs.iter().filter(|b| b.cell == centre).map(|b| b.plate_b).collect();
    assert_eq!(met, vec![1, 2, 3, 4]);
}

// --- tectonics ---------------------------------------------------------------

fn with_crust(id: PlateId, pos: (f32, f32), vel: (f32, f32), crust: CrustType) -> Plate {
    Plate {
        id,
        position: v2(pos.0, pos.1),
        velocity: v2(vel.0, vel.1),
        crust_type: crust,
    }
}

fn setup(
    crust_a: CrustType,
    crust_b: CrustType,
    va: (f32, f32),
    vb: (f32, f32),
) -> (World, Vec<Plate>, Vec<Boundary>, NearestBoundary, Tectonics) {
    let mut world = World::new(96, 48);
    let plates = vec![
        with_crust(0, (16.0, 24.0), va, crust_a),
        with_crust(1, (64.0, 24.0), vb, crust_b),
    ];
    let flat = Warp::none(&world);
    voronoi::assign(&mut world, &plates, &flat);
    for i in 0..world.len() {
        let crust = plates[world.plate_id[i] as usize].crust_type;
        world.elevation[i] = if crust.is_continental() { F(0.3) } else { F(-4.0) };
    }
    let tec = tectonics(&world, 99);
    let bs = detect(&world, &plates, F(0.02));
    let field = nearest_boundary(&world, &bs, tec.max_radius());
    (world, plates, bs, field, tec)
}

fn run(
    world: &mut World,
    plates: &Vec<Plate>,
    bs: &Vec<Boundary>,
    field: &NearestBoundary,
    tec: &Tectonics,
    steps: usize,
) {
    let ages = vec![F(0.0); plates.len()];
    for _ in 0..steps {
        tec.apply(world, plates, bs, field, &ages, F(1.0));
    }
}

fn strip_change(before: &World, after: &World, x0: usize, x1: usize) -> f32 {
    let mut sum = 0.0;
    let mut n = 0;
    for y in 0..after.height {
        for x in x0..x1 {
            let i = after.idx(x, y);
            sum += after.elevation[i].0 - before.elevation[i].0;
            n += 1;
        }
    }
    sum / n as f32
}

fn column_mean(world: &World, x: usize) -> f32 {
    let mut s = 0.0;
    for y in 0..world.height {
        s += world.elevation[world.idx(x, y)].0;
    }
    s / world.height as f32
}

#[test]
fn the_field_reaches_as_far_as_the_widest_rule() {
    let reach = |params: TectonicParams<F>| Tectonics::new(params, 1, Vec::new()).max_radius();
    let usual = reach(TectonicParams::default());
    assert!(usual < F(50.0));
    assert_eq!(reach(TectonicParams { ridge_radius: F(50.0), ..Default::default() }), F(50.0));
    assert_eq!(reach(TectonicParams { new_crust_radius: F(60.0), ..Default::default() }), F(60.0));
    assert_eq!(reach(TectonicParams { ridge_radius: F(1.0), ..Default::default() }), usual);
}

#[test]
fn a_wide_ridge_is_felt_far_out() {
    let (mut world, plates, bs, _, tec) = setup(
        CrustType::Oceanic,
        CrustType::Oceanic,
        (-0.4, 0.0),
        (0.4, 0.0),
    );
    let mut params = tec.params;
    params.ridge_radius = F(40.0);
    params.collision_radius = F(5.0);
    params.orogeny_radius = F(5.0);
    params.age_subsidence_rate = F(0.0);
    let tec = Tectonics::new(params, 99, tec.stress_noise);
    let field = nearest_boundary(&world, &bs, tec.max_radius());
    let before = world.clone();
    run(&mut world, &plates, &bs, &field, &tec, 5);
    // The ridge runs between columns 40 and 41.
    assert!(strip_change(&before, &world, 17, 19) > 0.0, "the flank did not rise");
}

#[test]
fn twice_the_strength_moves_twice_as_much() {
    let (mut world, plates, bs, field, tec) = setup(
        CrustType::Continental,
        CrustType::Continental,
        (0.4, 0.0),
        (-0.4, 0.0),
    );
    let mut params = tec.params;
    params.age_subsidence_rate = F(0.0);
    let tec = Tectonics::new(params, 99, tec.stress_noise);
    for e in &mut world.elevation {
        *e = F(0.0);
    }
    let mut weak = world.clone();
    run(&mut weak, &plates, &bs, &field, &tec, 1);
    let strong: Vec<Boundary> =
        bs.iter().map(|b| Boundary { strength: F(b.strength.0 * 2.0), ..*b }).collect();
    run(&mut world, &plates, &strong, &field, &tec, 1);
    let mut moved = 0;
    for i in 0..world.len() {
        if bs[field.source[i].min(bs.len() as u32 - 1) as usize].kind == BoundaryKind::Convergent {
            let (a, b) = (weak.elevation[i].0, world.elevation[i].0);
            assert!((b - 2.0 * a).abs() <= 1e-5 * b.abs(), "{a} {b}");
            moved += (a != 0.0) as usize;
        }
    }
    assert!(moved > 100);
}

#[test]
fn continental_collision_raises_both_sides() {
    let (mut world, plates, bs, field, tec) = setup(
        CrustType::Continental,
        CrustType::Continental,
        (0.4, 0.0),
        (-0.4, 0.0),
    );
    let before = world.clone();
    run(&mut world, &plates, &bs, &field, &tec, 40);
    assert!(strip_change(&before, &world, 34, 40) > 0.3, "west side did not rise");
    assert!(strip_change(&before, &world, 41, 47) > 0.3, "east side did not rise");
}

#[test]
fn ocean_continent_convergence_digs_a_trench_and_builds_a_cordillera() {
    let (mut world, plates, bs, field, tec) = setup(
        CrustType::Oceanic,
        CrustType::Continental,
        (0.4, 0.0),
        (-0.4, 0.0),
    );
    let before = world.clone();
    run(&mut world, &plates, &bs, &field, &tec, 40);
    let ocean_side = strip_change(&before, &world, 36, 40);
    let continent_side = strip_change(&before, &world, 41, 50);
    assert!(ocean_side < -0.1, "no trench on the oceanic side: {ocean_side}");
    assert!(
        continent_side > 0.3,
        "no uplift on the continental side: {continent_side}"
    );
}

#[test]
fn oceanic_divergence_leaves_a_ridge_standing_above_its_flanks() {
    let (mut world, plates, bs, field, tec) =
        setup(CrustType::Oceanic, CrustType::Oceanic, (-0.4, 0.0), (0.4, 0.0));
    run(&mut world, &plates, &bs, &field, &tec, 60);
    let axis = column_mean(&world, 40);
    let flank = column_mean(&world, 50);
    assert!(axis > flank, "ridge axis {axis} should stand above flank {flank}");
}

#[test]
fn continental_rift_drops_the_axis_below_its_shoulders() {
    let (mut world, plates, bs, field, tec) = setup(
        CrustType::Continental,
        CrustType::Continental,
        (-0.4, 0.0),
        (0.4, 0.0),
    );
    run(&mut world, &plates, &bs, &field, &tec, 60);
    assert!(
        column_mean(&world, 40) < column_mean(&world, 49),
        "rift valley should sit below its shoulders"
    );
}

#[test]
fn effects_do_not_reach_plate_interiors() {
    let mut world = World::new(256, 96);
    let plates = vec![
        with_crust(0, (40.0, 48.0), (0.4, 0.0), CrustType::Continental),
        with_crust(1, (168.0, 48.0), (-0.4, 0.0), CrustType::Continental),
    ];
    let flat = Warp::none(&world);
    voronoi::assign(&mut world, &plates, &flat);
    world.elevation.fill(F(0.3));

    let tec = tectonics(&world, 99);
    let bs = detect(&world, &plates, F(0.02));
    let field = nearest_boundary(&world, &bs, tec.max_radius());
    let before = world.clone();
    run(&mut world, &plates, &bs, &field, &tec, 60);

    let mut peak: f32 = 0.0;
    for i in 0..world.len() {
        let moved = (world.elevation[i].0 - before.elevation[i].0).abs();
        if field.at(i).is_none() {
            assert_eq!(moved, 0.0, "cell outside every radius moved by {moved}");
        }
        peak = peak.max(moved);
    }
    assert!(peak > 0.1, "nothing happened at all");

    for i in 0..world.len() {
        if let Some((_, d)) = field.at(i) {
            if d.0 >= tec.params.collision_radius.0 * 0.5 {
                let moved = (world.elevation[i].0 - before.elevation[i].0).abs();
                assert!(
                    moved < peak * 0.3,
                    "effect still at {:.0}% of peak {:.1} cells out",
                    moved / peak * 100.0,
                    d.0
                );
            }
        }
    }

    for x in [38, 40, 42, 166, 168, 170] {
        let change = strip_change(&before, &world, x, x + 1);
        assert_eq!(change, 0.0, "plate interior at x={x} moved by {change}");
    }
}

#[test]
fn deformation_scales_with_relative_velocity() {
    let change = |speed: f32| {
        let (mut w, p, b, f, t) = setup(
            CrustType::Continental,
            CrustType::Continental,
            (speed, 0.0),
            (-speed, 0.0),
        );
        let before = w.clone();
        run(&mut w, &p, &b, &f, &t, 30);
        strip_change(&before, &w, 38, 42)
    };
    let slow = change(0.05);
    let fast = change(0.4);
    assert!(fast > slow * 4.0, "slow={slow} fast={fast}");
}

#[test]
fn isostasy_keeps_mountains_bounded() {
    let (mut world, plates, bs, field, tec) = setup(
        CrustType::Continental,
        CrustType::Continental,
        (0.5, 0.0),
        (-0.5, 0.0),
    );
    run(&mut world, &plates, &bs, &field, &tec, 4000);
    let peak = world.elevation.iter().map(|e| e.0).fold(f32::MIN, f32::max);
    assert!(
        peak < tec.params.max_elevation.0 * 1.05,
        "runaway uplift: {peak}"
    );
}

#[test]
fn spreading_centres_reset_crust_age() {
    let (mut world, plates, bs, field, tec) =
        setup(CrustType::Oceanic, CrustType::Oceanic, (-0.4, 0.0), (0.4, 0.0));
    for a in world.crust_age.iter_mut() {
        *a = F(100.0);
    }
    run(&mut world, &plates, &bs, &field, &tec, 30);
    let axis = world.crust_age[world.idx(40, 24)].0;
    let interior = world.crust_age[world.idx(16, 24)].0;
    assert!(axis < 60.0, "axis crust should be young, got {axis}");
    assert!(interior > 120.0, "interior crust should have aged, got {interior}");
}

#[test]
fn older_oceanic_plate_is_the_one_that_subducts() {
    let (_, plates, bs, _, _) =
        setup(CrustType::Oceanic, CrustType::Oceanic, (0.4, 0.0), (-0.4, 0.0));
    let b = bs.iter().find(|b| b.kind == BoundaryKind::Convergent).unwrap();
    assert_eq!(subducting_plate(b, &plates, &vec![F(10.0), F(90.0)]), 1);
    assert_eq!(subducting_plate(b, &plates, &vec![F(90.0), F(10.0)]), 0);
}

#[test]
fn oceanic_crust_always_subducts_under_continental() {
    let (_, plates, bs, _, _) =
        setup(CrustType::Oceanic, CrustType::Continental, (0.4, 0.0), (-0.4, 0.0));
    let b = bs.iter().find(|b| b.kind == BoundaryKind::Convergent).unwrap();
    assert_eq!(subducting_plate(b, &plates, &vec![F(1.0), F(500.0)]), 0);
}

#[test]
fn plates_as_old_as_each_other_are_told_apart_by_number() {
    let (_, plates, bs, _, _) =
        setup(CrustType::Oceanic, CrustType::Oceanic, (0.4, 0.0), (-0.4, 0.0));
    for b in &bs {
        assert_eq!(subducting_plate(b, &plates, &vec![F(5.0), F(5.0)]), 0);
    }
}

#[test]
fn volcanism_is_deterministic_and_stays_near_boundaries() {
    let (mut a, plates, bs, field, tec) =
        setup(CrustType::Oceanic, CrustType::Continental, (0.5, 0.0), (-0.5, 0.0));
    let mut b = a.clone();
    let ages = vec![F(0.0); plates.len()];

    let mut erupted = 0;
    for step in 0..60 {
        erupted += tec.apply_volcanism(&mut a, &plates, &bs, &ages, step, F(1.0));
        tec.apply_volcanism(&mut b, &plates, &bs, &ages, step, F(1.0));
    }
    assert!(erupted > 0, "no volcanoes formed at a subduction zone");
    assert_eq!(a.elevation, b.elevation, "volcanism must be reproducible");

    for i in 0..a.elevation.len() {
        if field.at(i).is_none() {
            assert_eq!(a.elevation[i], b.elevation[i]);
            let (x, _) = a.coords(i);
            assert!(
                (14..=18).contains(&x) || a.elevation[i] == b.elevation[i],
                "volcano in a plate interior"
            );
        }
    }
}

#[test]
fn falloff_is_monotonic_and_hits_zero_at_the_cutoff() {
    let r = F(12.0);
    let mut prev = f32::MAX;
    for i in 0..=120 {
        let d = i as f32 * 0.1;
        let f = falloff(F(d), r).0;
        assert!(f <= prev + 1e-6, "falloff must not rise: d={d}");
        assert!((0.0..=1.0).contains(&f));
        prev = f;
    }
    assert_eq!(falloff(r, r), F(0.0));
    assert_eq!(falloff(F(17.0), r), F(0.0));
    assert!(falloff(F(0.0), r).0 > 0.9);
}

#[test]
fn mean_crust_age_averages_per_plate() {
    let mut world = World::new(8, 4);
    for i in 0..world.len() {
        world.plate_id[i] = if i % 2 == 0 { 0 } else { 1 };
        world.crust_age[i] = if i % 2 == 0 { F(10.0) } else { F(30.0) };
    }
    let ages = mean_crust_age(&world, 2);
    assert!((ages[0].0 - 10.0).abs() < 1e-4);
    assert!((ages[1].0 - 30.0).abs() < 1e-4);
}

#[test]
fn a_plate_without_cells_has_no_age() {
    let mut world = World::new(8, 4);
    world.plate_id.fill(1);
    world.crust_age.fill(F(7.0));
    assert_eq!(mean_crust_age(&world, 3), vec![F(0.0), F(7.0), F(0.0)]);
}

// --- hydrology ---------------------------------------------------------------

fn flat_world(w: usize, h: usize, elev: f32) -> World {
    let mut world = World::new(w, h);
    world.elevation.fill(F(elev));
    world
}

fn routed(world: &mut World) -> FlowNetwork {
    let hydro = hydrology(world, 0.0, 7, 64);
    let mut net = FlowNetwork::new(world.len());
    hydro.rainfall(world);
    hydro.route(world, &mut net);
    net
}

#[test]
fn filled_surface_never_dips_below_terrain() {
    let mut world = flat_world(64, 32, 1.0);
    for i in 0..world.len() {
        let (x, y) = world.coords(i);
        world.elevation[i] = F(1.0 + ((x * 7 + y * 13) % 11) as f32 * 0.1);
    }
    let net = routed(&mut world);
    for i in 0..world.len() {
        assert!(
            net.filled[i].0 >= world.elevation[i].0 - 1e-6,
            "filled below terrain at {i}"
        );
    }
}

#[test]
fn every_land_cell_drains_to_an_outlet() {
    let mut world = flat_world(64, 32, 2.0);
    for i in 0..world.len() {
        let (x, y) = world.coords(i);
        world.elevation[i] = F(2.0 + ((x as f32 * 0.3).sin() * (y as f32 * 0.4).cos()) * 1.5);
    }
    let net = routed(&mut world);
    for start in 0..world.len() {
        let mut cur = start as i32;
        let mut hops = 0;
        while cur >= 0 {
            cur = net.receiver[cur as usize];
            hops += 1;
            assert!(hops <= world.len(), "cycle in the drainage network from {start}");
        }
    }
}

#[test]
fn a_basin_fills_to_its_rim_and_holds_water() {
    let mut world = flat_world(48, 48, 3.0);
    for y in 20..28 {
        for x in 20..28 {
            let i = world.idx(x, y);
            world.elevation[i] = F(0.5);
        }
    }
    let net = routed(&mut world);
    let centre = world.idx(24, 24);
    let depth = world.water[centre].0;
    assert!(depth > 2.0, "basin should hold water: {depth}");
    assert!(
        (net.filled[centre].0 - 3.0).abs() < 0.05,
        "basin should fill to the rim, got {}",
        net.filled[centre].0
    );
    assert_eq!(world.water[world.idx(5, 5)], F(0.0));
}

#[test]
fn all_rainfall_reaches_a_sink() {
    let mut world = flat_world(48, 24, 1.0);
    for i in 0..world.len() {
        let (x, y) = world.coords(i);
        world.elevation[i] = F(1.0 + (x as f32 * 0.2).sin() + (y as f32 * 0.3).cos());
    }
    let net = routed(&mut world);
    let total_rain: f64 = world.rainfall.iter().map(|r| r.0 as f64).sum();
    let at_sinks: f64 = (0..world.len())
        .filter(|i| net.receiver[*i] < 0)
        .map(|i| world.flow[i].0 as f64)
        .sum();
    assert!(
        (total_rain - at_sinks).abs() / total_rain < 1e-4,
        "water is not conserved: {total_rain} fell, {at_sinks} reached a sink"
    );
}

#[test]
fn flow_grows_downstream() {
    let mut world = flat_world(64, 32, 1.0);
    for i in 0..world.len() {
        let (_, y) = world.coords(i);
        world.elevation[i] = F(5.0 - y as f32 * 0.15);
    }
    let net = routed(&mut world);
    for i in 0..world.len() {
        let r = net.receiver[i];
        if r >= 0 {
            assert!(
                world.flow[r as usize].0 >= world.flow[i].0 - 1e-3,
                "flow shrank downstream at {i}"
            );
        }
    }
}

#[test]
fn drainage_crosses_the_seam() {
    let mut world = flat_world(64, 32, 0.0);
    for i in 0..world.len() {
        let (x, y) = world.coords(i);
        let dx = wrap_delta(F(x as f32), F(0.0), F(64.0)).0.abs();
        world.elevation[i] = F(1.0 + dx * 0.05 + (y as f32 - 16.0).abs() * 0.01);
    }
    let net = routed(&mut world);
    let west_of_seam = world.idx(63, 16);
    let mut cur = west_of_seam as i32;
    let mut crossed = false;
    let mut hops = 0;
    while cur >= 0 && hops < 1000 {
        let (x, _) = world.coords(cur as usize);
        if x <= 1 {
            crossed = true;
            break;
        }
        cur = net.receiver[cur as usize];
        hops += 1;
    }
    assert!(crossed, "water at x=63 never found the valley across the seam");
    assert!(net.receiver[west_of_seam] >= 0);
}

#[test]
fn rainfall_is_wet_at_the_equator_and_dry_in_the_subtropics() {
    let mut world = flat_world(64, 180, -1.0);
    let h = hydrology(&world, 0.0, 7, 64);
    h.rainfall(&mut world);
    let row_mean = |y: usize| {
        let mut s = 0.0;
        for x in 0..world.width {
            s += world.rainfall[world.idx(x, y)].0;
        }
        s / world.width as f32
    };
    let equator = row_mean(90);
    let subtropics = row_mean(120);
    let pole = row_mean(178);
    assert!(equator > subtropics * 1.5, "equator {equator} vs subtropics {subtropics}");
    assert!(equator > pole, "equator {equator} vs pole {pole}");
}

#[test]
fn mountains_cast_a_rain_shadow_on_their_downwind_side() {
    let mut world = flat_world(64, 32, 0.2);
    for y in 0..world.height {
        for x in 28..32 {
            let i = world.idx(x, y);
            world.elevation[i] = F(4.0);
        }
    }
    let h = hydrology(&world, 0.0, 7, 64);
    h.rainfall(&mut world);
    let rain = |x: usize, y: usize| world.rainfall[world.idx(x, y)].0;
    assert!(
        rain(28, 8) > rain(32, 8) * 1.5,
        "westerlies: west flank {} should beat east flank {}",
        rain(28, 8),
        rain(32, 8)
    );
    assert!(
        rain(31, 16) > rain(27, 16) * 1.5,
        "trades: east flank {} should beat west flank {}",
        rain(31, 16),
        rain(27, 16)
    );
}

#[test]
fn routing_is_deterministic() {
    let mut a = flat_world(48, 24, 1.0);
    for i in 0..a.len() {
        let (x, y) = a.coords(i);
        a.elevation[i] = F((x as f32 * 0.11).sin() + (y as f32 * 0.17).cos());
    }
    let mut b = a.clone();
    let na = routed(&mut a);
    let nb = routed(&mut b);
    assert_eq!(na.receiver, nb.receiver);
    assert_eq!(na.order, nb.order);
    assert_eq!(a.flow, b.flow);
}

// --- erosion -----------------------------------------------------------------

fn ramp(w: usize, h: usize) -> World {
    let mut world = World::new(w, h);
    for i in 0..world.len() {
        let (x, y) = world.coords(i);
        world.elevation[i] = F(
            6.0 - y as f32 * 0.12 + ((x as f32 * 0.7).sin() + (y as f32 * 0.4).cos()) * 0.15,
        );
    }
    world
}

/// Hydrology of one world shape, kept so that its noise is sampled once.
fn router(world: &World) -> Hydrology {
    hydrology(world, 0.0, 5, world.width)
}

fn route(hydro: &Hydrology, world: &mut World) -> FlowNetwork {
    let mut net = FlowNetwork::new(world.len());
    hydro.rainfall(world);
    hydro.route(world, &mut net);
    net
}

fn default_erosion(world: &World) -> Erosion {
    Erosion::new(ErosionParams::default(), F(0.0), world.len())
}

#[test]
fn rivers_cut_down_into_a_slope() {
    let mut world = ramp(64, 48);
    let before = world.clone();
    let hydro = router(&world);
    let mut erosion = default_erosion(&world);
    for _ in 0..20 {
        let net = route(&hydro, &mut world);
        erosion.apply(&mut world, &net, F(1.0));
    }
    let lowered = (0..world.len())
        .filter(|i| world.elevation[*i].0 < before.elevation[*i].0 - 1e-3)
        .count();
    assert!(
        lowered > world.len() / 10,
        "erosion barely did anything: {lowered} cells lowered"
    );
}

#[test]
fn bigger_rivers_cut_deeper() {
    let mut world = ramp(64, 48);
    let hydro = router(&world);
    let mut erosion = default_erosion(&world);
    for _ in 0..20 {
        let net = route(&hydro, &mut world);
        erosion.apply(&mut world, &net, F(1.0));
    }
    let net = route(&hydro, &mut world);
    erosion.apply(&mut world, &net, F(1.0));

    let mut samples: Vec<(f32, f32)> = (0..world.len())
        .filter(|i| net.receiver[*i] >= 0 && world.water[*i].0 == 0.0)
        .map(|i| (world.flow[i].0, erosion.cut[i].0))
        .collect();
    samples.sort_by(|a, b| a.0.total_cmp(&b.0));

    let q = samples.len() / 4;
    let mean = |s: &[(f32, f32)]| s.iter().map(|v| v.1).sum::<f32>() / s.len() as f32;
    let small = mean(&samples[..q]);
    let large = mean(&samples[samples.len() - q..]);
    assert!(
        large > small * 2.0,
        "high discharge cut {large} should clearly beat low discharge {small}"
    );
}

#[test]
fn sediment_is_conserved() {
    let mut world = ramp(48, 32);
    let hydro = router(&world);
    let mut erosion = Erosion::new(
        ErosionParams { diffusion: F(0.0), ..Default::default() },
        F(0.0),
        world.len(),
    );
    for _ in 0..10 {
        let net = route(&hydro, &mut world);
        let budget = erosion.apply(&mut world, &net, F(1.0));
        let accounted = budget.deposited + budget.exported;
        assert!(
            (budget.eroded - accounted).abs() <= budget.eroded * 1e-3 + 1e-6,
            "{} eroded but {} accounted for",
            budget.eroded,
            accounted
        );
    }
}

#[test]
fn lakes_and_river_mouths_collect_sediment() {
    let mut world = World::new(48, 48);
    for i in 0..world.len() {
        let (_, y) = world.coords(i);
        world.elevation[i] = F(6.0 - y as f32 * 0.1);
    }
    for y in 30..38 {
        for x in 18..30 {
            let i = world.idx(x, y);
            world.elevation[i] = F(1.0);
        }
    }
    let hydro = router(&world);
    let mut erosion = default_erosion(&world);
    for _ in 0..30 {
        let net = route(&hydro, &mut world);
        erosion.apply(&mut world, &net, F(1.0));
    }
    let basin: f32 = (30..38)
        .flat_map(|y| (18..30).map(move |x| (x, y)))
        .map(|(x, y)| world.sediment[world.idx(x, y)].0)
        .sum();
    assert!(basin > 0.0, "the basin should be silting up");
}

#[test]
fn the_sea_floor_is_left_alone_by_rivers() {
    let mut world = World::new(48, 32);
    world.elevation.fill(F(-3.0));
    for y in 0..8 {
        for x in 0..world.width {
            let i = world.idx(x, y);
            world.elevation[i] = F(4.0 - y as f32 * 0.4);
        }
    }
    let before = world.clone();
    let hydro = router(&world);
    let mut erosion = Erosion::new(
        ErosionParams { diffusion: F(0.0), ..Default::default() },
        F(0.0),
        world.len(),
    );
    for _ in 0..15 {
        let net = route(&hydro, &mut world);
        erosion.apply(&mut world, &net, F(1.0));
    }
    for y in 12..32 {
        for x in 0..world.width {
            let i = world.idx(x, y);
            assert!(
                world.elevation[i].0 >= before.elevation[i].0 - 1e-6,
                "deep sea floor was incised at ({x},{y})"
            );
        }
    }
}

#[test]
fn diffusion_rounds_off_a_spike() {
    let mut world = World::new(32, 32);
    world.elevation.fill(F(1.0));
    let peak = world.idx(16, 16);
    world.elevation[peak] = F(20.0);
    let mut erosion = Erosion::new(
        ErosionParams { diffusion: F(0.2), ..Default::default() },
        F(0.0),
        world.len(),
    );
    for _ in 0..20 {
        erosion.diffuse(&mut world, F(1.0));
    }
    let left = world.elevation[peak].0;
    assert!(left < 8.0, "spike survived: {left}");
    assert!(world.elevation[world.idx(15, 16)].0 > 1.0, "material went nowhere");
}

#[test]
fn stays_stable_under_long_runs() {
    let mut world = ramp(64, 48);
    let hydro = router(&world);
    let mut erosion = default_erosion(&world);
    for _ in 0..200 {
        let net = route(&hydro, &mut world);
        erosion.apply(&mut world, &net, F(1.0));
    }
    for (i, e) in world.elevation.iter().enumerate() {
        assert!(e.0.is_finite(), "cell {i} went non-finite");
        assert!((-50.0..50.0).contains(&e.0), "cell {i} blew up to {}", e.0);
    }
}

#[test]
fn erosion_is_deterministic() {
    let mut a = ramp(48, 32);
    let mut b = a.clone();
    let hydro = router(&a);
    let mut ea = default_erosion(&a);
    let mut eb = default_erosion(&b);
    for _ in 0..10 {
        let na = route(&hydro, &mut a);
        ea.apply(&mut a, &na, F(1.0));
        let nb = route(&hydro, &mut b);
        eb.apply(&mut b, &nb, F(1.0));
    }
    assert_eq!(a.elevation, b.elevation);
}

// --- simulation --------------------------------------------------------------

fn small(seed: u64) -> SimulationParams {
    SimulationParams {
        width: 256,
        height: 128,
        seed,
        plates: PlateParams { count: 12, ..Default::default() },
        ..SimulationParams::seeded(seed)
    }
}

#[test]
fn same_seed_gives_the_same_world() {
    let mut a = simulate(small(4242));
    let mut b = simulate(small(4242));
    a.run(25);
    b.run(25);
    assert_eq!(a.world.elevation, b.world.elevation);
    assert_eq!(a.world.plate_id, b.world.plate_id);
    assert_eq!(a.world.crust_age, b.world.crust_age);
    assert_eq!(a.world.flow, b.world.flow);
}

#[test]
fn different_seeds_give_different_worlds() {
    let mut a = simulate(small(1));
    let mut b = simulate(small(2));
    a.run(10);
    b.run(10);
    assert_ne!(a.world.elevation, b.world.elevation);
}

#[test]
fn a_long_run_stays_finite_and_bounded() {
    let mut sim = simulate(small(9));
    sim.run(150);
    for (i, e) in sim.world.elevation.iter().enumerate() {
        assert!(e.0.is_finite(), "cell {i} went non-finite");
        assert!(
            (-30.0..30.0).contains(&e.0),
            "cell {i} left any plausible range: {}",
            e.0
        );
    }
}

#[test]
fn plates_keep_moving_and_ownership_keeps_changing() {
    let mut sim = simulate(small(11));
    let start_positions: Vec<Vec2> = sim.plates.iter().map(|p| p.position).collect();
    let start_owners = sim.world.plate_id.clone();
    sim.run(30);
    assert!(
        sim.plates
            .iter()
            .zip(&start_positions)
            .any(|(p, s)| p.position != *s),
        "plates never moved"
    );
    let changed = sim
        .world
        .plate_id
        .iter()
        .zip(&start_owners)
        .filter(|(a, b)| a != b)
        .count();
    assert!(changed > 0, "no cell ever changed hands");
}

#[test]
fn all_three_boundary_types_show_up() {
    let mut sim = simulate(small(3));
    sim.run(5);
    assert!(sim.stats.convergent > 0, "no convergent boundaries");
    assert!(sim.stats.divergent > 0, "no divergent boundaries");
    assert!(sim.stats.transform > 0, "no transform boundaries");
    assert_eq!(
        sim.stats.convergent + sim.stats.divergent + sim.stats.transform,
        sim.boundaries.len()
    );
    assert_eq!(sim.stats.step, 5);
}

#[test]
fn tectonics_build_relief_and_erosion_wears_it_down() {
    let mut sim = simulate(small(17));
    let start_relief = sim.stats.max_elevation.0 - sim.stats.min_elevation.0;
    sim.run(120);
    let relief = sim.stats.max_elevation.0 - sim.stats.min_elevation.0;
    assert!(
        relief > start_relief,
        "120 steps of tectonics produced no new relief: {start_relief} -> {relief}"
    );
    assert!(sim.totals.eroded > 0.0, "erosion never ran");
    assert!(sim.totals.deposited > 0.0, "nothing was ever deposited");
}

#[test]
fn sea_level_moves_the_coastline_without_touching_the_tectonics() {
    let mut normal = simulate(small(7));
    let mut drained = simulate(SimulationParams { sea_level: F(-1.5), ..small(7) });
    normal.run(40);
    drained.run(40);
    assert!(
        drained.stats.land_fraction > normal.stats.land_fraction,
        "lowering the sea should expose land: {:?} vs {:?}",
        drained.stats.land_fraction,
        normal.stats.land_fraction
    );
    assert_eq!(
        normal.world.plate_id, drained.world.plate_id,
        "sea level must not change which plate owns what"
    );
    assert_eq!(normal.world.crust_age, drained.world.crust_age);
    assert_eq!(normal.sea_level(), F(0.0));
    assert_eq!(drained.sea_level(), F(-1.5));
}

#[test]
fn the_world_keeps_both_land_and_sea() {
    let mut sim = simulate(small(23));
    sim.run(100);
    assert!(
        (0.05..0.95).contains(&sim.stats.land_fraction.0),
        "world is all one thing: land fraction {:?}",
        sim.stats.land_fraction
    );
}

#[test]
fn crust_age_grows_but_spreading_centres_stay_young() {
    let mut sim = simulate(small(31));
    sim.run(60);
    let mean: f32 =
        sim.world.crust_age.iter().map(|a| a.0).sum::<f32>() / sim.world.len() as f32;
    let youngest = sim.world.crust_age.iter().map(|a| a.0).fold(f32::MAX, f32::min);
    assert!(mean > 30.0, "crust should have aged: mean {mean}");
    assert!(youngest < 10.0, "nothing is being resurfaced: youngest {youngest}");
}

// --- query -------------------------------------------------------------------

fn finished() -> Simulation {
    let mut sim = simulate(SimulationParams {
        width: 256,
        height: 128,
        seed: 88,
        plates: PlateParams { count: 12, ..Default::default() },
        ..SimulationParams::seeded(88)
    });
    sim.run(60);
    sim
}

#[test]
fn a_sample_agrees_with_the_raw_fields() {
    let sim = finished();
    for (x, y) in [(0usize, 0usize), (17, 43), (255, 127), (128, 64)] {
        let s = sim.sample(x, y);
        let idx = sim.world.idx(x, y);
        assert_eq!(s.elevation, sim.world.elevation[idx]);
        assert_eq!(s.plate, sim.world.plate_id[idx]);
        assert_eq!(s.crust, sim.plates[s.plate as usize].crust_type);
        assert_eq!(s.crust_age, sim.world.crust_age[idx]);
        assert_eq!(s.rainfall, sim.world.rainfall[idx]);
        assert_eq!(s.flow, sim.world.flow[idx]);
        assert_eq!(s.lake_depth, sim.world.water[idx]);
        assert_eq!(s.latitude, sim.world.latitude(y));
    }
}

#[test]
fn land_and_sea_predicates_are_consistent() {
    let sim = finished();
    for idx in (0..sim.world.len()).step_by(97) {
        let (x, y) = sim.world.coords(idx);
        let s = sim.sample(x, y);
        assert_eq!(s.is_land(), !s.is_sea());
        assert_eq!(s.is_land(), sim.is_land(x, y));
        if s.is_land() {
            assert!(s.depth().0 == 0.0 && s.altitude().0 > 0.0);
        } else {
            assert!(s.altitude().0 == 0.0 && s.depth().0 >= 0.0);
        }
    }
}

#[test]
fn sampling_wraps_east_west_and_stops_at_the_walls() {
    let sim = finished();
    let w = sim.world.width as i64;
    assert_eq!(sim.sample_at(-1, 10), Some(sim.sample(255, 10)));
    assert_eq!(sim.sample_at(w, 10), Some(sim.sample(0, 10)));
    assert_eq!(sim.sample_at(w + 5, 10), Some(sim.sample(5, 10)));
    assert_eq!(sim.sample_at(10, -1), None);
    assert_eq!(sim.sample_at(10, 128), None);
}

#[test]
fn interpolated_elevation_matches_cells_and_blends_between_them() {
    let sim = finished();
    for (x, y) in [(3usize, 9usize), (100, 50)] {
        assert!(
            (sim.elevation_at(F(x as f32), F(y as f32)).0 - sim.sample(x, y).elevation.0).abs()
                < 1e-4,
            "interpolation should be exact on cell centres"
        );
    }
    let a = sim.sample(40, 40).elevation.0;
    let b = sim.sample(41, 40).elevation.0;
    let mid = sim.elevation_at(F(40.5), F(40.0)).0;
    assert!((mid - (a + b) * 0.5).abs() < 1e-4, "{mid} is not between {a} and {b}");
}

#[test]
fn interpolation_wraps_across_the_seam() {
    let sim = finished();
    let west = sim.sample(255, 60).elevation.0;
    let east = sim.sample(0, 60).elevation.0;
    let mid = sim.elevation_at(F(255.5), F(60.0)).0;
    assert!((mid - (west + east) * 0.5).abs() < 1e-4);
}

#[test]
fn boundary_proximity_is_reported_only_near_boundaries() {
    let sim = finished();
    let mut near = 0;
    let mut interior = 0;
    for idx in 0..sim.world.len() {
        let (x, y) = sim.world.coords(idx);
        match sim.sample(x, y).boundary {
            Some(b) => {
                near += 1;
                assert!(b.distance <= sim.field.max_radius);
                assert!(b.strength.0 >= 0.0);
                assert_ne!(b.plates.0, b.plates.1);
            }
            None => interior += 1,
        }
    }
    assert!(near > 0, "no cell is near a boundary");
    assert!(interior > 0, "no cell is plate interior");
}

#[test]
fn rivers_are_land_cells_above_the_threshold() {
    let sim = finished();
    let threshold = sim.river_threshold();
    let rivers: Vec<Sample> = sim.rivers(threshold);
    assert!(!rivers.is_empty(), "world has no rivers at all");
    for r in &rivers {
        assert!(r.is_land());
        assert!(r.flow >= threshold);
    }
    assert!(rivers.len() < sim.world.len() / 20);
}

fn assert_send_sync<T: Send + Sync>() {}

#[test]
fn a_simulation_can_be_shared_between_threads() {
    assert_send_sync::<Simulation>();
    assert_send_sync::<Sample>();
}

// --- rendering ---------------------------------------------------------------

fn rendered_world() -> Simulation {
    let mut s = simulate(SimulationParams {
        width: 96,
        height: 48,
        seed: 5,
        plates: PlateParams { count: 8, ..Default::default() },
        ..SimulationParams::seeded(5)
    });
    s.run(12);
    s
}

#[test]
fn every_layer_renders_at_the_world_size() {
    let sim = rendered_world();
    for layer in Layer::ALL {
        let img = render(&sim, layer);
        assert_eq!(img.width(), 96, "{} is the wrong width", layer.name());
        assert_eq!(img.height(), 48, "{} is the wrong height", layer.name());
    }
}

#[test]
fn layers_are_not_blank() {
    let sim = rendered_world();
    for layer in Layer::ALL {
        let img = render(&sim, layer);
        let first = img.get_pixel(0, 0);
        let mut varied = false;
        for y in 0..img.height() {
            for x in 0..img.width() {
                varied = varied || img.get_pixel(x, y) != first;
            }
        }
        assert!(varied, "{} rendered a flat image", layer.name());
    }
}

#[test]
fn layer_names_round_trip() {
    for layer in Layer::ALL {
        assert_eq!(Layer::parse(layer.name()), Some(layer));
    }
    assert_eq!(Layer::parse("crust_age"), Some(Layer::CrustAge));
    assert_eq!(Layer::parse("nonsense"), None);
}

#[test]
fn ramps_are_clamped_at_both_ends() {
    assert_eq!(HYPSOMETRIC.sample(F(-500.0)), [8, 24, 58]);
    assert_eq!(HYPSOMETRIC.sample(F(500.0)), [246, 246, 248]);
    assert_eq!(INFERNO.sample(F(-1.0)), [8, 8, 20]);
    assert_eq!(INFERNO.sample(F(2.0)), [252, 252, 190]);
}

#[test]
fn drawing_wraps_across_the_seam_instead_of_panicking() {
    let mut img = Picture::new(32, 16);
    draw_arrow(&mut img, v2(31.0, 8.0), v2(40.0, 8.0), [255, 0, 0], F(1.0));
    draw_disc(&mut img, v2(0.0, 0.0), F(3.0), [0, 255, 0]);
    assert_eq!(img.get_pixel(8, 8), [255, 0, 0]);
    assert_eq!(img.get_pixel(30, 0), [0, 255, 0]);
}

#[test]
fn a_picture_unpacks_into_its_channels() {
    let mut img = Picture::new(3, 2);
    img.put_pixel(2, 1, [1, 2, 3]);
    let raw = img.into_raw();
    assert_eq!(raw.len(), 18);
    assert_eq!(&raw[15..], &[1, 2, 3]);
    assert!(raw[..15].iter().all(|c| *c == 0));
}
