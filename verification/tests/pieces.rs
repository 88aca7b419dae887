use rand::{RngExt as _, SeedableRng as _};
use rand_pcg::Pcg64Mcg;
use voronoi_geology::args::{
    file_name, parse_args, report_due, snapshot_due, validate, Args,
};
use voronoi_geology::boundary::{detect, nearest_boundary, BoundaryKind};
use voronoi_geology::canvas::Picture;
use voronoi_geology::distance::{nearest_seeds, NO_SOURCE};
use voronoi_geology::draw::{draw_disc, draw_line};
use voronoi_geology::erosion::{Erosion, ErosionParams};
use voronoi_geology::fixed::Fixed;
use voronoi_geology::flood::flood;
use voronoi_geology::heap::MinHeap;
use voronoi_geology::hydrology::{step_distance, FlowNetwork, Hydrology, HydrologyParams};
use voronoi_geology::layer::Layer;
use voronoi_geology::math::{
    bump, lerp, normalize_or_zero, percentile, perp, smoothstep, wrap_delta, Vec2,
};
use voronoi_geology::noise::{
    hash_signed, hash_unit, probes, rng, spread, tally, Cylinder, CylinderNoise,
};
use voronoi_geology::plate::{
    advance, place_sites, plate_rng, sample_points, site_range, CrustField, CrustType, Plate,
    PlateParams,
};
use voronoi_geology::ramp::{mix, shade, AGE, HYPSOMETRIC, INFERNO};
use voronoi_geology::render::{can_be_rendered, render};
use voronoi_geology::scalar::Scalar;
use voronoi_geology::select::{place_of, select_nth};
use voronoi_geology::simulation::{clock_seed, Fields, Ground, Simulation, SimulationParams};
use voronoi_geology::tectonics::{falloff, mean_crust_age, TectonicParams, Tectonics};
use voronoi_geology::text::{
    find_comma, read_number, read_signed, same_text, trim_between, write_padded,
};
use voronoi_geology::voronoi::{assign, Warp};
use voronoi_geology::world::{World, NO_PLATE};

fn num(n: i64) -> Fixed {
    Fixed::whole(n)
}

fn per(n: i64, d: i64) -> Fixed {
    Fixed::fraction(n, d)
}

fn at(x: i64, y: i64) -> Vec2<Fixed> {
    Vec2::new(num(x), num(y))
}

fn near(a: Fixed, b: Fixed, raw: i64) -> bool {
    (a.raw - b.raw).abs() <= raw
}

// --- numbers -----------------------------------------------------------------

#[test]
fn fixed_point_arithmetic_rounds_down_and_clamps() {
    assert_eq!(per(1, 2).raw, 32768);
    assert_eq!(per(-1, 3).raw, -21846);
    assert_eq!(num(3).plus(per(1, 2)), per(7, 2));
    assert_eq!(num(3).minus(num(5)), num(-2));
    assert_eq!(per(3, 2).times(per(-3, 2)), per(-9, 4));
    assert_eq!(num(-7).over(num(2)), per(-7, 2));
    assert_eq!(num(7).over(num(-2)), per(-7, 2));
    assert_eq!(num(1).over(num(0)), Fixed::largest());
    assert_eq!(num(-1).over(num(0)), Fixed::lowest());
    assert_eq!(num(-7).wrapped(num(3)), num(2));
    assert_eq!(Fixed::largest().plus(num(1)), Fixed::largest());
    assert_eq!(Fixed::lowest().negated(), Fixed::largest());
    assert_eq!(num(9).root(), num(3));
    assert_eq!(num(-9).root(), num(0));
    assert_eq!(num(3).power(num(2)).raw / 65536, 8);
    assert_eq!(num(4).power(per(3, 2)), num(8));
    assert_eq!(num(0).exponential(), num(1));
    assert_eq!(num(1).logarithm(), num(0));
    assert_eq!(num(8).logarithm().raw, 3 * 45426);
}

#[test]
fn fixed_point_numbers_round_to_whole_ones() {
    assert_eq!(per(-1, 2).round_down(), -1);
    assert_eq!(per(-1, 2).round_up(), 0);
    assert_eq!(per(5, 2).round_near(), 3);
    assert_eq!(num(300).to_byte(), 255);
    assert_eq!(num(-3).to_byte(), 0);
    assert_eq!(per(299, 100).to_byte(), 2);
}

#[test]
fn fixed_point_angles_are_close_to_the_circle() {
    assert_eq!(num(0).cosine(), num(1));
    assert!(near(num(0).sine(), num(0), 2));
    for i in 0..64 {
        let angle = i as f64 / 10.0;
        let x = Fixed { raw: (angle * 65536.0) as i64 };
        assert!((x.cosine().raw as f64 / 65536.0 - angle.cos()).abs() < 0.003, "{angle}");
        assert!((x.sine().raw as f64 / 65536.0 - angle.sin()).abs() < 0.003, "{angle}");
    }
}

#[test]
fn fixed_point_order_and_rank_agree() {
    let values = [num(-3), per(-1, 2), num(0), per(1, 3), num(9)];
    for (i, a) in values.iter().enumerate() {
        for (j, b) in values.iter().enumerate() {
            assert_eq!(a.less(*b), i < j);
            assert_eq!(a.at_most(*b), i <= j);
            assert_eq!(a.order_key() < b.order_key(), i < j);
        }
    }
}

#[test]
fn long_sums_are_kept_wide() {
    let mut w = Fixed::empty_sum();
    for _ in 0..3 {
        w = Fixed::gathered(w, Fixed::largest());
    }
    assert_eq!(w, 3 * (i64::MAX as i128));
    assert_eq!(Fixed::average(w, 3), Fixed::largest());
    assert_eq!(Fixed::joined(5, -7), -2);
    assert_eq!(Fixed::average(10, 0), num(0));
}

#[test]
fn values_are_picked_by_their_place_in_the_order() {
    let v = vec![num(5), num(-1), num(5), num(2), num(0)];
    let sorted: Vec<Fixed> = (0..5).map(|k| select_nth(&v, k)).collect();
    assert_eq!(sorted, vec![num(-1), num(0), num(2), num(5), num(5)]);
    assert_eq!(place_of(5, per(1, 2)), 2);
    assert_eq!(place_of(5, num(7)), 4);
    assert_eq!(place_of(5, num(-7)), 0);
    assert_eq!(percentile(&v, per(1, 4)), num(0));
}

#[test]
fn percentiles_ignore_the_order_and_never_fall() {
    let v: Vec<Fixed> = (0..37).map(|i| num((i * 17) % 23 - 9)).collect();
    let mut w = v.clone();
    w.reverse();
    w.rotate_left(5);
    let mut last = Fixed::lowest();
    for i in 0..=20 {
        let p = percentile(&v, per(i, 20));
        assert_eq!(p, percentile(&w, per(i, 20)));
        assert!(last.at_most(p));
        last = p;
    }
    assert_eq!(percentile(&v, num(0)), num(-9));
    assert_eq!(percentile(&v, num(1)), num(13));
}

#[test]
fn vectors_have_units_and_perpendiculars() {
    assert_eq!(normalize_or_zero(at(0, 0)), at(0, 0));
    assert_eq!(normalize_or_zero(at(0, -4)), at(0, -1));
    assert_eq!(perp(at(2, 5)), at(-5, 2));
    assert_eq!(at(3, 4).length(), num(5));
    assert_eq!(lerp(num(2), num(6), per(1, 4)), num(3));
    assert_eq!(smoothstep(num(0), num(2), num(1)), per(1, 2));
    assert_eq!(smoothstep(num(0), num(2), num(3)), num(1));
    assert_eq!(bump(num(3), num(3), num(2)), num(1));
}

// --- texts -------------------------------------------------------------------

#[test]
fn numbers_are_read_and_written() {
    assert_eq!(read_number("0", u64::MAX), Some(0));
    assert_eq!(read_number("007", u64::MAX), Some(7));
    assert_eq!(read_number("+12", u64::MAX), Some(12));
    assert_eq!(read_number("18446744073709551615", u64::MAX), Some(u64::MAX));
    assert_eq!(read_number("18446744073709551616", u64::MAX), None);
    assert_eq!(read_number("300", 255), None);
    for bad in ["", "+", "-1", "1 ", "1.5", "x"] {
        assert_eq!(read_number(bad, u64::MAX), None, "{bad}");
    }
    assert_eq!(read_signed("-12"), Some(-12));
    assert_eq!(read_signed("+12"), Some(12));
    assert_eq!(read_signed("-"), None);
    assert_eq!(write_padded(42, 5), "00042");
    assert_eq!(write_padded(1234567, 5), "1234567");
    assert_eq!(write_padded(0, 0), "0");
    for n in [0u64, 9, 10, 99_999, 100_000, u64::MAX] {
        assert_eq!(read_number(&write_padded(n, 5), u64::MAX), Some(n));
    }
}

#[test]
fn texts_are_compared_and_cut() {
    assert!(same_text("terrain", "terrain"));
    assert!(!same_text("terrain", "terrains"));
    assert!(!same_text("terrain", "Terrain"));
    assert_eq!(find_comma("ab,c,", 0), 2);
    assert_eq!(find_comma("ab,c,", 3), 4);
    assert_eq!(find_comma("ab", 1), 2);
    assert_eq!(trim_between("  a b\t\n", 0, 7), "a b");
    assert_eq!(trim_between("   ", 0, 3), "");
    assert_eq!(trim_between("x,\u{a0}y\u{3000}", 2, 5), "y");
}

// --- command line ------------------------------------------------------------

type Parsed = Result<Option<Args<Fixed>>, String>;

fn asked(words: &[&str]) -> Parsed {
    let words: Vec<String> = words.iter().map(|w| w.to_string()).collect();
    parse_args(&words, SimulationParams::seeded(5))
}

fn accepted(words: &[&str]) -> Args<Fixed> {
    match asked(words) {
        Ok(Some(args)) => args,
        Ok(None) => panic!("help"),
        Err(e) => panic!("{e}"),
    }
}

fn refused(words: &[&str]) -> String {
    match asked(words) {
        Ok(_) => panic!("accepted"),
        Err(e) => e,
    }
}

#[test]
fn no_options_give_the_defaults() {
    let args = accepted(&[]);
    assert_eq!(args.steps, 240);
    assert_eq!(args.out, "out");
    assert_eq!(
        args.layers,
        vec![Layer::Terrain, Layer::Plates, Layer::Boundaries, Layer::CrustAge, Layer::Flow]
    );
    assert_eq!(args.snapshot_every, 0);
    assert!(!args.quiet);
    let p = args.params;
    assert_eq!((p.width, p.height, p.seed), (1024, 512, 5));
    assert_eq!(p.plates.count, 32);
    assert_eq!(p.plates.continental_fraction, per(4, 10));
    assert_eq!(p.dt, num(1));
    assert_eq!(p.sea_level, num(0));
    assert_eq!(p.erosion_interval, 2);
}

#[test]
fn every_option_is_understood() {
    let args = accepted(&[
        "--seed", "18446744073709551615", "--steps", "7", "--plates", "9", "--continental", "1",
        "--width", "64", "--height", "32", "--dt", "2", "--sea-level", "-3", "--erosion-every",
        "0", "--out", "some where", "--layers", " terrain ,crust_age", "--snapshot-every", "3",
        "-q",
    ]);
    let p = args.params;
    assert_eq!(p.seed, u64::MAX);
    assert_eq!(args.steps, 7);
    assert_eq!(p.plates.count, 9);
    assert_eq!(p.plates.continental_fraction, num(1));
    assert_eq!((p.width, p.height), (64, 32));
    assert_eq!(p.dt, num(2));
    assert_eq!(p.sea_level, num(-3));
    assert_eq!(p.erosion_interval, 0);
    assert_eq!(args.out, "some where");
    assert_eq!(args.layers, vec![Layer::Terrain, Layer::CrustAge]);
    assert_eq!(args.snapshot_every, 3);
    assert!(args.quiet);
    assert_eq!(accepted(&["--layers", "all"]).layers, Layer::ALL.to_vec());
    assert_eq!(accepted(&["--steps", "1", "--steps", "2"]).steps, 2);
}

#[test]
fn help_comes_before_any_later_complaint() {
    assert!(matches!(asked(&["--help", "--nonsense"]), Ok(None)));
    assert!(matches!(asked(&["--plates", "0", "-h"]), Ok(None)));
}

#[test]
fn bad_options_are_refused() {
    assert_eq!(refused(&["--nonsense"]), "unknown option '--nonsense'");
    assert_eq!(refused(&["--seed"]), "--seed needs a value");
    assert_eq!(refused(&["--seed", "-1"]), "--seed: '-1' is not a valid value");
    assert_eq!(refused(&["--dt", "x"]), "--dt: 'x' is not a valid value");
    assert_eq!(
        refused(&["--erosion-every", "4294967296"]),
        "--erosion-every: '4294967296' is not a valid value"
    );
    assert_eq!(refused(&["--layers", "flow, lava"]), "unknown layer 'lava'");
    assert_eq!(refused(&["--layers", "flow,"]), "unknown layer ''");
}

#[test]
fn impossible_worlds_are_refused() {
    assert_eq!(refused(&["--width", "0"]), "world must be at least 1x3");
    assert_eq!(refused(&["--height", "2"]), "world must be at least 1x3");
    assert_eq!(
        refused(&["--plates", "1"]),
        "need at least 2 plates for there to be any boundaries"
    );
    assert_eq!(refused(&["--plates", "65535"]), "at most 65534 plates");
    assert_eq!(accepted(&["--plates", "65534"]).params.plates.count, 65534);
    assert_eq!(refused(&["--continental", "2"]), "--continental must be between 0 and 1");
    assert_eq!(refused(&["--dt", "0"]), "--dt must be positive");
    let mut args = accepted(&[]);
    assert_eq!(validate(&args), Ok(()));
    args.layers.clear();
    assert_eq!(validate(&args), Err("no layers selected".to_string()));
}

#[test]
fn files_are_named_after_layers_and_steps() {
    assert_eq!(file_name(Layer::CrustAge, None), "crust-age.png");
    assert_eq!(file_name(Layer::Flow, Some(20)), "flow-00020.png");
    assert_eq!(file_name(Layer::Flow, Some(1234567)), "flow-1234567.png");
}

#[test]
fn snapshots_and_reports_come_at_regular_steps() {
    assert!(!snapshot_due(5, 0));
    assert!(snapshot_due(6, 3));
    assert!(!snapshot_due(7, 3));
    assert!(report_due(40, 100));
    assert!(report_due(97, 97));
    assert!(!report_due(41, 100));
}

#[test]
fn the_clock_is_split_into_halves() {
    assert_eq!(clock_seed(7), [0, 7]);
    assert_eq!(clock_seed(0x5_0000_0000_0000_0002), [5, 2]);
}

// --- noise -------------------------------------------------------------------

#[test]
fn generators_start_from_seed_and_stream() {
    let mut a = rng(42, 3);
    let mut b = Pcg64Mcg::seed_from_u64(42 ^ 3u64.wrapping_mul(0x9E37_79B9_7F4A_7C15));
    let mut c = plate_rng(42);
    let mut d = rng(42, 0x91A7);
    let (x, y): (u64, u64) = (a.random(), b.random());
    assert_eq!(x, y);
    assert_ne!(x, 42);
    let (x, y): (u64, u64) = (c.random(), d.random());
    assert_eq!(x, y);
}

#[test]
fn hashes_have_known_values() {
    assert_eq!(hash_unit::<Fixed>(99, 1, 2).raw, 50425);
    assert_eq!(hash_unit::<Fixed>(1, -5, 7).raw, 18472);
    assert_eq!(hash_signed::<Fixed>(99, 1, 2).raw, 2 * 50425 - 65536);
}

#[test]
fn hashes_are_shares() {
    for i in 0..500 {
        let u = hash_unit::<Fixed>(i * 7919, i as i64 - 250, 3 * i as i64);
        assert!(num(0).at_most(u) && u.less(num(1)));
    }
}

#[test]
fn the_cylinder_closes_where_the_row_ends() {
    let c: Cylinder<Fixed> = Cylinder::new(256, num(16));
    assert_eq!(c.width, num(256));
    assert_eq!(c.y_scale, per(1, 16));
    for y in [0, 5, 100] {
        assert_eq!(c.point(num(0), num(y)), c.point(num(256), num(y)));
    }
    let [a, b, d] = c.point(num(0), num(32));
    assert_eq!(a, c.radius);
    assert!(near(b, num(0), 8));
    assert_eq!(d, num(2));
}

#[test]
fn fields_are_measured_and_scaled() {
    let points = probes::<Fixed>(100, num(10));
    assert_eq!(points.len(), 2048);
    assert_eq!(points[0], (num(0), num(0)));
    for (x, y) in points {
        assert!(num(0).at_most(x) && x.less(num(100)));
        assert!(num(0).at_most(y) && y.less(num(640)));
    }
    assert_eq!(tally(&vec![num(1), num(-2)]), (-65536, 5 * 65536));
    assert_eq!(spread(num(0), num(2048 * 9)), num(3));
    let c: Cylinder<Fixed> = Cylinder::new(8, num(4));
    assert_eq!(CylinderNoise::new(c, per(1, 4)).gain, per(32, 100).over(per(1, 4)));
    assert_eq!(CylinderNoise::new(c, num(9)).gain, per(1, 2));
    let n = CylinderNoise::new(c, per(1, 1000));
    assert_eq!(n.gain, num(8));
    assert_eq!(n.get(per(1, 4)), num(2));
}

#[test]
fn fields_of_one_world_have_seeds_of_their_own() {
    let r = SimulationParams::<Fixed>::seeded(0x1_0000_0000).recipes();
    assert_eq!((r.crust.seed, r.crust.feature_size, r.crust.octaves), (0x5EED, num(260), 3));
    assert_eq!((r.shape.seed, r.shape.feature_size, r.shape.octaves), (0x7E44, num(55), 5));
    assert_eq!(r.relief.feature_size, num(55).times(per(22, 100)));
    assert_eq!((r.age.seed, r.age.octaves), (0xA6E5, 3));
    assert_eq!((r.warp_x.seed, r.warp_y.seed), (0x1A2B, 0x3C4D));
    assert_eq!((r.stress.seed, r.stress.feature_size), (0x7EC7, num(5)));
    assert_eq!((r.rain.seed, r.rain.octaves), (0x5A10_BEE5, 4));
    let s = SimulationParams::<Fixed>::seeded(1).recipes();
    assert_eq!(s.crust.seed, 0x5EEC);
}

// --- grid --------------------------------------------------------------------

#[test]
fn worlds_start_without_plates() {
    let w: World<Fixed> = World::new(5, 3);
    assert_eq!(w.len(), 15);
    assert!(!w.is_empty());
    assert!(w.plate_id.iter().all(|p| *p == NO_PLATE));
    assert_eq!(w.clamp_y(-4), 0);
    assert_eq!(w.clamp_y(9), 2);
    assert_eq!(w.wrap_x(-6), 4);
}

#[test]
fn points_are_contained_and_measured_on_the_cylinder() {
    let w: World<Fixed> = World::new(20, 10);
    for i in -30..30 {
        let p = Vec2::new(per(i * 11, 4), per(i * 7, 5));
        let q = w.contain(p);
        assert!(num(0).at_most(q.x) && q.x.less(num(20)));
        assert!(num(0).at_most(q.y) && q.y.at_most(num(9)));
        assert_eq!(w.contain(q), q);
        let there = w.dist2(p.x, p.y, num(3), num(4));
        assert_eq!(there, w.dist2(num(3), num(4), p.x, p.y));
    }
    let north: Vec<Fixed> = (0..10).map(|y| w.latitude(y)).collect();
    assert_eq!((north[0], north[9]), (num(90), num(-90)));
    assert!(north.windows(2).all(|p| p[1].less(p[0])));
}

#[test]
fn steps_between_cells_have_their_length() {
    let w: World<Fixed> = World::new(5, 3);
    assert_eq!(step_distance(&w, w.idx(0, 1), w.idx(4, 1)), num(1));
    assert_eq!(step_distance(&w, w.idx(0, 1), w.idx(4, 2)), num(2).root());
}

#[test]
fn neighbours_are_mutual() {
    let w: World<Fixed> = World::new(6, 4);
    for i in 0..w.len() {
        for (n, _, _) in w.neighbors8(i) {
            assert!(w.neighbors8(n).iter().any(|(m, _, _)| *m == i));
        }
    }
}

#[test]
fn neighbours_are_the_cells_one_step_away() {
    let w: World<Fixed> = World::new(6, 4);
    for i in 0..w.len() {
        let (x, y) = w.coords(i);
        let mut listed: Vec<usize> = w.neighbors8(i).into_iter().map(|(n, _, _)| n).collect();
        listed.sort();
        let around: Vec<usize> = (0..w.len())
            .filter(|&j| {
                let (u, v) = w.coords(j);
                let across = (x + 6 - u) % 6;
                j != i && (across <= 1 || across == 5) && y.abs_diff(v) <= 1
            })
            .collect();
        assert_eq!(listed, around);
    }
}

#[test]
fn heaps_give_the_smallest_first() {
    let mut heap = MinHeap::new();
    for item in [(3, 1), (-5, 9), (3, 0), (7, 2), (-5, 4)] {
        heap.push(item);
    }
    let mut out = Vec::new();
    while let Some(item) = heap.pop() {
        out.push(item);
    }
    assert_eq!(out, vec![(-5, 4), (-5, 9), (3, 0), (3, 1), (7, 2)]);
}

#[test]
fn closest_seeds_are_found_across_the_seam() {
    let mut seed = vec![NO_SOURCE; 8 * 3];
    assert_eq!(nearest_seeds(&seed, 8, 3), (vec![NO_SOURCE; 24], vec![0; 24]));
    seed[7] = 4;
    let (source, d2) = nearest_seeds(&seed, 8, 3);
    assert!(source.iter().all(|s| *s == 4));
    assert_eq!(d2[7], 0);
    assert_eq!(d2[0], 1);
    assert_eq!(d2[8 + 3], 17);
    assert_eq!(d2[16], 5);
}

// --- plates ------------------------------------------------------------------

#[test]
fn crust_turns_continental_above_the_threshold() {
    let samples: Vec<Fixed> = (0..11).map(num).collect();
    let field = CrustField::new(&samples, per(3, 10));
    assert_eq!(field.threshold, num(7));
    assert!(!field.is_continental(num(7)));
    assert!(field.is_continental(num(8)));
    assert_eq!(field.continentalness(num(5)), num(-2));
    let w: World<Fixed> = World::new(9, 5);
    let points = sample_points(&w);
    assert_eq!(points, vec![(0, 0), (4, 0), (8, 0), (0, 4), (4, 4), (8, 4)]);
}

#[test]
fn continents_cover_the_requested_fraction() {
    let samples: Vec<Fixed> = (0..101).map(|i| num((i * 37) % 101)).collect();
    for percent in 0..=100 {
        let field = CrustField::new(&samples, per(percent, 100));
        let land = samples.iter().filter(|s| field.is_continental(**s)).count() as i64;
        assert!((land - percent).abs() <= 1, "{percent} {land}");
    }
    let alike = vec![num(3); 50];
    let field = CrustField::new(&alike, per(1, 2));
    assert!(!field.is_continental(num(3)));
}

#[test]
fn a_larger_share_of_continent_takes_none_away() {
    let samples: Vec<Fixed> = (0..50).map(|i| num((i * 13) % 31)).collect();
    for i in 0..10 {
        let less = CrustField::new(&samples, per(i, 10));
        let more = CrustField::new(&samples, per(i + 1, 10));
        assert!(more.threshold.at_most(less.threshold));
        for n in 0..31 {
            assert!(!less.is_continental(num(n)) || more.is_continental(num(n)));
        }
    }
}

#[test]
fn sites_are_drawn_from_inside_the_world() {
    let w: World<Fixed> = World::new(20, 10);
    let (columns, rows) = site_range(&w);
    assert_eq!((columns, rows), (num(20), num(9)));
    let params = PlateParams { count: 3, spacing_candidates: 2, ..PlateParams::default() };
    let drawn: Vec<Vec2<Fixed>> = (0..6)
        .map(|i| Vec2::new(columns.times(per(i * 2 % 7, 7)), rows.times(per(i * 5 % 7, 7))))
        .collect();
    for site in place_sites(&w, &params, &drawn) {
        assert!(drawn.contains(&site));
        assert!(num(0).at_most(site.x) && site.x.less(columns));
        assert!(num(0).at_most(site.y) && site.y.less(rows));
    }
}

#[test]
fn a_warp_may_lead_around_the_world_several_times() {
    let mut w: World<Fixed> = World::new(10, 3);
    let plate = |id, x| Plate {
        id,
        position: at(x, 1),
        velocity: at(0, 0),
        crust_type: CrustType::Oceanic,
    };
    // Cell 0 of the middle row looks from column 22, which is column 2: one
    // step from the first site, three steps from the second.
    let plates = vec![plate(0, 3), plate(1, 9)];
    let mut noise = vec![num(0); 30];
    noise[10] = num(22);
    let warp = Warp::new(&noise, &vec![num(0); 30], num(1));
    assign(&mut w, &plates, &warp);
    assert_eq!(w.plate_id[10], 0);
    noise[10] = num(-28);
    assign(&mut w, &plates, &Warp::new(&noise, &vec![num(0); 30], num(1)));
    assert_eq!(w.plate_id[10], 0);
    noise[10] = num(37);
    assign(&mut w, &plates, &Warp::new(&noise, &vec![num(0); 30], num(1)));
    assert_eq!(w.plate_id[10], 1);
}

#[test]
fn sites_go_where_the_most_room_is() {
    let w: World<Fixed> = World::new(20, 10);
    let params = PlateParams { count: 2, spacing_candidates: 2, ..PlateParams::default() };
    let sites = place_sites(&w, &params, &vec![at(1, 1), at(9, 9), at(19, 1), at(10, 1)]);
    assert_eq!(sites, vec![at(9, 9), at(19, 1)]);
    let none = PlateParams::<Fixed> { spacing_candidates: 0, ..PlateParams::default() };
    assert_eq!(none.candidates_per_site(), 1);
    let still = PlateParams { speed_min: num(2), speed_max: num(1), ..none };
    assert_eq!(still.speed_range(), (num(2), num(2).plus(per(1, 1_000_000))));
}

#[test]
fn walls_throw_plates_back() {
    let w: World<Fixed> = World::new(20, 10);
    let mut plates = vec![Plate {
        id: 0,
        position: at(19, 8),
        velocity: at(3, 4),
        crust_type: CrustType::Oceanic,
    }];
    advance(&mut plates, &w, num(1));
    assert_eq!(plates[0].position, at(2, 6));
    assert_eq!(plates[0].velocity, at(3, -4));
}

#[test]
fn bounces_are_mirror_images() {
    let w: World<Fixed> = World::new(20, 10);
    for vy in -6..=6 {
        let mut plates = vec![Plate {
            id: 0,
            position: at(1, 5),
            velocity: at(-4, vy),
            crust_type: CrustType::Oceanic,
        }];
        advance(&mut plates, &w, num(1));
        let there = 5 + vy;
        let (y, turned) = if there < 0 {
            (-there, true)
        } else if there > 9 {
            (18 - there, true)
        } else {
            (there, false)
        };
        assert_eq!(plates[0].position, at(17, y));
        assert_eq!(plates[0].velocity, at(-4, if turned { -vy } else { vy }));
    }
}

fn two_plates() -> (World<Fixed>, Vec<Plate<Fixed>>) {
    let mut w: World<Fixed> = World::new(16, 4);
    let plate = |id, x, vx, crust_type| Plate {
        id,
        position: at(x, 2),
        velocity: at(vx, 0),
        crust_type,
    };
    let plates = vec![
        plate(0, 4, 1, CrustType::Oceanic),
        plate(1, 12, -1, CrustType::Continental),
    ];
    let flat = Warp::none(&w);
    assign(&mut w, &plates, &flat);
    (w, plates)
}

#[test]
fn boundaries_have_two_sides() {
    let (w, plates) = two_plates();
    let bs = detect(&w, &plates, per(1, 20));
    assert!(!bs.is_empty());
    for b in &bs {
        assert!(bs.iter().any(|o| o.plate_a == b.plate_b && o.plate_b == b.plate_a));
    }
}

#[test]
fn kinds_follow_from_the_motion_along_the_normal() {
    let (w, mut plates) = two_plates();
    for b in detect(&w, &plates, per(1, 20)) {
        let (x, _) = w.coords(b.cell as usize);
        let middle = (5..12).contains(&x);
        assert_eq!(
            b.kind,
            if middle { BoundaryKind::Convergent } else { BoundaryKind::Divergent }
        );
        assert!(near(b.strength, num(2), 64));
    }
    plates[0].velocity = at(0, 2);
    plates[1].velocity = at(0, -1);
    for b in detect(&w, &plates, num(1)) {
        assert_eq!(b.kind, BoundaryKind::Transform);
    }
}

#[test]
fn a_common_drift_changes_no_boundary() {
    let (w, mut plates) = two_plates();
    let still = detect(&w, &plates, per(1, 20));
    for p in &mut plates {
        p.velocity = p.velocity.plus(Vec2::new(per(-7, 3), num(11)));
    }
    let drifting = detect(&w, &plates, per(1, 20));
    assert_eq!(still.len(), drifting.len());
    for (a, b) in still.iter().zip(&drifting) {
        assert_eq!((a.cell, a.plate_b, a.kind), (b.cell, b.plate_b, b.kind));
        assert_eq!((a.convergence, a.shear, a.strength), (b.convergence, b.shear, b.strength));
    }
}

#[test]
fn reversed_plates_swap_spreading_and_collision() {
    let (w, mut plates) = two_plates();
    let forth = detect(&w, &plates, per(1, 20));
    for p in &mut plates {
        p.velocity = Vec2::new(p.velocity.x.negated(), p.velocity.y.negated());
    }
    let back = detect(&w, &plates, per(1, 20));
    assert_eq!(forth.len(), back.len());
    for (a, b) in forth.iter().zip(&back) {
        assert_eq!((a.cell, a.plate_a, a.plate_b), (b.cell, b.plate_a, b.plate_b));
        match a.kind {
            BoundaryKind::Convergent => assert_eq!(b.kind, BoundaryKind::Divergent),
            BoundaryKind::Divergent => assert_eq!(b.kind, BoundaryKind::Convergent),
            BoundaryKind::Transform => assert_eq!(b.kind, BoundaryKind::Transform),
        }
        assert!(near(a.strength, b.strength, 8));
    }
}

#[test]
fn subduction_lowers_the_ocean_and_lifts_the_continent() {
    let (mut w, plates) = two_plates();
    let mut bs = detect(&w, &plates, per(1, 20));
    bs.retain(|b| b.kind == BoundaryKind::Convergent);
    let params = TectonicParams { age_subsidence_rate: num(0), ..TectonicParams::default() };
    let tec = Tectonics::new(params, 7, vec![num(0); w.len()]);
    let field = nearest_boundary(&w, &bs, num(2));
    tec.apply(&mut w, &plates, &bs, &field, &vec![num(0); 2], num(1));
    for i in 0..w.len() {
        if field.at(i).is_some() {
            if w.plate_id[i] == 0 {
                assert!(w.elevation[i].less(num(0)));
            } else {
                assert!(num(0).less(w.elevation[i]));
            }
        }
    }
}

#[test]
fn rules_reach_as_far_as_their_radius() {
    let reach = |params| Tectonics::<Fixed>::new(params, 1, Vec::new()).max_radius();
    let usual = reach(TectonicParams::default());
    assert!(usual.less(num(50)));
    assert_eq!(
        reach(TectonicParams { ridge_radius: num(50), ..TectonicParams::default() }),
        num(50)
    );
    assert_eq!(
        reach(TectonicParams { new_crust_radius: num(51), ..TectonicParams::default() }),
        num(51)
    );
    assert_eq!(
        reach(TectonicParams { transform_radius: num(52), ..TectonicParams::default() }),
        num(52)
    );
}

#[test]
fn the_strongest_record_of_a_cell_stands_for_it() {
    let (w, plates) = two_plates();
    let mut bs = detect(&w, &plates, per(1, 20));
    bs.truncate(1);
    bs.push(bs[0]);
    bs[1].strength = bs[0].strength.plus(num(1));
    bs.push(bs[0]);
    let field = nearest_boundary(&w, &bs, num(3));
    let cell = bs[0].cell as usize;
    assert_eq!(field.at(cell), Some((1, num(0))));
    assert_eq!(field.max_radius, num(3));
    for i in 0..w.len() {
        if let Some((s, d)) = field.at(i) {
            assert_eq!(s, 1);
            assert!(d.at_most(num(3)));
        } else {
            assert_eq!(field.dist[i], Fixed::largest());
        }
    }
}

#[test]
fn volcanoes_do_not_depend_on_the_order_of_boundaries() {
    let (w, plates) = two_plates();
    let mut bs = detect(&w, &plates, per(1, 20));
    let params = TectonicParams { volcano_chance: per(1, 4), ..TectonicParams::default() };
    let tec = Tectonics::new(params, 7, vec![num(0); w.len()]);
    let ages = vec![num(0); 2];
    let (mut a, mut b) = (w.clone(), w.clone());
    let mut total = 0;
    for step in 0..20 {
        let forth = tec.apply_volcanism(&mut a, &plates, &bs, &ages, step, num(1));
        bs.reverse();
        let back = tec.apply_volcanism(&mut b, &plates, &bs, &ages, step, num(1));
        bs.reverse();
        assert_eq!(forth, back);
        total += forth;
    }
    assert!(total > 0);
    assert_eq!(a.elevation, b.elevation);
}

#[test]
fn short_ways_around_are_short() {
    for (a, b, d) in [(1, 9, 2), (9, 1, -2), (7, 2, 5), (-3, 4, 3)] {
        assert_eq!(wrap_delta(num(a), num(b), num(10)), num(d));
    }
}

#[test]
fn ramps_and_falloffs_stay_between_zero_and_one() {
    for i in 0..200 {
        let d = per(i, 20);
        let f = falloff(d, num(8));
        assert!(num(0).at_most(f) && f.at_most(num(1)));
        let r = smoothstep(num(2), num(7), d);
        assert!(num(0).at_most(r) && r.at_most(num(1)));
    }
}

#[test]
fn falloff_ends_at_its_radius() {
    assert_eq!(falloff(num(5), num(5)), num(0));
    assert_eq!(falloff(num(9), num(5)), num(0));
    assert_eq!(falloff(num(0), num(5)), num(1));
}

#[test]
fn mean_ages_lie_between_the_ages() {
    let (mut w, _) = two_plates();
    for i in 0..w.len() {
        w.crust_age[i] = num((i as i64 * 29) % 41 - 5);
    }
    for (id, mean) in mean_crust_age(&w, 2).into_iter().enumerate() {
        let ages: Vec<i64> = (0..w.len())
            .filter(|i| w.plate_id[*i] as usize == id)
            .map(|i| w.crust_age[i].raw)
            .collect();
        assert_eq!(mean.raw, ages.iter().sum::<i64>().div_euclid(ages.len() as i64));
        assert!(*ages.iter().min().unwrap() <= mean.raw);
        assert!(mean.raw <= *ages.iter().max().unwrap());
    }
}

#[test]
fn falloff_only_falls() {
    let radius = num(20);
    let mut last = falloff(num(0), radius);
    assert_eq!(last, num(1));
    for i in 1..400 {
        let d = per(i, 20);
        let f = falloff(d, radius);
        assert!(f.raw <= last.raw + 4, "{i}");
        last = f;
        if i <= 280 {
            let plain = d.negated().over(radius.times(per(35, 100))).exponential();
            assert_eq!(f, plain);
        }
    }
}

// --- water -------------------------------------------------------------------

/// A valley with a hollow in it, and the sea at its southern end.
fn valley() -> World<Fixed> {
    let mut w: World<Fixed> = World::new(12, 8);
    for i in 0..w.len() {
        let (x, y) = w.coords(i);
        w.elevation[i] = num(8 - y as i64).plus(per((x as i64 * 5) % 7, 10)).minus(num(1));
    }
    let hollow = w.idx(6, 3);
    w.elevation[hollow] = per(1, 2);
    w
}

fn still_hydrology(w: &World<Fixed>) -> Hydrology<Fixed> {
    Hydrology::new(HydrologyParams::default(), num(0), vec![num(0); w.len()])
}

#[test]
fn the_flood_passes_every_cell_once_and_covers_the_ground() {
    let w = valley();
    let (filled, level, order) = flood(&w, num(0), per(1, 1000));
    let mut seen: Vec<u32> = order.clone();
    seen.sort();
    assert_eq!(seen, (0..96).collect::<Vec<u32>>());
    for i in 0..w.len() {
        assert!(w.elevation[i].at_most(filled[i]));
        assert!(w.elevation[i].at_most(level[i]));
    }
    for pair in order.windows(2) {
        assert!(filled[pair[0] as usize].at_most(filled[pair[1] as usize]));
    }
}

#[test]
fn water_is_conserved_and_grows_downstream() {
    let mut w = valley();
    let hydro = still_hydrology(&w);
    let mut net = FlowNetwork::new(w.len());
    hydro.rainfall(&mut w);
    hydro.route(&mut w, &mut net);
    let rain: i64 = w.rainfall.iter().map(|r| r.raw).sum();
    let mut at_sinks = 0;
    for i in 0..w.len() {
        let r = net.receiver[i];
        if r < 0 {
            at_sinks += w.flow[i].raw;
        } else {
            assert!(w.flow[i].at_most(w.flow[r as usize]));
            assert!(net.filled[r as usize].less(net.filled[i]));
        }
    }
    assert!(rain > 0);
    assert_eq!(rain, at_sinks);
    assert!(num(2).less(w.water[w.idx(6, 3)]));
}

#[test]
fn water_takes_the_lowest_way_in() {
    let w = valley();
    let tilt = per(1, 1000);
    let (filled, _, _) = flood(&w, num(0), tilt);
    for i in 0..w.len() {
        let (_, y) = w.coords(i);
        if w.elevation[i].at_most(num(0)) || y == 0 || y == 7 {
            assert_eq!(filled[i], w.elevation[i]);
        } else {
            let lowest = w.neighbors8(i).iter().map(|(n, _, _)| filled[*n].raw).min().unwrap();
            assert_eq!(filled[i].raw, w.elevation[i].raw.max(lowest + tilt.raw));
        }
    }
}

#[test]
fn flow_is_rain_and_inflow() {
    let mut w = valley();
    let hydro = still_hydrology(&w);
    let mut net = FlowNetwork::new(w.len());
    hydro.rainfall(&mut w);
    hydro.route(&mut w, &mut net);
    for i in 0..w.len() {
        let inflow: i64 = (0..w.len())
            .filter(|j| net.receiver[*j] == i as i32)
            .map(|j| w.flow[j].raw)
            .sum();
        assert_eq!(w.flow[i].raw, w.rainfall[i].raw + inflow);
    }
}

#[test]
fn water_takes_the_steepest_way() {
    let mut w = valley();
    let hydro = still_hydrology(&w);
    let mut net = FlowNetwork::new(w.len());
    hydro.route(&mut w, &mut net);
    let slope = |i: usize, n: usize, dx: i64, dy: i64| {
        let length = if dx != 0 && dy != 0 { num(2).root() } else { num(1) };
        net.filled[i].minus(net.filled[n]).over(length)
    };
    let mut routed = 0;
    for i in 0..w.len() {
        let around = w.neighbors8(i);
        let best = around.iter().map(|&(n, dx, dy)| slope(i, n, dx, dy).raw).max().unwrap();
        if net.receiver[i] < 0 {
            assert!(w.elevation[i].at_most(num(0)) || best <= 0);
        } else {
            let taken = around
                .iter()
                .find(|(n, _, _)| *n == net.receiver[i] as usize)
                .map(|&(n, dx, dy)| slope(i, n, dx, dy))
                .unwrap();
            assert_eq!(taken.raw, best);
            assert!(best > 0);
            routed += 1;
        }
    }
    assert!(routed > 50);
}

#[test]
fn rain_falls_the_same_twice() {
    let mut w = valley();
    let hydro = still_hydrology(&w);
    hydro.rainfall(&mut w);
    let once = w.clone();
    hydro.rainfall(&mut w);
    assert_eq!(once.rainfall, w.rainfall);
    assert_eq!(once.elevation, w.elevation);
    for i in 0..w.len() {
        if w.elevation[i].at_most(num(0)) {
            assert!(hydro.params.base_rainfall.at_most(w.rainfall[i]));
        }
    }
}

#[test]
fn mountains_have_a_wet_and_a_dry_side() {
    let mut flat: World<Fixed> = World::new(12, 8);
    for e in &mut flat.elevation {
        *e = num(1);
    }
    let mut ridge = flat.clone();
    for y in 0..8 {
        let i = ridge.idx(6, y);
        ridge.elevation[i] = num(4);
    }
    let hydro = still_hydrology(&flat);
    hydro.rainfall(&mut flat);
    hydro.rainfall(&mut ridge);
    let shadow = num(1).plus(hydro.params.rain_shadow);
    let (mut wetter, mut drier) = (0, 0);
    for i in 0..flat.len() {
        let (x, _) = flat.coords(i);
        let (a, b) = (flat.rainfall[i], ridge.rainfall[i]);
        if x == 6 {
            assert!(a.less(b));
            wetter += 1;
        } else if a != b {
            assert!(x == 5 || x == 7);
            assert!(b.less(a) && a.over(shadow).at_most(b));
            drier += 1;
        }
    }
    assert_eq!((wetter, drier), (8, 8));
}

#[test]
fn sediment_adds_up_exactly() {
    let mut w = valley();
    let hydro = still_hydrology(&w);
    let mut net = FlowNetwork::new(w.len());
    hydro.rainfall(&mut w);
    hydro.route(&mut w, &mut net);
    let mut erosion = Erosion::new(
        ErosionParams { diffusion: num(0), ..ErosionParams::default() },
        num(0),
        w.len(),
    );
    let before = w.clone();
    let budget = erosion.apply(&mut w, &net, num(1));
    assert!(budget.eroded > 0);
    assert_eq!(budget.eroded, budget.deposited);
    assert_eq!(budget.exported, 0);
    let piled = |world: &World<Fixed>| world.sediment.iter().map(|s| s.raw as i128).sum::<i128>();
    assert_eq!(piled(&w), piled(&before) + budget.deposited);
    for i in 0..w.len() {
        assert!(before.sediment[i].at_most(w.sediment[i]));
        let cut = before.elevation[i].minus(erosion.cut[i]);
        assert!(cut.at_most(w.elevation[i]));
        if net.receiver[i] >= 0 && num(0).less(erosion.cut[i]) {
            assert!(before.elevation[net.receiver[i] as usize].at_most(cut));
        }
    }
    for i in 0..w.len() {
        let r = net.receiver[i];
        if r >= 0 && num(0).less(erosion.cut[i]) {
            let drop = before.elevation[i].minus(before.elevation[r as usize]);
            assert!(erosion.cut[i].at_most(drop.times(per(3, 10))));
        } else {
            assert_eq!(erosion.cut[i], num(0));
        }
    }
}

#[test]
fn bigger_rivers_cut_no_less() {
    let mut w = valley();
    let hydro = still_hydrology(&w);
    let mut net = FlowNetwork::new(w.len());
    hydro.rainfall(&mut w);
    hydro.route(&mut w, &mut net);
    let cut = |factor: i64| {
        let mut world = w.clone();
        for f in &mut world.flow {
            *f = f.times(num(factor));
        }
        let mut erosion = Erosion::new(ErosionParams::default(), num(0), world.len());
        erosion.apply(&mut world, &net, num(1));
        erosion.cut
    };
    let (small, large) = (cut(1), cut(9));
    assert!(small.iter().zip(&large).all(|(a, b)| a.at_most(*b)));
    assert!(small.iter().zip(&large).any(|(a, b)| a.less(*b)));
}

#[test]
fn creep_rounds_off_a_spike() {
    let mut w: World<Fixed> = World::new(9, 5);
    let top = w.idx(0, 2);
    w.elevation[top] = num(10);
    let net = FlowNetwork { filled: Vec::new(), receiver: vec![-1; 45], order: vec![0; 45] };
    let mut erosion = Erosion::new(ErosionParams::default(), num(0), 45);
    for _ in 0..10 {
        let before = w.elevation.clone();
        erosion.apply(&mut w, &net, num(1));
        for i in 0..45 {
            let around = w.neighbors8(i).into_iter().map(|(n, _, _)| n).chain([i]);
            let heights: Vec<i64> = around.map(|n| before[n].raw).collect();
            assert!(w.elevation[i].raw <= *heights.iter().max().unwrap());
            assert!(w.elevation[i].raw >= *heights.iter().min().unwrap() - 1);
        }
    }
    assert!(w.elevation[top].less(num(9)));
    assert!(num(0).less(w.elevation[w.idx(8, 2)]));
}

#[test]
fn lakes_stand_at_the_flood_level() {
    let mut w = valley();
    let hydro = still_hydrology(&w);
    let mut net = FlowNetwork::new(w.len());
    hydro.route(&mut w, &mut net);
    let (_, level, _) = flood(&w, num(0), hydro.params.fill_epsilon);
    for i in 0..w.len() {
        if num(0).less(w.elevation[i]) {
            assert_eq!(w.elevation[i].plus(w.water[i]), level[i]);
        } else {
            assert_eq!(w.water[i], num(0));
        }
    }
}

// --- colours -----------------------------------------------------------------

#[test]
fn ramps_run_through_their_stops() {
    assert_eq!(HYPSOMETRIC.sample(num(0)), [206, 194, 148]);
    assert_eq!(HYPSOMETRIC.sample(num(-5)), [14, 52, 104]);
    assert_eq!(INFERNO.sample(per(1, 2)), [176, 48, 78]);
    assert_eq!(AGE.sample(num(0)), [250, 248, 168]);
    assert_eq!(INFERNO.sample(per(5, 8)), [207, 85, 55]);
}

#[test]
fn colours_mix_and_shade() {
    assert_eq!(mix([0, 100, 200], [100, 0, 200], per(1, 4)), [25, 75, 200]);
    assert_eq!(mix([0, 100, 200], [100, 0, 200], num(7)), [100, 0, 200]);
    assert_eq!(shade([10, 100, 200], per(3, 2)), [15, 150, 255]);
    assert_eq!(shade([10, 100, 200], num(-1)), [0, 0, 0]);
}

#[test]
fn pictures_keep_their_pixels() {
    let mut img = Picture::new(4, 3);
    assert_eq!((img.width(), img.height()), (4, 3));
    assert_eq!(img.get_pixel(1, 2), [0, 0, 0]);
    img.put_pixel(1, 2, [7, 8, 9]);
    assert_eq!(img.get_pixel(1, 2), [7, 8, 9]);
    assert_eq!(img.get_pixel(2, 1), [0, 0, 0]);
}

#[test]
fn lines_and_discs_wrap_and_stop_at_the_walls() {
    let mut img = Picture::new(8, 4);
    draw_line(&mut img, at(6, 1), at(9, 1), [1, 1, 1], num(1));
    for x in 0..8 {
        let drawn = x == 6 || x == 7 || x == 0 || x == 1;
        assert_eq!(img.get_pixel(x, 1), if drawn { [1, 1, 1] } else { [0, 0, 0] }, "{x}");
    }
    let mut img = Picture::new(8, 4);
    draw_disc(&mut img, at(0, 0), num(1), [2, 2, 2]);
    assert_eq!(img.get_pixel(7, 0), [2, 2, 2]);
    assert_eq!(img.get_pixel(0, 1), [2, 2, 2]);
    assert_eq!(img.get_pixel(1, 1), [0, 0, 0]);
    assert_eq!(img.get_pixel(0, 3), [0, 0, 0]);
}

// --- simulation --------------------------------------------------------------

/// A wavy field that closes around the world.
fn waves(w: usize, h: usize, k: usize) -> Vec<Fixed> {
    (0..w * h)
        .map(|i| {
            let (x, y) = ((i % w) as i64, (i / w) as i64);
            let a = (x * (k as i64 + 1) * 7 + y * 13 + k as i64 * 5) % 32;
            per(a - 16, 16)
        })
        .collect()
}

fn fixed_world(sea: i64) -> Simulation<Fixed> {
    let params = SimulationParams {
        width: 32,
        height: 16,
        sea_level: num(sea),
        plates: PlateParams { count: 4, spacing_candidates: 1, ..PlateParams::default() },
        tectonics: TectonicParams::default(),
        ..SimulationParams::seeded(3)
    };
    let crust = waves(32, 16, 0);
    let world: World<Fixed> = World::new(32, 16);
    let samples: Vec<Fixed> =
        sample_points(&world).into_iter().map(|(x, y)| crust[y * 32 + x]).collect();
    let candidates = vec![at(4, 4), at(20, 3), at(9, 12), at(27, 11)];
    let ground = Ground::survey(&params, &samples, &candidates);
    let site_noise = vec![num(1), num(-1), num(-1), num(1)];
    let angles = vec![num(0), num(2), num(4), num(5)];
    let speeds = vec![per(1, 4); 4];
    let fields = Fields {
        crust,
        shape: waves(32, 16, 1),
        relief: waves(32, 16, 2),
        age: waves(32, 16, 3),
        warp_x: waves(32, 16, 4),
        warp_y: waves(32, 16, 5),
        stress: waves(32, 16, 6),
        rain: waves(32, 16, 7),
    };
    Simulation::new(params, &ground, &site_noise, &angles, &speeds, fields)
}

#[test]
fn plates_set_off_at_their_angles() {
    let sim = fixed_world(0);
    assert_eq!(sim.plates[0].velocity.x, per(1, 4));
    assert_eq!(sim.plates[1].velocity.x, num(2).cosine().times(per(1, 4)));
    assert_eq!(sim.plates[1].velocity.y, num(2).sine().times(per(1, 4)));
    assert_eq!(sim.plates[2].crust_type, CrustType::Oceanic);
    assert_eq!(sim.plates[3].crust_type, CrustType::Continental);
}

#[test]
fn runs_add_up() {
    let mut a = fixed_world(0);
    let mut b = fixed_world(0);
    a.run(5);
    b.run(2);
    b.run(3);
    assert_eq!(a.step, 5);
    assert_eq!(b.step, 5);
    assert_eq!(a.world.elevation, b.world.elevation);
    assert_eq!(a.world.plate_id, b.world.plate_id);
    assert_eq!(a.world.flow, b.world.flow);
    assert_ne!(a.world.elevation, fixed_world(0).world.elevation);
}

#[test]
fn totals_rest_on_dry_steps() {
    let mut sim = fixed_world(0);
    sim.run(3);
    let moved = |s: &Simulation<Fixed>| (s.totals.eroded, s.totals.deposited, s.totals.exported);
    let before = moved(&sim);
    assert!(before.0 > 0);
    let (flow, sediment) = (sim.world.flow.clone(), sim.world.sediment.clone());
    sim.step();
    assert_eq!(moved(&sim), before);
    assert_eq!(sim.world.flow, flow);
    assert_eq!(sim.world.sediment, sediment);
    assert_eq!(sim.stats.erosion.eroded, 0);
    assert_eq!(sim.stats.step, 4);
    sim.step();
    assert_ne!(moved(&sim), before);
    let mut dry = fixed_world(0);
    dry.params.erosion_interval = 0;
    dry.run(4);
    assert_eq!(moved(&dry), moved(&fixed_world(0)));
}

#[test]
fn statistics_describe_the_world() {
    let mut sim = fixed_world(0);
    sim.run(4);
    let s = &sim.stats;
    assert_eq!(s.step, 4);
    assert_eq!(s.convergent + s.divergent + s.transform, sim.boundaries.len());
    for e in &sim.world.elevation {
        assert!(s.min_elevation.at_most(*e) && e.at_most(s.max_elevation));
    }
    let land = sim.world.elevation.iter().filter(|e| num(0).less(**e)).count() as i64;
    assert_eq!(s.land_fraction, num(land).over(num(512)));
}

#[test]
fn a_lower_sea_leaves_the_plates_alone_and_shows_more_land() {
    let mut high = fixed_world(0);
    let mut low = fixed_world(-3);
    assert!(high.stats.land_fraction.at_most(low.stats.land_fraction));
    high.run(3);
    low.run(3);
    assert_eq!(high.world.plate_id, low.world.plate_id);
    assert_eq!(high.world.crust_age, low.world.crust_age);
}

#[test]
fn samples_wrap_and_tell_land_from_sea() {
    let mut sim = fixed_world(0);
    sim.run(2);
    let here = sim.sample(31, 7);
    let there = sim.sample_at(-1, 7).unwrap();
    assert_eq!(here.elevation, there.elevation);
    assert_eq!(here.plate, there.plate);
    assert!(sim.sample_at(0, 16).is_none());
    assert!(sim.sample_at(0, -1).is_none());
    assert!(sim.sample_at(i64::MAX, 3).is_some());
    for y in 0..16 {
        for x in 0..32 {
            let s = sim.sample(x, y);
            assert_ne!(s.is_land(), s.is_sea());
            assert_eq!(s.is_lake(), s.is_land() && per(2, 100).less(s.lake_depth));
            assert_eq!(s.is_continental(), s.crust == CrustType::Continental);
            assert_eq!(sim.elevation_at(num(x as i64), num(y as i64)), s.elevation);
        }
    }
    let river = sim.river_threshold();
    for r in sim.rivers(river) {
        assert!(r.is_land() && river.at_most(r.flow));
    }
}

#[test]
fn rivers_come_in_order_and_thin_out() {
    let mut sim = fixed_world(-3);
    sim.run(3);
    let cells = |threshold: Fixed| -> Vec<usize> {
        sim.rivers(threshold).iter().map(|r| r.y * 32 + r.x).collect()
    };
    let low = percentile(&sim.world.flow, per(2, 10));
    let high = percentile(&sim.world.flow, per(9, 10));
    let many = cells(low);
    let few = cells(high);
    assert!(few.len() < many.len() && !few.is_empty());
    assert!(many.windows(2).all(|p| p[0] < p[1]));
    let kept: Vec<usize> =
        many.into_iter().filter(|c| high.at_most(sim.world.flow[*c])).collect();
    assert_eq!(kept, few);
}

#[test]
fn elevations_between_cells_lie_between_them() {
    let mut sim = fixed_world(0);
    sim.run(2);
    let half = per(1, 2);
    for y in 0..16 {
        for x in [0, 7, 30, 31] {
            let a = sim.sample(x, y).elevation.raw;
            let b = sim.sample((x + 1) % 32, y).elevation.raw;
            let between = sim.elevation_at(num(x as i64).plus(half), num(y as i64));
            assert_eq!(between.raw, (a + b).div_euclid(2));
        }
    }
    let lo = sim.world.elevation.iter().map(|e| e.raw).min().unwrap();
    let hi = sim.world.elevation.iter().map(|e| e.raw).max().unwrap();
    for i in -40..200 {
        let (x, y) = (per(i * 7, 3), per(i, 9));
        let e = sim.elevation_at(x, y);
        assert!(lo <= e.raw && e.raw <= hi);
        assert_eq!(sim.elevation_at(x, per(-i.abs(), 4)), sim.elevation_at(x, num(0)));
        assert_eq!(sim.elevation_at(x, num(15 + i.abs())), sim.elevation_at(x, num(15)));
    }
}

#[test]
fn pictures_show_the_world() {
    let sim = fixed_world(0);
    assert!(can_be_rendered(&sim));
    for layer in Layer::ALL {
        let img = render(&sim, layer);
        assert_eq!((img.width(), img.height()), (32, 16));
    }
    let img = render(&sim, Layer::Elevation);
    assert_eq!(img.into_raw().len(), 32 * 16 * 3);
}
