use rand::rngs::StdRng;
use rand::SeedableRng;
use voronoi_painter::geometry::{Point, SUBPIXEL};
use voronoi_painter::sampler::{
    accept_candidate, candidate_from_draws, generate_anchor_candidates, generate_anchor_points, is_valid_anchor, isqrt,
    random_point_at_certain_distance_from_given_point, Bounds, Distance, CANDIDATES_PER_ANCHOR, DIRECTION_SCALE,
};

fn sq(p: &Point, q: &Point) -> u128 {
    let dx = (p.x as i128 - q.x as i128).abs() as u128;
    let dy = (p.y as i128 - q.y as i128).abs() as u128;
    dx * dx + dy * dy
}

#[test]
fn squared_distance_is_sum_of_squares() {
    let p = Point { x: 3, y: 4 };
    let q = Point { x: 0, y: 0 };
    assert_eq!(p.squared_distance_from(&q), 25);
    assert_eq!(q.squared_distance_from(&p), 25);
    let far = Point { x: u32::MAX, y: u32::MAX };
    let expected = (u32::MAX as u128) * (u32::MAX as u128) * 2;
    assert_eq!(far.squared_distance_from(&q), expected);
}

#[test]
fn pixel_corner_in_fixed_point() {
    let p = Point::from_pixel(10, 3);
    assert_eq!(p, Point { x: 10 * SUBPIXEL, y: 3 * SUBPIXEL });
}

#[test]
fn generated_anchors_keep_spacing_and_bounds() {
    let mut rng = StdRng::seed_from_u64(42);
    let bounds = Bounds { width: 100, height: 100 };
    let anchors = generate_anchor_points(&mut rng, &bounds, 10);
    assert!(anchors.len() > 1);
    let limit = (10 * SUBPIXEL as u128) * (10 * SUBPIXEL as u128);
    for (i, a) in anchors.iter().enumerate() {
        assert!(a.x > 0 && (a.x as u64) < 100 * SUBPIXEL as u64);
        assert!(a.y > 0 && (a.y as u64) < 100 * SUBPIXEL as u64);
        for b in anchors.iter().skip(i + 1) {
            assert!(sq(a, b) >= limit);
        }
    }
}

#[test]
fn generation_is_deterministic_for_a_seed() {
    let bounds = Bounds { width: 100, height: 100 };
    let mut first_rng = StdRng::seed_from_u64(7);
    let mut second_rng = StdRng::seed_from_u64(7);
    let first = generate_anchor_points(&mut first_rng, &bounds, 10);
    let second = generate_anchor_points(&mut second_rng, &bounds, 10);
    assert_eq!(first, second);
}

#[test]
fn tiny_image_keeps_a_single_anchor() {
    let mut rng = StdRng::seed_from_u64(1);
    let bounds = Bounds { width: 1, height: 1 };
    let anchors = generate_anchor_points(&mut rng, &bounds, 10);
    assert_eq!(anchors.len(), 1);
    assert!(anchors[0].x > 0 && anchors[0].x < SUBPIXEL);
}

#[test]
fn candidates_lie_in_the_annulus() {
    let mut rng = StdRng::seed_from_u64(3);
    let bounds = Bounds { width: 200, height: 200 };
    let source = Point::from_pixel(100, 100);
    let distance = Distance { minimum: 10, maximum: 20 };
    let candidates = generate_anchor_candidates(&mut rng, &source, &distance, &bounds);
    assert_eq!(candidates.len(), CANDIDATES_PER_ANCHOR);
    let lo = (10 * SUBPIXEL as u128).pow(2);
    let hi = (20 * SUBPIXEL as u128).pow(2);
    for c in &candidates {
        let d = sq(&source, c);
        assert!(lo <= d && d <= hi);
        assert_ne!(*c, source);
    }
}

#[test]
fn candidate_near_a_corner_stays_inside() {
    let mut rng = StdRng::seed_from_u64(5);
    let bounds = Bounds { width: 30, height: 30 };
    let source = Point { x: 1, y: 1 };
    let distance = Distance { minimum: 10, maximum: 20 };
    for _ in 0..50 {
        let p = random_point_at_certain_distance_from_given_point(
            &mut rng, &source, &distance, &bounds,
        )
        .unwrap();
        assert!(p.x > 0 && p.x < 30 * SUBPIXEL);
        assert!(p.y > 0 && p.y < 30 * SUBPIXEL);
    }
}

#[test]
fn impossible_annulus_gives_no_candidate() {
    let mut rng = StdRng::seed_from_u64(9);
    let bounds = Bounds { width: 5, height: 5 };
    let source = Point::from_pixel(2, 2);
    let distance = Distance { minimum: 10, maximum: 20 };
    let p = random_point_at_certain_distance_from_given_point(&mut rng, &source, &distance, &bounds);
    assert_eq!(p, None);
}

#[test]
fn validity_needs_the_full_distance() {
    let anchors = vec![Point::from_pixel(0, 0), Point::from_pixel(50, 50)];
    assert!(is_valid_anchor(&Point::from_pixel(10, 0), &anchors, 10));
    assert!(!is_valid_anchor(&Point { x: 10 * SUBPIXEL - 1, y: 0 }, &anchors, 10));
    assert!(is_valid_anchor(&Point::from_pixel(3, 3), &Vec::new(), 10));
}

#[test]
fn integer_square_root_rounds_down() {
    assert_eq!(isqrt(0), 0);
    assert_eq!(isqrt(1), 1);
    assert_eq!(isqrt(2), 1);
    assert_eq!(isqrt(99), 9);
    assert_eq!(isqrt(100), 10);
    assert_eq!(isqrt(2 * 32768 * 32768), 46340);
    assert_eq!(isqrt(u32::MAX as u64), 65535);
}

#[test]
fn candidate_distances_spread_over_the_annulus() {
    let mut rng = StdRng::seed_from_u64(11);
    let bounds = Bounds { width: 400, height: 400 };
    let source = Point::from_pixel(200, 200);
    let distance = Distance { minimum: 10, maximum: 20 };
    let mut inner = 0;
    let mut east = 0;
    for _ in 0..2000 {
        let p = random_point_at_certain_distance_from_given_point(&mut rng, &source, &distance, &bounds)
            .unwrap();
        if sq(&source, &p) < (15 * SUBPIXEL as u128).pow(2) {
            inner += 1;
        }
        if p.x > source.x {
            east += 1;
        }
    }
    // A distance uniform in [10, 20] falls below 15 about half of the time.
    assert!(inner > 850 && inner < 1150, "inner = {}", inner);
    assert!(east > 850 && east < 1150, "east = {}", east);
}

#[test]
fn accepting_appends_only_far_candidates() {
    let mut anchors = vec![Point::from_pixel(20, 20)];
    assert!(!accept_candidate(&mut anchors, Point::from_pixel(25, 20), 10));
    assert_eq!(anchors, vec![Point::from_pixel(20, 20)]);
    assert!(accept_candidate(&mut anchors, Point::from_pixel(30, 20), 10));
    assert_eq!(anchors, vec![Point::from_pixel(20, 20), Point::from_pixel(30, 20)]);
    assert!(!accept_candidate(&mut anchors, Point::from_pixel(38, 20), 10));
    assert_eq!(anchors.len(), 2);
}

#[test]
fn candidate_follows_the_drawn_direction_and_length() {
    let bounds = Bounds { width: 200, height: 200 };
    let source = Point::from_pixel(100, 100);
    let distance = Distance { minimum: 10, maximum: 20 };
    let s = DIRECTION_SCALE;
    let east = candidate_from_draws(&source, 2 * s, s, 15 * 256, &distance, &bounds);
    assert_eq!(east, Some(Point { x: 25600 + 3840, y: 25600 }));
    let north = candidate_from_draws(&source, s, 0, 10 * 256, &distance, &bounds);
    assert_eq!(north, Some(Point { x: 25600, y: 25600 - 2560 }));
    // 3-4-5 direction
    let diagonal = candidate_from_draws(&source, s - 3 * 4096, s + 4 * 4096, 20 * 256, &distance, &bounds);
    assert_eq!(diagonal, Some(Point { x: 25600 - 3072, y: 25600 + 4096 }));
    // the centre and points outside the disk give nothing
    assert_eq!(candidate_from_draws(&source, s, s, 2560, &distance, &bounds), None);
    assert_eq!(candidate_from_draws(&source, 0, 0, 2560, &distance, &bounds), None);
    // leaving the bounds gives nothing
    let edge = Point::from_pixel(5, 100);
    assert_eq!(candidate_from_draws(&edge, 0, s, 2560, &distance, &bounds), None);
}

#[test]
fn every_later_anchor_was_drawn_near_an_earlier_one() {
    let mut rng = StdRng::seed_from_u64(21);
    let bounds = Bounds { width: 120, height: 80 };
    let anchors = generate_anchor_points(&mut rng, &bounds, 10);
    let lo = (10 * SUBPIXEL as u128).pow(2);
    let hi = (20 * SUBPIXEL as u128).pow(2);
    for i in 1..anchors.len() {
        assert!((0..i).any(|j| {
            let d = sq(&anchors[j], &anchors[i]);
            lo <= d && d <= hi
        }));
    }
}
