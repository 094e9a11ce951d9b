use voronoi_painter::geometry::{Point, SUBPIXEL};
use voronoi_painter::voronoi::{column_anchors, is_in_column, pixel_calculator, Anchor, Color, PaintedPixel};

fn color(v: u8) -> Color {
    Color { red: v, green: v, blue: v, alpha: 255 }
}

fn anchor(x: u32, y: u32, v: u8) -> Anchor {
    Anchor { point: Point { x, y }, color: color(v) }
}

#[test]
fn equidistant_pixel_takes_first_anchor() {
    let anchors = vec![anchor(0, 0, 1), anchor(20 * SUBPIXEL, 0, 2)];
    let pixel = Point::from_pixel(10, 0);
    assert_eq!(pixel.squared_distance_from(&anchors[0].point), (10 * SUBPIXEL as u128).pow(2));
    assert_eq!(pixel.squared_distance_from(&anchors[1].point), (10 * SUBPIXEL as u128).pow(2));
    assert_eq!(pixel.closest_anchor(&anchors), Some(anchors[0]));
    let reversed = vec![anchors[1], anchors[0]];
    assert_eq!(pixel.closest_anchor(&reversed), Some(anchors[1]));
}

#[test]
fn closest_anchor_picks_strictly_nearer() {
    let anchors = vec![anchor(0, 0, 1), anchor(900, 900, 2), anchor(300, 0, 3)];
    let p = Point { x: 250, y: 10 };
    assert_eq!(p.closest_anchor(&anchors), Some(anchors[2]));
    assert_eq!(p.closest_anchor(&Vec::new()), None);
}

#[test]
fn column_band_is_strict() {
    let x = 50;
    let d = 10;
    assert!(!is_in_column(&anchor(40 * SUBPIXEL, 0, 1), x, d));
    assert!(!is_in_column(&anchor(60 * SUBPIXEL, 0, 1), x, d));
    assert!(is_in_column(&anchor(40 * SUBPIXEL + 1, 0, 1), x, d));
    assert!(is_in_column(&anchor(60 * SUBPIXEL - 1, 0, 1), x, d));
    assert!(is_in_column(&anchor(50 * SUBPIXEL, 0, 1), x, d));
}

#[test]
fn column_anchors_keep_order() {
    let all = vec![
        anchor(45 * SUBPIXEL, 0, 1),
        anchor(40 * SUBPIXEL, 0, 2),
        anchor(55 * SUBPIXEL, 0, 3),
        anchor(60 * SUBPIXEL, 0, 4),
        anchor(2 * SUBPIXEL, 0, 5),
    ];
    let kept = column_anchors(50, &all, 10);
    assert_eq!(kept, vec![all[0], all[2]]);
}

#[test]
fn band_near_left_edge_admits_column_zero_side() {
    let all = vec![anchor(0, 0, 1), anchor(9 * SUBPIXEL, 0, 2), anchor(10 * SUBPIXEL, 0, 3)];
    let kept = column_anchors(0, &all, 10);
    assert_eq!(kept, vec![all[0], all[1]]);
}

#[test]
fn column_is_painted_from_its_band() {
    let anchors = vec![
        anchor(5 * SUBPIXEL, 1 * SUBPIXEL, 10),
        anchor(5 * SUBPIXEL, 3 * SUBPIXEL, 20),
        anchor(90 * SUBPIXEL, 2 * SUBPIXEL, 30),
    ];
    let pixels = pixel_calculator(4, 4, &anchors, 10);
    let expected = vec![
        PaintedPixel { x: 4, y: 0, color: color(10) },
        PaintedPixel { x: 4, y: 1, color: color(10) },
        PaintedPixel { x: 4, y: 2, color: color(10) },
        PaintedPixel { x: 4, y: 3, color: color(20) },
    ];
    assert_eq!(pixels, expected);
}

#[test]
fn column_without_anchors_in_band_stays_unpainted() {
    let anchors = vec![anchor(90 * SUBPIXEL, 2 * SUBPIXEL, 30)];
    assert!(pixel_calculator(4, 8, &anchors, 10).is_empty());
    assert!(pixel_calculator(4, 0, &anchors, 10).is_empty());
}

#[test]
fn classifier_repeats_exactly() {
    let anchors = vec![
        anchor(48 * SUBPIXEL, 7 * SUBPIXEL, 1),
        anchor(52 * SUBPIXEL, 7 * SUBPIXEL, 2),
        anchor(50 * SUBPIXEL, 20 * SUBPIXEL, 3),
    ];
    let first = pixel_calculator(50, 30, &anchors, 10);
    let second = pixel_calculator(50, 30, &anchors, 10);
    assert_eq!(first.len(), 30);
    assert_eq!(first, second);
}
