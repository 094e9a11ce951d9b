use voronoi_painter::cache::{encode_anchor_cache, StoredPoint};
use voronoi_painter::coordinate::{
    anchor_points_from_cache, anchor_points_to_cache, bits_of_coordinate, coordinate_of_bits,
    from_stored, to_stored,
};
use voronoi_painter::geometry::{Point, SUBPIXEL};

#[test]
fn coordinate_bits_are_the_exact_double() {
    assert_eq!(bits_of_coordinate(12 * SUBPIXEL + SUBPIXEL / 2), 12.5f64.to_bits());
    assert_eq!(bits_of_coordinate(1), (1.0f64 / 256.0).to_bits());
    assert_eq!(bits_of_coordinate(0), 0.0f64.to_bits());
    assert_eq!(bits_of_coordinate(u32::MAX), (u32::MAX as f64 / 256.0).to_bits());
    assert_eq!(bits_of_coordinate(SUBPIXEL), 1.0f64.to_bits());
}

#[test]
fn doubles_truncate_to_fixed_point() {
    assert_eq!(coordinate_of_bits(12.5f64.to_bits()), Some(3200));
    assert_eq!(coordinate_of_bits(0.001f64.to_bits()), Some(0));
    assert_eq!(coordinate_of_bits((-0.0f64).to_bits()), Some(0));
    assert_eq!(coordinate_of_bits(3.999f64.to_bits()), Some(1023));
    assert_eq!(coordinate_of_bits(f64::MIN_POSITIVE.to_bits() >> 1), Some(0));
}

#[test]
fn unrepresentable_doubles_have_no_coordinate() {
    assert_eq!(coordinate_of_bits((-1.0f64).to_bits()), None);
    assert_eq!(coordinate_of_bits(f64::NAN.to_bits()), None);
    assert_eq!(coordinate_of_bits(f64::INFINITY.to_bits()), None);
    assert_eq!(coordinate_of_bits(16777216.0f64.to_bits()), None);
    assert_eq!(coordinate_of_bits(16777215.99f64.to_bits()), Some(((16777215.99f64) * 256.0) as u32));
}

#[test]
fn stored_point_round_trips() {
    let p = Point { x: 77, y: 123456 };
    let s = to_stored(&p);
    assert_eq!(s.x_bits, (77.0f64 / 256.0).to_bits());
    assert_eq!(from_stored(&s), Some(p));
    let bad = StoredPoint { x_bits: (-3.0f64).to_bits(), y_bits: 0 };
    assert_eq!(from_stored(&bad), None);
}

#[test]
fn one_record_file_gives_one_point() {
    let mut bytes = Vec::new();
    bytes.extend_from_slice(&1.5f64.to_le_bytes());
    bytes.extend_from_slice(&2.25f64.to_le_bytes());
    assert_eq!(bytes.len(), 16);
    assert_eq!(anchor_points_from_cache(&bytes), Some(vec![Point { x: 384, y: 576 }]));
}

#[test]
fn saved_points_load_back() {
    let points = vec![Point { x: 1, y: 2 }, Point { x: 25600, y: 3 }, Point { x: 0, y: u32::MAX }];
    let bytes = anchor_points_to_cache(&points);
    assert_eq!(bytes.len(), 48);
    assert_eq!(&bytes[0..8], &(1.0f64 / 256.0).to_le_bytes());
    assert_eq!(anchor_points_from_cache(&bytes), Some(points.clone()));
    assert_eq!(anchor_points_from_cache(&bytes[..40]), Some(points[..2].to_vec()));
    assert_eq!(anchor_points_from_cache(&[]), Some(vec![]));
}

#[test]
fn cache_with_a_negative_coordinate_is_unusable() {
    let records = vec![
        StoredPoint { x_bits: 1.0f64.to_bits(), y_bits: 1.0f64.to_bits() },
        StoredPoint { x_bits: (-1.0f64).to_bits(), y_bits: 1.0f64.to_bits() },
    ];
    assert_eq!(anchor_points_from_cache(&encode_anchor_cache(&records)), None);
}

#[test]
fn cache_bytes_are_the_exact_doubles() {
    let points = vec![Point { x: 384, y: 640 }];
    let bytes = anchor_points_to_cache(&points);
    assert_eq!(bytes, vec![0, 0, 0, 0, 0, 0, 0xF8, 0x3F, 0, 0, 0, 0, 0, 0, 0x04, 0x40]);
    let mut expected = Vec::new();
    for p in [Point { x: 3, y: 70000 }, Point { x: 255, y: 1 }] {
        expected.extend_from_slice(&(p.x as f64 / 256.0).to_le_bytes());
        expected.extend_from_slice(&(p.y as f64 / 256.0).to_le_bytes());
    }
    let more = vec![Point { x: 3, y: 70000 }, Point { x: 255, y: 1 }];
    assert_eq!(anchor_points_to_cache(&more), expected);
}

#[test]
fn large_exponents_and_tiny_values_decode() {
    assert_eq!(coordinate_of_bits(1e300f64.to_bits()), None);
    assert_eq!(coordinate_of_bits(1e-300f64.to_bits()), Some(0));
    assert_eq!(coordinate_of_bits((1.0f64 / 512.0).to_bits()), Some(0));
    assert_eq!(coordinate_of_bits(16777215.0f64.to_bits()), Some(16777215 * 256));
}
