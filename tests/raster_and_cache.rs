use voronoi_painter::cache::{decode_anchor_cache, encode_anchor_cache, StoredPoint};
use voronoi_painter::geometry::{Point, SUBPIXEL};
use voronoi_painter::raster::{colorize, Raster};
use voronoi_painter::voronoi::{Color, PaintedPixel};

fn color(v: u8) -> Color {
    Color { red: v, green: 0, blue: 255 - v, alpha: 255 }
}

#[test]
fn new_raster_is_blank() {
    let r = Raster::new(3, 2);
    assert_eq!(r.width(), 3);
    assert_eq!(r.height(), 2);
    assert_eq!(r.cells_ref().len(), 6);
    assert_eq!(r.get_pixel(2, 1), Color { red: 0, green: 0, blue: 0, alpha: 0 });
}

#[test]
fn put_pixel_writes_one_cell() {
    let mut r = Raster::new(3, 2);
    r.put_pixel(1, 1, color(9));
    assert_eq!(r.get_pixel(1, 1), color(9));
    assert_eq!(r.cells_ref()[4], color(9));
    assert_eq!(r.get_pixel(1, 0), Color { red: 0, green: 0, blue: 0, alpha: 0 });
}

#[test]
fn paint_applies_writes_in_order() {
    let mut r = Raster::new(2, 2);
    let writes = vec![
        PaintedPixel { x: 0, y: 1, color: color(1) },
        PaintedPixel { x: 1, y: 0, color: color(2) },
        PaintedPixel { x: 0, y: 1, color: color(3) },
    ];
    r.paint(&writes);
    assert_eq!(r.get_pixel(0, 1), color(3));
    assert_eq!(r.get_pixel(1, 0), color(2));
    assert_eq!(r.get_pixel(0, 0), Color { red: 0, green: 0, blue: 0, alpha: 0 });
}

#[test]
fn from_cells_checks_the_count() {
    assert!(Raster::from_cells(2, 2, vec![color(1); 3]).is_none());
    let r = Raster::from_cells(2, 1, vec![color(1), color(2)]).unwrap();
    assert_eq!(r.get_pixel(1, 0), color(2));
}

#[test]
fn colorize_samples_the_truncated_pixel() {
    let image = Raster::from_cells(2, 2, vec![color(1), color(2), color(3), color(4)]).unwrap();
    let points = vec![
        Point { x: SUBPIXEL + SUBPIXEL / 2, y: 10 },
        Point { x: 3, y: SUBPIXEL + 255 },
    ];
    assert!(points.iter().all(|p| image.covers(p)));
    assert!(!image.covers(&Point { x: 2 * SUBPIXEL, y: 0 }));
    let anchors = colorize(&points, &image);
    assert_eq!(anchors.len(), 2);
    assert_eq!(anchors[0].point, points[0]);
    assert_eq!(anchors[0].color, color(2));
    assert_eq!(anchors[1].color, color(3));
}

#[test]
fn single_record_round_trips() {
    let x = 12.5f64;
    let y = 0.25f64;
    let mut bytes = Vec::new();
    bytes.extend_from_slice(&x.to_le_bytes());
    bytes.extend_from_slice(&y.to_le_bytes());
    assert_eq!(bytes.len(), 16);
    let points = decode_anchor_cache(&bytes);
    assert_eq!(points, vec![StoredPoint { x_bits: x.to_bits(), y_bits: y.to_bits() }]);
    assert_eq!(encode_anchor_cache(&points), bytes);
}

#[test]
fn encoding_is_little_endian() {
    let points = vec![StoredPoint { x_bits: 0x0102030405060708, y_bits: 1 }];
    let bytes = encode_anchor_cache(&points);
    assert_eq!(
        bytes,
        vec![8, 7, 6, 5, 4, 3, 2, 1, 1, 0, 0, 0, 0, 0, 0, 0]
    );
}

#[test]
fn cache_round_trip_keeps_every_bit() {
    let points: Vec<StoredPoint> = (0..5u64)
        .map(|i| StoredPoint { x_bits: (i as f64 * 1.1).to_bits(), y_bits: u64::MAX - i })
        .collect();
    let bytes = encode_anchor_cache(&points);
    assert_eq!(bytes.len(), 80);
    assert_eq!(decode_anchor_cache(&bytes), points);
}

#[test]
fn truncated_cache_keeps_whole_records() {
    let points = vec![
        StoredPoint { x_bits: 1, y_bits: 2 },
        StoredPoint { x_bits: 3, y_bits: 4 },
    ];
    let mut bytes = encode_anchor_cache(&points);
    bytes.extend_from_slice(&[9, 9, 9, 9, 9, 9, 9, 9, 9]);
    assert_eq!(decode_anchor_cache(&bytes), points);
    assert_eq!(decode_anchor_cache(&bytes[..31]), vec![points[0]]);
    assert!(decode_anchor_cache(&[]).is_empty());
    assert!(decode_anchor_cache(&bytes[..15]).is_empty());
}
