use vstd::prelude::*;

verus! {

/// Number of fixed-point units in one pixel, along each axis.
pub const SUBPIXEL: u32 = 256;

/// Largest image side, in pixels, whose fixed-point coordinates fit in `u32`.
pub const MAX_DIMENSION: u32 = 16777216;

/// A point of the image plane, in fixed-point units (`SUBPIXEL` per pixel).
#[derive(Clone, Copy, Debug, PartialEq, Eq, Structural)]
pub struct Point {
    pub x: u32,
    pub y: u32,
}

/// The squared Euclidean distance between two points, in squared units.
pub open spec fn squared_distance(p: Point, q: Point) -> int {
    (p.x - q.x) * (p.x - q.x) + (p.y - q.y) * (p.y - q.y)
}

/// The fixed-point point at the corner of pixel `(x, y)`.
pub open spec fn pixel_point(x: int, y: int) -> Point {
    Point { x: (x * SUBPIXEL) as u32, y: (y * SUBPIXEL) as u32 }
}

proof fn lemma_square_bound(d: u32)
    ensures
        0 <= d * d <= 0xffff_fffe_0000_0001u128,
{
    assert(0 <= d * d <= 0xffff_ffffu128 * 0xffff_ffffu128) by (nonlinear_arith)
        requires 0 <= d <= 0xffff_ffffu32;
}

fn gap(a: u32, b: u32) -> (r: u32)
    ensures
        r == if a >= b { a - b } else { b - a },
        r * r == (a - b) * (a - b),
{
    let r = if a >= b {
        a - b
    } else {
        b - a
    };
    assert(r * r == (a - b) * (a - b)) by (nonlinear_arith)
        requires
            r == a - b || r == b - a,
    ;
    r
}

impl Point {
    /// The point at the corner of pixel `(x, y)`.
    pub fn from_pixel(x: u32, y: u32) -> (r: Point)
        requires
            x < MAX_DIMENSION,
            y < MAX_DIMENSION,
        ensures
            r == pixel_point(x as int, y as int),
            r.x == x * SUBPIXEL,
            r.y == y * SUBPIXEL,
    {
        Point { x: x * SUBPIXEL, y: y * SUBPIXEL }
    }

    /// The squared distance to `other`; no square root is ever taken.
    pub fn squared_distance_from(&self, other: &Point) -> (r: u128)
        ensures
            r == squared_distance(*self, *other),
    {
        let dx = gap(self.x, other.x);
        let dy = gap(self.y, other.y);
        proof {
            lemma_square_bound(dx);
            lemma_square_bound(dy);
        }
        let h = (dx as u128) * (dx as u128);
        let v = (dy as u128) * (dy as u128);
        h + v
    }
}

} // verus!
