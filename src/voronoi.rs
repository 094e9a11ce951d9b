use crate::geometry::{pixel_point, squared_distance, Point, MAX_DIMENSION, SUBPIXEL};
use vstd::prelude::*;

verus! {

/// An RGBA colour, one byte per channel.
#[derive(Clone, Copy, Debug, PartialEq, Eq, Structural)]
pub struct Color {
    pub red: u8,
    pub green: u8,
    pub blue: u8,
    pub alpha: u8,
}

/// A point bound to the colour of its Voronoi cell.
#[derive(Clone, Copy, Debug, PartialEq, Eq, Structural)]
pub struct Anchor {
    pub point: Point,
    pub color: Color,
}

/// One classified pixel: its column, its row and the colour it receives.
#[derive(Clone, Copy, Debug, PartialEq, Eq, Structural)]
pub struct PaintedPixel {
    pub x: u32,
    pub y: u32,
    pub color: Color,
}

/// Index of the nearest anchor of `s` to `p`; among equally near anchors the
/// one that comes first wins. Meaningful only when `s` is not empty.
pub open spec fn nearest_index(p: Point, s: Seq<Anchor>) -> int
    decreases s.len(),
{
    if s.len() <= 1 {
        0
    } else {
        let k = nearest_index(p, s.drop_last());
        if squared_distance(p, s.last().point) < squared_distance(p, s[k].point) {
            s.len() - 1
        } else {
            k
        }
    }
}

/// The nearest anchor of `s` to `p` (first one on ties), if `s` has any.
pub open spec fn nearest(p: Point, s: Seq<Anchor>) -> Option<Anchor> {
    if s.len() == 0 {
        None
    } else {
        Some(s[nearest_index(p, s)])
    }
}

/// The anchor chosen for `p` is at least as near as every other one, and
/// strictly nearer than every one before it: the first of the nearest wins.
pub proof fn lemma_nearest_is_first_minimum(p: Point, s: Seq<Anchor>)
    requires
        s.len() > 0,
    ensures
        0 <= nearest_index(p, s) < s.len(),
        forall|j: int|
            0 <= j < s.len() ==> squared_distance(p, s[nearest_index(p, s)].point)
                <= squared_distance(p, #[trigger] s[j].point),
        forall|j: int|
            0 <= j < nearest_index(p, s) ==> squared_distance(p, s[nearest_index(p, s)].point)
                < squared_distance(p, #[trigger] s[j].point),
    decreases s.len(),
{
    if s.len() > 1 {
        let t = s.drop_last();
        lemma_nearest_is_first_minimum(p, t);
        let k = nearest_index(p, t);
        assert forall|j: int| 0 <= j < t.len() implies #[trigger] s[j] == t[j] by {}
        assert(s[k] == t[k]);
    }
}

/// `a` lies in the band of columns around `x`: strictly within `d` pixels.
pub open spec fn in_column(a: Anchor, x: int, d: int) -> bool {
    (x - d) * SUBPIXEL < a.point.x < (x + d) * SUBPIXEL
}

/// The anchors of `s` in the band around column `x`, in their order in `s`.
pub open spec fn column_filter(s: Seq<Anchor>, x: int, d: int) -> Seq<Anchor>
    decreases s.len(),
{
    if s.len() == 0 {
        Seq::empty()
    } else {
        let rest = column_filter(s.drop_last(), x, d);
        if in_column(s.last(), x, d) {
            rest.push(s.last())
        } else {
            rest
        }
    }
}

/// The pixels of rows `0..h` of column `x` that receive a colour, top down.
pub open spec fn column_pixels(x: int, h: int, filtered: Seq<Anchor>) -> Seq<PaintedPixel>
    decreases h,
{
    if h <= 0 {
        Seq::empty()
    } else {
        let rest = column_pixels(x, h - 1, filtered);
        match nearest(pixel_point(x, h - 1), filtered) {
            Some(a) => rest.push(PaintedPixel { x: x as u32, y: (h - 1) as u32, color: a.color }),
            None => rest,
        }
    }
}

/// What classifying column `x` of an image `image_height` rows high yields.
pub open spec fn classify_column(x: int, image_height: int, anchors: Seq<Anchor>, d: int) -> Seq<
    PaintedPixel,
> {
    column_pixels(x, image_height, column_filter(anchors, x, d))
}

/// Each pixel of a classified column lies in that column and above row `h`,
/// and rows only grow along the sequence: every pixel is written at most once.
pub proof fn lemma_column_pixels_shape(x: int, h: int, filtered: Seq<Anchor>)
    requires
        0 <= x < MAX_DIMENSION,
        0 <= h <= MAX_DIMENSION,
    ensures
        forall|i: int|
            0 <= i < column_pixels(x, h, filtered).len() ==> (#[trigger] column_pixels(
                x,
                h,
                filtered,
            )[i]).x == x && column_pixels(x, h, filtered)[i].y < h,
        forall|i: int, j: int|
            0 <= i < j < column_pixels(x, h, filtered).len() ==> (#[trigger] column_pixels(
                x,
                h,
                filtered,
            )[i]).y < (#[trigger] column_pixels(x, h, filtered)[j]).y,
    decreases h,
{
    if h > 0 {
        lemma_column_pixels_shape(x, h - 1, filtered);
        let rest = column_pixels(x, h - 1, filtered);
        let all = column_pixels(x, h, filtered);
        assert forall|i: int| 0 <= i < rest.len() implies #[trigger] all[i] == rest[i] by {}
        assert forall|i: int| 0 <= i < all.len() implies (#[trigger] all[i]).x == x && all[i].y
            < h by {
            if i < rest.len() {
                assert(all[i] == rest[i]);
            }
        }
        assert forall|i: int, j: int| 0 <= i < j < all.len() implies (#[trigger] all[i]).y < (
        #[trigger] all[j]).y by {
            assert(all[i] == rest[i]);
            if j < rest.len() {
                assert(all[j] == rest[j]);
            }
        }
    }
}

impl Point {
    /// The nearest of `anchors` to this point, the first one on ties, or
    /// `None` when there are no anchors.
    pub fn closest_anchor(&self, anchors: &Vec<Anchor>) -> (r: Option<Anchor>)
        ensures
            r == nearest(*self, anchors@),
            r is None <==> anchors@.len() == 0,
            r matches Some(a) ==> forall|j: int|
                0 <= j < anchors@.len() ==> squared_distance(*self, a.point) <= squared_distance(
                    *self,
                    #[trigger] anchors@[j].point,
                ),
    {
        if anchors.len() > 0 {
            proof {
                lemma_nearest_is_first_minimum(*self, anchors@);
            }
        }
        if anchors.len() == 0 {
            return None;
        }
        let mut best: usize = 0;
        let mut best_distance: u128 = self.squared_distance_from(&anchors[0].point);
        let mut i: usize = 1;
        assert(anchors@.take(1).drop_last().len() == 0);
        while i < anchors.len()
            invariant
                1 <= i <= anchors@.len(),
                best == nearest_index(*self, anchors@.take(i as int)),
                best < i,
                best_distance == squared_distance(*self, anchors@[best as int].point),
            decreases anchors@.len() - i,
        {
            let distance = self.squared_distance_from(&anchors[i].point);
            let ghost prefix = anchors@.take(i + 1);
            assert(prefix.drop_last() =~= anchors@.take(i as int));
            assert(prefix[best as int] == anchors@[best as int]);
            if distance < best_distance {
                best = i;
                best_distance = distance;
            }
            i = i + 1;
        }
        assert(anchors@.take(i as int) =~= anchors@);
        Some(anchors[best])
    }
}

/// Whether `anchor` lies strictly within `minimum_distance` pixels of column `x`.
pub fn is_in_column(anchor: &Anchor, x: u32, minimum_distance: u32) -> (r: bool)
    requires
        x < MAX_DIMENSION,
        minimum_distance <= MAX_DIMENSION,
    ensures
        r == in_column(*anchor, x as int, minimum_distance as int),
{
    let unit = SUBPIXEL as i64;
    let low: i64 = (x as i64 - minimum_distance as i64) * unit;
    let high: i64 = (x as i64 + minimum_distance as i64) * unit;
    let ax = anchor.point.x as i64;
    low < ax && ax < high
}

/// The anchors that the classifier considers for column `x`: those strictly
/// within `minimum_distance` pixels of it horizontally, in their order.
pub fn column_anchors(x: u32, anchors: &Vec<Anchor>, minimum_distance: u32) -> (r: Vec<Anchor>)
    requires
        x < MAX_DIMENSION,
        minimum_distance <= MAX_DIMENSION,
    ensures
        r@ == column_filter(anchors@, x as int, minimum_distance as int),
{
    let mut filtered: Vec<Anchor> = Vec::with_capacity(anchors.len());
    let mut i: usize = 0;
    while i < anchors.len()
        invariant
            i <= anchors@.len(),
            x < MAX_DIMENSION,
            minimum_distance <= MAX_DIMENSION,
            filtered@ == column_filter(anchors@.take(i as int), x as int, minimum_distance as int),
        decreases anchors@.len() - i,
    {
        assert(anchors@.take(i + 1).drop_last() =~= anchors@.take(i as int));
        if is_in_column(&anchors[i], x, minimum_distance) {
            filtered.push(anchors[i]);
        }
        i = i + 1;
    }
    assert(anchors@.take(i as int) =~= anchors@);
    filtered
}

/// Classifies every pixel of column `x`: each row takes the colour of the
/// nearest anchor among those of the column's band; a row whose band is
/// empty is left out.
pub fn pixel_calculator(x: u32, image_height: u32, anchors: &Vec<Anchor>, minimum_distance: u32) -> (r:
    Vec<PaintedPixel>)
    requires
        x < MAX_DIMENSION,
        image_height <= MAX_DIMENSION,
        minimum_distance <= MAX_DIMENSION,
    ensures
        r@ == classify_column(x as int, image_height as int, anchors@, minimum_distance as int),
        forall|i: int| 0 <= i < r@.len() ==> (#[trigger] r@[i]).x == x && r@[i].y < image_height,
        forall|i: int, j: int| 0 <= i < j < r@.len() ==> (#[trigger] r@[i]).y < (#[trigger] r@[j]).y,
{
    let filtered = column_anchors(x, anchors, minimum_distance);
    let mut pixels: Vec<PaintedPixel> = Vec::new();
    let mut y: u32 = 0;
    while y < image_height
        invariant
            y <= image_height <= MAX_DIMENSION,
            x < MAX_DIMENSION,
            pixels@ == column_pixels(x as int, y as int, filtered@),
        decreases image_height - y,
    {
        let point = Point::from_pixel(x, y);
        match point.closest_anchor(&filtered) {
            Some(anchor) => {
                pixels.push(PaintedPixel { x, y, color: anchor.color });
            },
            None => {},
        }
        y = y + 1;
    }
    proof {
        lemma_column_pixels_shape(x as int, image_height as int, filtered@);
    }
    pixels
}

/// Classifying a column depends on nothing but the column, the image height,
/// the anchors and the minimum distance: two runs on the same inputs yield
/// the same pixels, in the same order.
pub proof fn lemma_classifier_deterministic(
    x: u32,
    image_height: u32,
    anchors: Seq<Anchor>,
    minimum_distance: u32,
    first: Seq<PaintedPixel>,
    second: Seq<PaintedPixel>,
)
    requires
        first == classify_column(x as int, image_height as int, anchors, minimum_distance as int),
        second == classify_column(x as int, image_height as int, anchors, minimum_distance as int),
    ensures
        first == second,
{
}

} // verus!
