use crate::geometry::{Point, SUBPIXEL};
use crate::voronoi::{Anchor, Color, PaintedPixel};
use vstd::prelude::*;

verus! {

/// The colour of a pixel that nothing has written.
pub open spec fn blank() -> Color {
    Color { red: 0, green: 0, blue: 0, alpha: 0 }
}

fn blank_color() -> (r: Color)
    ensures
        r == blank(),
{
    Color { red: 0, green: 0, blue: 0, alpha: 0 }
}

/// A grid of RGBA pixels, stored row by row.
#[derive(Debug)]
pub struct Raster {
    width: u32,
    height: u32,
    cells: Vec<Color>,
}

/// Position of pixel `(x, y)` in a row-major grid `w` pixels wide.
pub open spec fn cell_index(x: int, y: int, w: int) -> int {
    y * w + x
}

/// The cells of a `w`-wide grid after the writes of `writes`, in order.
pub open spec fn apply_writes(cells: Seq<Color>, w: int, writes: Seq<PaintedPixel>) -> Seq<Color>
    decreases writes.len(),
{
    if writes.len() == 0 {
        cells
    } else {
        let p = writes.last();
        apply_writes(cells, w, writes.drop_last()).update(cell_index(p.x as int, p.y as int, w), p.color)
    }
}

/// The pixel that holds point `p`: its coordinates truncated to whole pixels.
pub open spec fn pixel_of(p: Point) -> (int, int) {
    ((p.x / SUBPIXEL) as int, (p.y / SUBPIXEL) as int)
}

proof fn lemma_cell_in_range(x: int, y: int, w: int, h: int)
    requires
        0 <= x < w,
        0 <= y < h,
    ensures
        0 <= cell_index(x, y, w) < w * h,
{
    assert(0 <= y * w + x < w * h) by (nonlinear_arith)
        requires
            0 <= x < w,
            0 <= y < h,
    ;
}

impl Raster {
    pub closed spec fn spec_width(&self) -> int {
        self.width as int
    }

    pub closed spec fn spec_height(&self) -> int {
        self.height as int
    }

    /// The pixels, row by row.
    pub closed spec fn cells(&self) -> Seq<Color> {
        self.cells@
    }

    /// One cell per pixel, and the count fits in memory.
    pub closed spec fn wf(&self) -> bool {
        &&& self.cells@.len() == self.width * self.height
        &&& self.width * self.height <= usize::MAX
    }

    /// Pixel `(x, y)` lies inside the raster.
    pub open spec fn holds(&self, x: int, y: int) -> bool {
        0 <= x < self.spec_width() && 0 <= y < self.spec_height()
    }

    /// The colour at pixel `(x, y)`.
    pub open spec fn color_at(&self, x: int, y: int) -> Color {
        self.cells()[cell_index(x, y, self.spec_width())]
    }

    /// A `width` by `height` raster whose every pixel is blank (all channels zero).
    pub fn new(width: u32, height: u32) -> (r: Raster)
        requires
            width * height <= usize::MAX,
        ensures
            r.wf(),
            r.spec_width() == width,
            r.spec_height() == height,
            r.cells() == Seq::new((width * height) as nat, |i: int| blank()),
    {
        let n = width as usize * height as usize;
        let mut cells: Vec<Color> = Vec::with_capacity(n);
        let blank_cell = blank_color();
        let mut i: usize = 0;
        while i < n
            invariant
                i <= n,
                blank_cell == blank(),
                cells@ == Seq::new(i as nat, |k: int| blank()),
            decreases n - i,
        {
            cells.push(blank_cell);
            i = i + 1;
        }
        Raster { width, height, cells }
    }

    /// A raster over the given cells, row by row; `None` when their number is
    /// not `width * height`.
    pub fn from_cells(width: u32, height: u32, cells: Vec<Color>) -> (r: Option<Raster>)
        ensures
            r is Some <==> cells@.len() == width * height,
            r matches Some(g) ==> g.wf() && g.spec_width() == width && g.spec_height() == height
                && g.cells() == cells@,
    {
        assert(width * height <= 0xffff_ffffu64 * 0xffff_ffffu64) by (nonlinear_arith)
            requires
                width <= 0xffff_ffffu32,
                height <= 0xffff_ffffu32,
        ;
        if cells.len() as u64 == width as u64 * height as u64 {
            Some(Raster { width, height, cells })
        } else {
            None
        }
    }

    pub fn width(&self) -> (r: u32)
        ensures
            r == self.spec_width(),
    {
        self.width
    }

    pub fn height(&self) -> (r: u32)
        ensures
            r == self.spec_height(),
    {
        self.height
    }

    /// The pixels, row by row.
    pub fn cells_ref(&self) -> (r: &Vec<Color>)
        ensures
            r@ == self.cells(),
    {
        &self.cells
    }

    /// The colour at pixel `(x, y)`.
    pub fn get_pixel(&self, x: u32, y: u32) -> (r: Color)
        requires
            self.wf(),
            self.holds(x as int, y as int),
        ensures
            r == self.color_at(x as int, y as int),
    {
        proof {
            lemma_cell_in_range(x as int, y as int, self.width as int, self.height as int);
        }
        self.cells[y as usize * self.width as usize + x as usize]
    }

    /// Sets pixel `(x, y)` to `color`, leaving every other pixel as it was.
    pub fn put_pixel(&mut self, x: u32, y: u32, color: Color)
        requires
            old(self).wf(),
            old(self).holds(x as int, y as int),
        ensures
            final(self).wf(),
            final(self).spec_width() == old(self).spec_width(),
            final(self).spec_height() == old(self).spec_height(),
            final(self).cells() == old(self).cells().update(
                cell_index(x as int, y as int, old(self).spec_width()),
                color,
            ),
    {
        proof {
            lemma_cell_in_range(x as int, y as int, self.width as int, self.height as int);
        }
        let k = y as usize * self.width as usize + x as usize;
        self.cells.set(k, color);
    }

    /// Writes each classified pixel in turn.
    pub fn paint(&mut self, pixels: &Vec<PaintedPixel>)
        requires
            old(self).wf(),
            forall|i: int|
                0 <= i < pixels@.len() ==> old(self).holds(
                    (#[trigger] pixels@[i]).x as int,
                    pixels@[i].y as int,
                ),
        ensures
            final(self).wf(),
            final(self).spec_width() == old(self).spec_width(),
            final(self).spec_height() == old(self).spec_height(),
            final(self).cells() == apply_writes(old(self).cells(), old(self).spec_width(), pixels@),
    {
        let mut i: usize = 0;
        while i < pixels.len()
            invariant
                i <= pixels@.len(),
                self.wf(),
                self.spec_width() == old(self).spec_width(),
                self.spec_height() == old(self).spec_height(),
                self.cells() == apply_writes(
                    old(self).cells(),
                    old(self).spec_width(),
                    pixels@.take(i as int),
                ),
                forall|k: int|
                    0 <= k < pixels@.len() ==> old(self).holds(
                        (#[trigger] pixels@[k]).x as int,
                        pixels@[k].y as int,
                    ),
            decreases pixels@.len() - i,
        {
            let p = pixels[i];
            assert(pixels@.take(i + 1).drop_last() =~= pixels@.take(i as int));
            self.put_pixel(p.x, p.y, p.color);
            i = i + 1;
        }
        assert(pixels@.take(i as int) =~= pixels@);
    }

    /// Whether the pixel holding `p` lies inside the raster.
    pub fn covers(&self, p: &Point) -> (r: bool)
        ensures
            r == self.holds(pixel_of(*p).0, pixel_of(*p).1),
    {
        p.x / SUBPIXEL < self.width && p.y / SUBPIXEL < self.height
    }
}

/// Binds each point to the colour of the pixel that holds it, in order.
pub fn colorize(points: &Vec<Point>, image: &Raster) -> (r: Vec<Anchor>)
    requires
        image.wf(),
        forall|i: int|
            0 <= i < points@.len() ==> image.holds(
                pixel_of(#[trigger] points@[i]).0,
                pixel_of(points@[i]).1,
            ),
    ensures
        r@.len() == points@.len(),
        forall|i: int|
            0 <= i < points@.len() ==> (#[trigger] r@[i]).point == points@[i] && r@[i].color
                == image.color_at(pixel_of(points@[i]).0, pixel_of(points@[i]).1),
{
    let mut anchors: Vec<Anchor> = Vec::with_capacity(points.len());
    let mut i: usize = 0;
    while i < points.len()
        invariant
            i <= points@.len(),
            image.wf(),
            forall|k: int|
                0 <= k < points@.len() ==> image.holds(
                    pixel_of(#[trigger] points@[k]).0,
                    pixel_of(points@[k]).1,
                ),
            anchors@.len() == i,
            forall|k: int|
                0 <= k < i ==> (#[trigger] anchors@[k]).point == points@[k] && anchors@[k].color
                    == image.color_at(pixel_of(points@[k]).0, pixel_of(points@[k]).1),
        decreases points@.len() - i,
    {
        let point = points[i];
        let color = image.get_pixel(point.x / SUBPIXEL, point.y / SUBPIXEL);
        anchors.push(Anchor { point, color });
        i = i + 1;
    }
    anchors
}

} // verus!
