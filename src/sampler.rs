use crate::geometry::{squared_distance, Point, MAX_DIMENSION, SUBPIXEL};
use crate::random::draw_between;
use rand::rngs::StdRng;
use std::collections::VecDeque;
use vstd::arithmetic::div_mod::lemma_fundamental_div_mod_converse;
use vstd::prelude::*;
use vstd::set_lib::{lemma_int_range, lemma_len_subset, set_int_range};

verus! {

/// Number of candidates spawned around each newly accepted anchor.
pub const CANDIDATES_PER_ANCHOR: usize = 25;

/// Number of draws after which one candidate is given up as impossible to
/// place (the annulus may lie wholly outside a tiny image).
pub const MAX_DRAWS: u32 = 100000;

/// Image size in pixels; generated points lie strictly inside it.
#[derive(Clone, Copy, Debug, PartialEq, Eq, Structural)]
pub struct Bounds {
    pub width: u64,
    pub height: u64,
}

/// Annulus, in pixels, from which candidates are drawn around a source point.
#[derive(Clone, Copy, Debug, PartialEq, Eq, Structural)]
pub struct Distance {
    pub minimum: u32,
    pub maximum: u32,
}

impl Bounds {
    /// Both sides positive and small enough for fixed-point coordinates.
    pub open spec fn wf(self) -> bool {
        &&& 1 <= self.width <= MAX_DIMENSION
        &&& 1 <= self.height <= MAX_DIMENSION
    }

    /// Width in fixed-point units.
    pub open spec fn span_x(self) -> int {
        self.width * SUBPIXEL
    }

    /// Height in fixed-point units.
    pub open spec fn span_y(self) -> int {
        self.height * SUBPIXEL
    }

    /// `p` lies strictly inside the bounds: `0 < x < width` and `0 < y < height`.
    pub open spec fn contains(self, p: Point) -> bool {
        &&& 0 < p.x < self.span_x()
        &&& 0 < p.y < self.span_y()
    }
}

impl Distance {
    /// An annulus whose outer radius fits fixed-point coordinates.
    pub open spec fn wf(self) -> bool {
        self.minimum <= self.maximum <= MAX_DIMENSION
    }

    /// `p` lies in the closed annulus `[minimum, maximum]` around `source`.
    pub open spec fn admits(self, source: Point, p: Point) -> bool {
        let lo = self.minimum * SUBPIXEL;
        let hi = self.maximum * SUBPIXEL;
        lo * lo <= squared_distance(source, p) <= hi * hi
    }
}

/// Every point of `s` lies strictly inside `b`.
pub open spec fn all_inside(s: Seq<Point>, b: Bounds) -> bool {
    forall|i: int| 0 <= i < s.len() ==> b.contains(#[trigger] s[i])
}

/// `p` lies in the annulus `[d, 2d]` (pixels) around `source`.
pub open spec fn in_ring(source: Point, p: Point, d: int) -> bool {
    (d * SUBPIXEL) * (d * SUBPIXEL) <= squared_distance(source, p) <= (2 * d * SUBPIXEL) * (2 * d
        * SUBPIXEL)
}

/// `p` lies in the annulus `[d, 2d]` of one of the first `k` entries of `s`.
pub open spec fn spawned_by(s: Seq<Point>, k: int, p: Point, d: int) -> bool {
    exists|j: int| 0 <= j < k && #[trigger] in_ring(s[j], p, d)
}

proof fn lemma_spawned_by_prefix(s: Seq<Point>, t: Seq<Point>, k: int, k2: int, p: Point, d: int)
    requires
        0 <= k <= k2,
        k <= s.len(),
        k <= t.len(),
        forall|j: int| 0 <= j < k ==> t[j] == s[j],
        spawned_by(s, k, p, d),
    ensures
        spawned_by(t, k2, p, d),
{
    let j = choose|j: int| 0 <= j < k && #[trigger] in_ring(s[j], p, d);
    assert(t[j] == s[j]);
    assert(in_ring(t[j], p, d));
}

/// Every two distinct entries of `s` are at least `d` pixels apart.
pub open spec fn well_spaced(s: Seq<Point>, d: int) -> bool {
    forall|i: int, j: int|
        0 <= i < s.len() && 0 <= j < s.len() && i != j ==> (d * SUBPIXEL) * (d * SUBPIXEL)
            <= squared_distance(#[trigger] s[i], #[trigger] s[j])
}

/// `c` keeps the minimum distance `d` (pixels) to every entry of `s`.
pub open spec fn far_from_all(c: Point, s: Seq<Point>, d: int) -> bool {
    forall|i: int|
        0 <= i < s.len() ==> (d * SUBPIXEL) * (d * SUBPIXEL) <= squared_distance(#[trigger] s[i], c)
}

/// Position of a point inside the bounds in a row-major enumeration of all
/// fixed-point positions.
pub open spec fn grid_index(p: Point, b: Bounds) -> int {
    p.x * b.span_y() + p.y
}

pub proof fn lemma_squared_distance_symmetric(p: Point, q: Point)
    ensures
        squared_distance(p, q) == squared_distance(q, p),
{
    assert((p.x - q.x) * (p.x - q.x) == (q.x - p.x) * (q.x - p.x)) by (nonlinear_arith);
    assert((p.y - q.y) * (p.y - q.y) == (q.y - p.y) * (q.y - p.y)) by (nonlinear_arith);
}

proof fn lemma_grid_index(p: Point, q: Point, b: Bounds)
    requires
        b.wf(),
        b.contains(p),
        b.contains(q),
    ensures
        0 <= grid_index(p, b) < b.span_x() * b.span_y(),
        grid_index(p, b) == grid_index(q, b) ==> p == q,
{
    let h = b.span_y();
    let w = b.span_x();
    assert(0 <= p.x * h + p.y < w * h) by (nonlinear_arith)
        requires
            0 <= p.x < w,
            0 <= p.y < h,
    ;
    if grid_index(p, b) == grid_index(q, b) {
        lemma_fundamental_div_mod_converse(grid_index(p, b), h, p.x as int, p.y as int);
        lemma_fundamental_div_mod_converse(grid_index(q, b), h, q.x as int, q.y as int);
    }
}

/// However the points are drawn, a well-spaced set inside the bounds has at
/// most as many points as there are fixed-point positions.
pub proof fn lemma_grid_capacity(s: Seq<Point>, b: Bounds, d: int)
    requires
        b.wf(),
        d >= 1,
        all_inside(s, b),
        well_spaced(s, d),
    ensures
        s.len() <= b.span_x() * b.span_y(),
{
    let m = s.map_values(|p: Point| grid_index(p, b));
    assert((d * SUBPIXEL) * (d * SUBPIXEL) >= 1) by (nonlinear_arith)
        requires
            d >= 1,
    ;
    assert forall|i: int, j: int| 0 <= i < m.len() && 0 <= j < m.len() && i != j implies m[i]
        != m[j] by {
        lemma_grid_index(s[i], s[j], b);
        assert(squared_distance(s[i], s[j]) >= 1);
        assert(m[i] == grid_index(s[i], b));
        assert(m[j] == grid_index(s[j], b));
        if s[i] == s[j] {
            assert(squared_distance(s[i], s[i]) == 0) by (nonlinear_arith);
        }
    }
    assert(m.no_duplicates());
    m.unique_seq_to_set();
    let n = b.span_x() * b.span_y();
    assert forall|k: int| m.to_set().contains(k) implies set_int_range(0, n).contains(k) by {
        let i = choose|i: int| 0 <= i < m.len() && m[i] == k;
        lemma_grid_index(s[i], s[i], b);
    }
    lemma_int_range(0, n);
    lemma_len_subset(m.to_set(), set_int_range(0, n));
}

/// Half the side of the square from which directions are drawn.
pub const DIRECTION_SCALE: u64 = 32768;

/// The integer square root of `n`, rounded down.
pub open spec fn root_floor(n: int) -> int {
    choose|r: int| r >= 0 && #[trigger] (r * r) <= n < (r + 1) * (r + 1)
}

proof fn lemma_root_unique(n: int, r: int)
    requires
        r >= 0,
        r * r <= n < (r + 1) * (r + 1),
    ensures
        root_floor(n) == r,
{
    let q = root_floor(n);
    assert(q >= 0 && q * q <= n < (q + 1) * (q + 1));
    if q < r {
        assert((q + 1) * (q + 1) <= r * r) by (nonlinear_arith)
            requires
                0 <= q < r,
        ;
    } else if r < q {
        assert((r + 1) * (r + 1) <= q * q) by (nonlinear_arith)
            requires
                0 <= r < q,
        ;
    }
}

/// The integer square root of `n`, rounded down.
pub fn isqrt(n: u64) -> (r: u64)
    requires
        n < 0x1_0000_0000u64,
    ensures
        r * r <= n < (r + 1) * (r + 1),
        r == root_floor(n as int),
{
    let mut lo: u64 = 0;
    let mut hi: u64 = 65536;
    while hi - lo > 1
        invariant
            lo < hi <= 65536,
            lo * lo <= n < hi * hi,
        decreases hi - lo,
    {
        let mid = lo + (hi - lo) / 2;
        assert(mid * mid <= 65536 * 65536) by (nonlinear_arith)
            requires
                mid <= 65536,
        ;
        if mid * mid <= n {
            lo = mid;
        } else {
            hi = mid;
        }
    }
    proof {
        lemma_root_unique(n as int, lo as int);
    }
    lo
}

/// `from` moved by `step`, forward or backward, if the result lies in `1..span`.
pub open spec fn shifted(from: int, step: int, forward: bool, span: int) -> Option<int> {
    let v = if forward { from + step } else { from - step };
    if 0 < v < span { Some(v) } else { None }
}

/// Moves `from` by `step` in the given direction along one axis; `None`
/// exactly when the result leaves `1..span`.
fn shift_within(from: u64, step: u64, forward: bool, span: u64) -> (r: Option<u64>)
    ensures
        r matches Some(v) ==> shifted(from as int, step as int, forward, span as int) == Some(
            v as int,
        ),
        r is None <==> shifted(from as int, step as int, forward, span as int) is None,
{
    if forward {
        if step < span && from < span - step && from + step > 0 {
            Some(from + step)
        } else {
            None
        }
    } else {
        if step < from && from - step < span {
            Some(from - step)
        } else {
            None
        }
    }
}

/// Offset of a drawn value from the centre of the direction square, and
/// whether it lies on the positive side.
pub open spec fn axis_offset(a: int) -> (int, bool) {
    if a >= DIRECTION_SCALE {
        (a - DIRECTION_SCALE, true)
    } else {
        (DIRECTION_SCALE - a, false)
    }
}

/// The candidate that the draws `a`, `b` (a point of the direction square)
/// and `length` (a distance in fixed-point units) give around `source`:
/// none when the drawn point is the centre or lies outside the disk;
/// otherwise the source moved by `length` along the drawn direction (each
/// axis step rounded down, the norm an integer square root), kept only if
/// it lies strictly inside `bounds` and in the annulus `distance`.
pub open spec fn candidate_of(
    source: Point,
    a: int,
    b: int,
    length: int,
    distance: Distance,
    bounds: Bounds,
) -> Option<Point> {
    let (ux, east) = axis_offset(a);
    let (uy, south) = axis_offset(b);
    let n = ux * ux + uy * uy;
    if n == 0 || n > DIRECTION_SCALE * DIRECTION_SCALE {
        None
    } else {
        let norm = root_floor(n);
        match (
            shifted(source.x as int, ux * length / norm, east, bounds.span_x()),
            shifted(source.y as int, uy * length / norm, south, bounds.span_y()),
        ) {
            (Some(x), Some(y)) => {
                let p = Point { x: x as u32, y: y as u32 };
                if distance.admits(source, p) {
                    Some(p)
                } else {
                    None
                }
            },
            _ => None,
        }
    }
}

/// `p` is the candidate of some round of draws around `source`.
pub open spec fn drawable(source: Point, p: Point, distance: Distance, bounds: Bounds) -> bool {
    exists|a: int, b: int, length: int|
        0 <= a <= 2 * DIRECTION_SCALE && 0 <= b <= 2 * DIRECTION_SCALE && distance.minimum
            * SUBPIXEL <= length <= distance.maximum * SUBPIXEL && #[trigger] candidate_of(
            source,
            a,
            b,
            length,
            distance,
            bounds,
        ) == Some(p)
}

/// Builds the candidate that one round of draws gives (see `candidate_of`).
pub fn candidate_from_draws(
    source: &Point,
    a: u64,
    b: u64,
    length: u64,
    distance: &Distance,
    bounds: &Bounds,
) -> (r: Option<Point>)
    requires
        bounds.wf(),
        distance.wf(),
        a <= 2 * DIRECTION_SCALE,
        b <= 2 * DIRECTION_SCALE,
        distance.minimum * SUBPIXEL <= length <= distance.maximum * SUBPIXEL,
    ensures
        r == candidate_of(*source, a as int, b as int, length as int, *distance, *bounds),
        r matches Some(p) ==> bounds.contains(p) && distance.admits(*source, p),
{
    let unit = SUBPIXEL as u64;
    let near: u64 = distance.minimum as u64 * unit;
    let reach: u64 = distance.maximum as u64 * unit;
    let span_x: u64 = bounds.width * unit;
    let span_y: u64 = bounds.height * unit;
    assert(near * near <= 0x1_0000_0000u128 * 0x1_0000_0000u128) by (nonlinear_arith)
        requires near <= 0x1_0000_0000u64;
    assert(reach * reach <= 0x1_0000_0000u128 * 0x1_0000_0000u128) by (nonlinear_arith)
        requires reach <= 0x1_0000_0000u64;
    let min_sq: u128 = (near as u128) * (near as u128);
    let max_sq: u128 = (reach as u128) * (reach as u128);
    let east = a >= DIRECTION_SCALE;
    let south = b >= DIRECTION_SCALE;
    let ux: u64 = if east { a - DIRECTION_SCALE } else { DIRECTION_SCALE - a };
    let uy: u64 = if south { b - DIRECTION_SCALE } else { DIRECTION_SCALE - b };
    assert(ux * ux + uy * uy <= 2 * 32768 * 32768) by (nonlinear_arith)
        requires
            ux <= 32768,
            uy <= 32768,
    ;
    let norm_sq = ux * ux + uy * uy;
    if norm_sq == 0 || norm_sq > DIRECTION_SCALE * DIRECTION_SCALE {
        return None;
    }
    let norm = isqrt(norm_sq);
    assert(norm >= 1) by (nonlinear_arith)
        requires
            norm_sq > 0,
            norm_sq < (norm + 1) * (norm + 1),
    ;
    assert(ux * length <= 32768 * 0x1_0000_0000u64 && uy * length <= 32768 * 0x1_0000_0000u64)
        by (nonlinear_arith)
        requires
            ux <= 32768,
            uy <= 32768,
            length <= 0x1_0000_0000u64,
    ;
    let step_x = ux * length / norm;
    let step_y = uy * length / norm;
    match (
        shift_within(source.x as u64, step_x, east, span_x),
        shift_within(source.y as u64, step_y, south, span_y),
    ) {
        (Some(x), Some(y)) => {
            let p = Point { x: x as u32, y: y as u32 };
            let sq = source.squared_distance_from(&p);
            if min_sq <= sq && sq <= max_sq {
                Some(p)
            } else {
                None
            }
        },
        _ => None,
    }
}

/// Draws one candidate around `source_point`: a distance uniform in
/// `[minimum, maximum]` and a direction uniform over the circle (from a point
/// drawn uniformly in a square, kept only inside the inscribed disk); the
/// candidate is `candidate_from_draws` of those values. A round that gives
/// no candidate is drawn again. Gives `None` only after `MAX_DRAWS` rounds
/// without one, as when the annulus lies wholly outside a tiny image.
pub fn random_point_at_certain_distance_from_given_point(
    rng: &mut StdRng,
    source_point: &Point,
    distance: &Distance,
    bounds: &Bounds,
) -> (r: Option<Point>)
    requires
        bounds.wf(),
        distance.wf(),
    ensures
        r matches Some(p) ==> drawable(*source_point, p, *distance, *bounds),
        r matches Some(p) ==> bounds.contains(p) && distance.admits(*source_point, p),
{
    let unit = SUBPIXEL as u64;
    let near: u64 = distance.minimum as u64 * unit;
    let reach: u64 = distance.maximum as u64 * unit;
    let mut draws: u32 = 0;
    while draws < MAX_DRAWS
        invariant
            bounds.wf(),
            distance.wf(),
            near == distance.minimum * SUBPIXEL,
            reach == distance.maximum * SUBPIXEL,
        decreases MAX_DRAWS - draws,
    {
        draws = draws + 1;
        let a = draw_between(rng, 0, 2 * DIRECTION_SCALE);
        let b = draw_between(rng, 0, 2 * DIRECTION_SCALE);
        let length = draw_between(rng, near, reach);
        let drawn = candidate_from_draws(source_point, a, b, length, distance, bounds);
        if drawn.is_some() {
            assert(candidate_of(*source_point, a as int, b as int, length as int, *distance, *bounds)
                == drawn);
            return drawn;
        }
    }
    None
}

/// Up to `CANDIDATES_PER_ANCHOR` candidates around `source_point`, each inside
/// `bounds` and in the annulus `distance`.
pub fn generate_anchor_candidates(
    rng: &mut StdRng,
    source_point: &Point,
    distance: &Distance,
    bounds: &Bounds,
) -> (r: Vec<Point>)
    requires
        bounds.wf(),
        distance.wf(),
    ensures
        r@.len() <= CANDIDATES_PER_ANCHOR,
        all_inside(r@, *bounds),
        forall|i: int| 0 <= i < r@.len() ==> distance.admits(*source_point, #[trigger] r@[i]),
        forall|i: int|
            0 <= i < r@.len() ==> drawable(*source_point, #[trigger] r@[i], *distance, *bounds),
{
    let mut candidates: Vec<Point> = Vec::with_capacity(CANDIDATES_PER_ANCHOR);
    let mut k: usize = 0;
    while k < CANDIDATES_PER_ANCHOR
        invariant
            k <= CANDIDATES_PER_ANCHOR,
            candidates@.len() <= k,
            bounds.wf(),
            distance.wf(),
            all_inside(candidates@, *bounds),
            forall|i: int|
                0 <= i < candidates@.len() ==> distance.admits(
                    *source_point,
                    #[trigger] candidates@[i],
                ),
            forall|i: int|
                0 <= i < candidates@.len() ==> drawable(
                    *source_point,
                    #[trigger] candidates@[i],
                    *distance,
                    *bounds,
                ),
        decreases CANDIDATES_PER_ANCHOR - k,
    {
        match random_point_at_certain_distance_from_given_point(
            rng,
            source_point,
            distance,
            bounds,
        ) {
            Some(p) => {
                candidates.push(p);
            },
            None => {},
        }
        k = k + 1;
    }
    candidates
}

/// Whether `candidate` is at least `minimum_distance` pixels from every anchor.
pub fn is_valid_anchor(candidate: &Point, anchors: &Vec<Point>, minimum_distance: u32) -> (r: bool)
    requires
        minimum_distance <= MAX_DIMENSION,
    ensures
        r == far_from_all(*candidate, anchors@, minimum_distance as int),
{
    let unit = SUBPIXEL as u128;
    let limit: u128 = (minimum_distance as u128) * unit;
    assert(limit * limit <= 0x1_0000_0000u128 * 0x1_0000_0000u128) by (nonlinear_arith)
        requires limit <= 0x1_0000_0000u128;
    let squared_limit: u128 = limit * limit;
    let mut i: usize = 0;
    while i < anchors.len()
        invariant
            i <= anchors@.len(),
            squared_limit == (minimum_distance * SUBPIXEL) * (minimum_distance * SUBPIXEL),
            far_from_all(*candidate, anchors@.take(i as int), minimum_distance as int),
        decreases anchors@.len() - i,
    {
        if anchors[i].squared_distance_from(candidate) < squared_limit {
            assert(anchors@[i as int] == anchors@.take(i as int + 1)[i as int]);
            return false;
        }
        assert forall|j: int| 0 <= j < i + 1 implies (minimum_distance * SUBPIXEL) * (
        minimum_distance * SUBPIXEL) <= squared_distance(
            #[trigger] anchors@.take(i + 1)[j],
            *candidate,
        ) by {
            if j < i {
                assert(anchors@.take(i + 1)[j] == anchors@.take(i as int)[j]);
            }
        }
        i = i + 1;
    }
    assert(anchors@.take(i as int) =~= anchors@);
    true
}

/// Accepts `candidate` as a new anchor, appended last, iff it keeps the
/// minimum distance to every anchor so far; a rejected one changes nothing.
pub fn accept_candidate(final_anchors: &mut Vec<Point>, candidate: Point, minimum_distance: u32) -> (r:
    bool)
    requires
        minimum_distance <= MAX_DIMENSION,
    ensures
        r == far_from_all(candidate, old(final_anchors)@, minimum_distance as int),
        final(final_anchors)@ == if r {
            old(final_anchors)@.push(candidate)
        } else {
            old(final_anchors)@
        },
{
    if is_valid_anchor(&candidate, final_anchors, minimum_distance) {
        final_anchors.push(candidate);
        true
    } else {
        false
    }
}

fn enqueue(queue: &mut VecDeque<Point>, items: &Vec<Point>)
    ensures
        final(queue)@ == old(queue)@ + items@,
{
    let mut i: usize = 0;
    while i < items.len()
        invariant
            i <= items@.len(),
            queue@ == old(queue)@ + items@.take(i as int),
        decreases items@.len() - i,
    {
        queue.push_back(items[i]);
        assert(items@.take(i + 1) =~= items@.take(i as int).push(items@[i as int]));
        i = i + 1;
    }
    assert(items@.take(i as int) =~= items@);
}

/// Generates a well-spaced, irregular set of anchors inside `bounds`.
///
/// A first anchor is drawn anywhere inside the bounds. Each accepted anchor
/// spawns candidates in the annulus `[d, 2d]` around it, appended to a FIFO
/// frontier; the front candidate is accepted iff it keeps distance `d` to
/// every anchor accepted so far, and is dropped otherwise. Generation stops
/// when the frontier is empty. The result keeps the order of acceptance.
pub fn generate_anchor_points(rng: &mut StdRng, bounds: &Bounds, minimum_distance: u32) -> (r: Vec<
    Point,
>)
    requires
        bounds.wf(),
        1 <= minimum_distance <= MAX_DIMENSION / 2,
    ensures
        r@.len() >= 1,
        all_inside(r@, *bounds),
        well_spaced(r@, minimum_distance as int),
        forall|i: int|
            1 <= i < r@.len() ==> spawned_by(r@, i, #[trigger] r@[i], minimum_distance as int),
{
    let unit = SUBPIXEL as u64;
    let span_x: u64 = bounds.width * unit;
    let span_y: u64 = bounds.height * unit;
    let first_x = draw_between(rng, 1, span_x - 1);
    let first_y = draw_between(rng, 1, span_y - 1);
    let first_anchor = Point { x: first_x as u32, y: first_y as u32 };
    let mut final_anchors: Vec<Point> = Vec::new();
    final_anchors.push(first_anchor);
    let distance = Distance { minimum: minimum_distance, maximum: minimum_distance * 2 };
    let mut anchor_candidates: VecDeque<Point> = VecDeque::new();
    let seeds = generate_anchor_candidates(rng, &first_anchor, &distance, bounds);
    enqueue(&mut anchor_candidates, &seeds);
    let ghost d = minimum_distance as int;
    proof {
        lemma_grid_capacity(final_anchors@, *bounds, d);
        assert forall|k: int| 0 <= k < anchor_candidates@.len() implies spawned_by(
            final_anchors@,
            final_anchors@.len() as int,
            #[trigger] anchor_candidates@[k],
            d,
        ) by {
            assert(anchor_candidates@[k] == seeds@[k]);
            assert(distance.admits(first_anchor, seeds@[k]));
            assert(in_ring(final_anchors@[0], anchor_candidates@[k], d));
        }
    }
    while anchor_candidates.len() > 0
        invariant
            bounds.wf(),
            1 <= d <= MAX_DIMENSION / 2,
            d == minimum_distance,
            distance.minimum == minimum_distance,
            distance.maximum == 2 * minimum_distance,
            final_anchors@.len() >= 1,
            final_anchors@.len() <= bounds.span_x() * bounds.span_y(),
            all_inside(final_anchors@, *bounds),
            well_spaced(final_anchors@, d),
            all_inside(anchor_candidates@, *bounds),
            forall|i: int|
                1 <= i < final_anchors@.len() ==> spawned_by(
                    final_anchors@,
                    i,
                    #[trigger] final_anchors@[i],
                    d,
                ),
            forall|k: int|
                0 <= k < anchor_candidates@.len() ==> spawned_by(
                    final_anchors@,
                    final_anchors@.len() as int,
                    #[trigger] anchor_candidates@[k],
                    d,
                ),
        decreases bounds.span_x() * bounds.span_y() - final_anchors@.len(), anchor_candidates@.len(),
    {
        let ghost pending = anchor_candidates@;
        proof {
            assert(spawned_by(final_anchors@, final_anchors@.len() as int, pending[0], d));
        }
        let candidate = match anchor_candidates.pop_front() {
            Some(c) => c,
            None => {
                break;
            },
        };
        assert(bounds.contains(candidate));
        let ghost before = final_anchors@;
        if accept_candidate(&mut final_anchors, candidate, minimum_distance) {
            proof {
                let s = final_anchors@;
                let n = before.len() as int;
                assert forall|i: int, j: int|
                    0 <= i < s.len() && 0 <= j < s.len() && i != j implies (d * SUBPIXEL) * (d
                        * SUBPIXEL) <= squared_distance(#[trigger] s[i], #[trigger] s[j]) by {
                    if i == n {
                        assert(s[j] == before[j]);
                        lemma_squared_distance_symmetric(s[i], s[j]);
                    } else if j == n {
                        assert(s[i] == before[i]);
                    } else {
                        assert(s[i] == before[i]);
                        assert(s[j] == before[j]);
                    }
                }
                assert forall|i: int| 0 <= i < s.len() implies bounds.contains(#[trigger] s[i]) by {
                    if i < n {
                        assert(s[i] == before[i]);
                    }
                }
                lemma_grid_capacity(s, *bounds, d);
                assert forall|i: int| 1 <= i < s.len() implies spawned_by(
                    s,
                    i,
                    #[trigger] s[i],
                    d,
                ) by {
                    if i < n {
                        assert(s[i] == before[i]);
                        lemma_spawned_by_prefix(before, s, i, i, before[i], d);
                    } else {
                        lemma_spawned_by_prefix(before, s, n, n, candidate, d);
                    }
                }
                assert forall|k: int| 0 <= k < anchor_candidates@.len() implies spawned_by(
                    s,
                    s.len() as int,
                    #[trigger] anchor_candidates@[k],
                    d,
                ) by {
                    lemma_spawned_by_prefix(before, s, n, n + 1, anchor_candidates@[k], d);
                }
            }
            let fresh = generate_anchor_candidates(rng, &candidate, &distance, bounds);
            let ghost queued = anchor_candidates@;
            enqueue(&mut anchor_candidates, &fresh);
            proof {
                let q = anchor_candidates@;
                assert forall|i: int| 0 <= i < q.len() implies bounds.contains(#[trigger] q[i]) by {
                    if i < queued.len() {
                        assert(q[i] == queued[i]);
                    } else {
                        assert(q[i] == fresh@[i - queued.len()]);
                    }
                }
                let s = final_anchors@;
                assert forall|k: int| 0 <= k < q.len() implies spawned_by(
                    s,
                    s.len() as int,
                    #[trigger] q[k],
                    d,
                ) by {
                    if k < queued.len() {
                        assert(q[k] == queued[k]);
                    } else {
                        let f = fresh@[k - queued.len()];
                        assert(q[k] == f);
                        assert(distance.admits(candidate, f));
                        assert(s[s.len() - 1] == candidate);
                        assert(in_ring(s[s.len() - 1], f, d));
                    }
                }
            }
        }
    }
    final_anchors
}

} // verus!
