//! Carving a source image along one window of a target grid.
//!
//! The search grows a rectangle of source pixels, one side by one pixel at a
//! time, until the box it reaches in the target coordinate system envelopes
//! the window. The reach of a rectangle is measured conservatively: from its
//! four projected corners, the innermost corner on each side. The layout
//! then crops the rectangle to the source image and pads the rest.
use vstd::prelude::*;

verus! {

/// A half-open rectangle of pixel indices, `[min_px, max_px)` by
/// `[min_py, max_py)`, relative to the source image; it may reach outside it.
#[derive(Clone, Copy, Debug, PartialEq, Eq, Structural)]
pub struct PixelRect {
    pub min_px: i64,
    pub max_px: i64,
    pub min_py: i64,
    pub max_py: i64,
}

/// An axis-aligned box in fixed-point target coordinates.
#[derive(Clone, Copy, Debug, PartialEq, Eq, Structural)]
pub struct Bounds {
    pub min_x: i64,
    pub max_x: i64,
    pub min_y: i64,
    pub max_y: i64,
}

/// A point in fixed-point target coordinates.
#[derive(Clone, Copy, Debug, PartialEq, Eq, Structural)]
pub struct Point {
    pub x: i64,
    pub y: i64,
}

/// The projected corners of a pixel rectangle: "upper" is the row `min_py`
/// and "left" the column `min_px`.
#[derive(Clone, Copy, Debug, PartialEq, Eq, Structural)]
pub struct Corners {
    pub upper_left: Point,
    pub upper_right: Point,
    pub lower_left: Point,
    pub lower_right: Point,
}

/// What the search does next.
#[derive(Clone, Copy, Debug, PartialEq, Eq, Structural)]
pub enum SearchStep {
    /// The rectangle's reach envelopes the window: the search is over.
    Enveloped,
    /// Go on with this wider rectangle.
    Widen(PixelRect),
}

/// Where the pixels of a split go.
#[derive(Clone, Copy, Debug, PartialEq, Eq, Structural)]
pub struct SplitPlan {
    /// First column and row read from the source image.
    pub src_x: u64,
    pub src_y: u64,
    /// Size of the block read from the source and written to the output.
    pub read_width: u64,
    pub read_height: u64,
    /// Column and row of the output where the block is written.
    pub dst_x: u64,
    pub dst_y: u64,
    /// Size of the output image.
    pub width: u64,
    pub height: u64,
    /// The source pixel at the output's origin, which shifts the
    /// geo-transform.
    pub origin_px: i64,
    pub origin_py: i64,
}

pub open spec fn max_int(a: int, b: int) -> int {
    if a >= b { a } else { b }
}

pub open spec fn min_int(a: int, b: int) -> int {
    if a <= b { a } else { b }
}

/// The box that the projected corners surely reach. When the geo-transform
/// maps rows downwards (`north_up`), the row `min_py` is the top edge.
pub open spec fn spec_inner_envelope(c: Corners, north_up: bool) -> Bounds {
    Bounds {
        min_x: max_int(c.upper_left.x as int, c.lower_left.x as int) as i64,
        max_x: min_int(c.upper_right.x as int, c.lower_right.x as int) as i64,
        min_y: if north_up {
            max_int(c.lower_left.y as int, c.lower_right.y as int) as i64
        } else {
            max_int(c.upper_left.y as int, c.upper_right.y as int) as i64
        },
        max_y: if north_up {
            min_int(c.upper_left.y as int, c.upper_right.y as int) as i64
        } else {
            min_int(c.lower_left.y as int, c.lower_right.y as int) as i64
        },
    }
}

pub open spec fn envelopes(outer: Bounds, inner: Bounds) -> bool {
    &&& outer.min_x <= inner.min_x
    &&& outer.max_x >= inner.max_x
    &&& outer.min_y <= inner.min_y
    &&& outer.max_y >= inner.max_y
}

/// How far the reach falls short of the window on each side: left, right,
/// bottom, top.
pub open spec fn shortfalls(reach: Bounds, window: Bounds) -> Seq<int> {
    seq![
        reach.min_x - window.min_x,
        window.max_x - reach.max_x,
        reach.min_y - window.min_y,
        window.max_y - reach.max_y,
    ]
}

/// `k` is the first position of the largest element of `s`.
pub open spec fn is_first_max(s: Seq<int>, k: int) -> bool {
    &&& 0 <= k < s.len()
    &&& forall|i: int| 0 <= i < k ==> s[i] < s[k]
    &&& forall|i: int| k < i < s.len() ==> s[i] <= s[k]
}

/// The rectangle widened by one pixel on the side where the reach falls
/// short along `side` (left, right, bottom, top).
pub open spec fn spec_widen(r: PixelRect, side: int, north_up: bool) -> PixelRect {
    if side == 0 {
        PixelRect { min_px: (r.min_px - 1) as i64, ..r }
    } else if side == 1 {
        PixelRect { max_px: (r.max_px + 1) as i64, ..r }
    } else if (side == 2) == north_up {
        PixelRect { max_py: (r.max_py + 1) as i64, ..r }
    } else {
        PixelRect { min_py: (r.min_py - 1) as i64, ..r }
    }
}

/// The rectangle can grow by one pixel on every side.
pub open spec fn can_widen(r: PixelRect) -> bool {
    &&& r.min_px > i64::MIN
    &&& r.max_px < i64::MAX
    &&& r.min_py > i64::MIN
    &&& r.max_py < i64::MAX
}

fn max_i64(a: i64, b: i64) -> (r: i64)
    ensures
        r == max_int(a as int, b as int),
{
    if a >= b {
        a
    } else {
        b
    }
}

fn min_i64(a: i64, b: i64) -> (r: i64)
    ensures
        r == min_int(a as int, b as int),
{
    if a <= b {
        a
    } else {
        b
    }
}

/// The box that the projected corners of a pixel rectangle surely reach.
pub fn inner_envelope(c: &Corners, north_up: bool) -> (r: Bounds)
    ensures
        r == spec_inner_envelope(*c, north_up),
{
    let min_x = max_i64(c.upper_left.x, c.lower_left.x);
    let max_x = min_i64(c.upper_right.x, c.lower_right.x);
    if north_up {
        Bounds {
            min_x,
            max_x,
            min_y: max_i64(c.lower_left.y, c.lower_right.y),
            max_y: min_i64(c.upper_left.y, c.upper_right.y),
        }
    } else {
        Bounds {
            min_x,
            max_x,
            min_y: max_i64(c.upper_left.y, c.upper_right.y),
            max_y: min_i64(c.lower_left.y, c.lower_right.y),
        }
    }
}

/// One step of the search for the pixel rectangle of a window: given the
/// projected corners of the current rectangle, either the box they surely
/// reach envelopes the window, or the rectangle grows by one pixel on the
/// side where that box falls shortest (the first such side on a tie).
pub fn search_step(rect: PixelRect, corners: &Corners, window: Bounds, north_up: bool) -> (r:
    SearchStep)
    requires
        can_widen(rect),
    ensures
        r is Enveloped <==> envelopes(spec_inner_envelope(*corners, north_up), window),
        r matches SearchStep::Widen(next) ==> exists|k: int|
            is_first_max(
                shortfalls(spec_inner_envelope(*corners, north_up), window),
                k,
            ) && next == spec_widen(rect, k, north_up),
{
    let reach = inner_envelope(corners, north_up);
    if reach.min_x <= window.min_x && reach.max_x >= window.max_x && reach.min_y <= window.min_y
        && reach.max_y >= window.max_y {
        return SearchStep::Enveloped;
    }
    let ghost s = shortfalls(reach, window);
    let d0: i128 = reach.min_x as i128 - window.min_x as i128;
    let d1: i128 = window.max_x as i128 - reach.max_x as i128;
    let d2: i128 = reach.min_y as i128 - window.min_y as i128;
    let d3: i128 = window.max_y as i128 - reach.max_y as i128;
    let mut side: u8 = 0;
    let mut best: i128 = d0;
    if d1 > best {
        side = 1;
        best = d1;
    }
    if d2 > best {
        side = 2;
        best = d2;
    }
    if d3 > best {
        side = 3;
        best = d3;
    }
    assert(is_first_max(s, side as int));
    let next = if side == 0 {
        PixelRect { min_px: rect.min_px - 1, ..rect }
    } else if side == 1 {
        PixelRect { max_px: rect.max_px + 1, ..rect }
    } else if (side == 2) == north_up {
        PixelRect { max_py: rect.max_py + 1, ..rect }
    } else {
        PixelRect { min_py: rect.min_py - 1, ..rect }
    };
    assert(next == spec_widen(rect, side as int, north_up));
    SearchStep::Widen(next)
}

/// The overlap of `[lo, hi)` with `[0, size)`, as its two ends.
pub open spec fn overlap(lo: int, hi: int, size: int) -> (int, int) {
    (max_int(lo, 0), min_int(hi, size))
}

/// The layout of a split, or none when the rectangle has no pixel in
/// common with the source image.
pub open spec fn spec_plan_split(rect: PixelRect, width: nat, height: nat) -> Option<SplitPlan> {
    let (x0, x1) = overlap(rect.min_px as int, rect.max_px as int, width as int);
    let (y0, y1) = overlap(rect.min_py as int, rect.max_py as int, height as int);
    if x1 <= x0 || y1 <= y0 {
        None
    } else {
        Some(
            SplitPlan {
                src_x: x0 as u64,
                src_y: y0 as u64,
                read_width: (x1 - x0) as u64,
                read_height: (y1 - y0) as u64,
                dst_x: (x0 - rect.min_px) as u64,
                dst_y: (y0 - rect.min_py) as u64,
                width: (rect.max_px - rect.min_px) as u64,
                height: (rect.max_py - rect.min_py) as u64,
                origin_px: rect.min_px,
                origin_py: rect.min_py,
            },
        )
    }
}

/// Lays out the split of a `width` by `height` source image along the
/// pixel rectangle `rect`: the output covers `rect`; the part of it inside
/// the image is read from the image and the rest keeps the no-data value.
/// None when that part is empty.
pub fn plan_split(rect: PixelRect, width: u64, height: u64) -> (r: Option<SplitPlan>)
    requires
        rect.min_px <= rect.max_px,
        rect.min_py <= rect.max_py,
        width <= i64::MAX,
        height <= i64::MAX,
    ensures
        r == spec_plan_split(rect, width as nat, height as nat),
{
    let x0 = max_i64(rect.min_px, 0);
    let x1 = min_i64(rect.max_px, width as i64);
    let y0 = max_i64(rect.min_py, 0);
    let y1 = min_i64(rect.max_py, height as i64);
    if x1 <= x0 || y1 <= y0 {
        return None;
    }
    Some(
        SplitPlan {
            src_x: x0 as u64,
            src_y: y0 as u64,
            read_width: (x1 - x0) as u64,
            read_height: (y1 - y0) as u64,
            dst_x: (x0 as i128 - rect.min_px as i128) as u64,
            dst_y: (y0 as i128 - rect.min_py as i128) as u64,
            width: (rect.max_px as i128 - rect.min_px as i128) as u64,
            height: (rect.max_py as i128 - rect.min_py as i128) as u64,
            origin_px: rect.min_px,
            origin_py: rect.min_py,
        },
    )
}

/// A planned split reads only pixels of the source image, fits the block
/// it reads inside its output, and puts each source pixel at the output
/// position that keeps its place on the ground: source column `c` lands in
/// output column `c - origin_px`.
pub proof fn lemma_plan_keeps_pixels(rect: PixelRect, width: nat, height: nat)
    requires
        rect.min_px <= rect.max_px,
        rect.min_py <= rect.max_py,
        width <= i64::MAX,
        height <= i64::MAX,
        spec_plan_split(rect, width, height) is Some,
    ensures
        ({
            let p = spec_plan_split(rect, width, height)->Some_0;
            &&& p.src_x + p.read_width <= width
            &&& p.src_y + p.read_height <= height
            &&& p.read_width > 0 && p.read_height > 0
            &&& p.dst_x + p.read_width <= p.width
            &&& p.dst_y + p.read_height <= p.height
            &&& p.dst_x as int == p.src_x - p.origin_px
            &&& p.dst_y as int == p.src_y - p.origin_py
        }),
{
}

/// `b` is the smallest box that holds every point.
pub open spec fn is_envelope(points: Seq<Point>, b: Bounds) -> bool {
    &&& forall|i: int|
        0 <= i < points.len() ==> b.min_x <= (#[trigger] points[i]).x <= b.max_x && b.min_y
            <= points[i].y <= b.max_y
    &&& exists|i: int| 0 <= i < points.len() && (#[trigger] points[i]).x == b.min_x
    &&& exists|i: int| 0 <= i < points.len() && (#[trigger] points[i]).x == b.max_x
    &&& exists|i: int| 0 <= i < points.len() && (#[trigger] points[i]).y == b.min_y
    &&& exists|i: int| 0 <= i < points.len() && (#[trigger] points[i]).y == b.max_y
}

/// The smallest box that holds the points (the projected corners of an
/// image give its bounds in the target system); none when there is none.
pub fn envelope(points: &Vec<Point>) -> (r: Option<Bounds>)
    ensures
        r is None <==> points@.len() == 0,
        r matches Some(b) ==> is_envelope(points@, b),
{
    if points.len() == 0 {
        return None;
    }
    let mut b = Bounds { min_x: points[0].x, max_x: points[0].x, min_y: points[0].y, max_y: points[0].y };
    let mut i: usize = 1;
    while i < points.len()
        invariant
            1 <= i <= points@.len(),
            forall|k: int|
                0 <= k < i ==> b.min_x <= (#[trigger] points@[k]).x <= b.max_x && b.min_y
                    <= points@[k].y <= b.max_y,
            exists|k: int| 0 <= k < i && (#[trigger] points@[k]).x == b.min_x,
            exists|k: int| 0 <= k < i && (#[trigger] points@[k]).x == b.max_x,
            exists|k: int| 0 <= k < i && (#[trigger] points@[k]).y == b.min_y,
            exists|k: int| 0 <= k < i && (#[trigger] points@[k]).y == b.max_y,
        decreases points@.len() - i,
    {
        let q = points[i];
        assert(points@[i as int] == q);
        if q.x < b.min_x {
            b.min_x = q.x;
        }
        if q.x > b.max_x {
            b.max_x = q.x;
        }
        if q.y < b.min_y {
            b.min_y = q.y;
        }
        if q.y > b.max_y {
            b.max_y = q.y;
        }
        i = i + 1;
    }
    Some(b)
}

} // verus!
