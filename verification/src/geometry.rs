//! Axis-aligned rectangles and points in fixed-point coordinates.
//!
//! A coordinate is an `i64` that stands for that many `1 / UNIT`ths of a
//! unit: `UNIT` is `2^32`, so the coordinate `v` is the number `v / 2^32`.
//! Sums, halvings and products of coordinates are exact; in particular a
//! rectangle whose corners are whole units halves exactly 32 times, and any
//! side that is still even halves exactly. Areas and diagonals are computed
//! for rectangles within `COORD_LIMIT` of the origin (`2^14` units).
use vstd::prelude::*;

use crate::scaling::ScalerError;

verus! {

/// The number of coordinate steps in one unit: coordinates carry 32 bits
/// after the binary point.
pub const UNIT: i64 = 4294967296;

/// The largest coordinate magnitude (`2^46`, that is `2^14` units) for which
/// areas and diagonals are computed.
pub const COORD_LIMIT: i64 = 70368744177664;

/// `v` is within `COORD_LIMIT` of zero.
pub open spec fn coord_in_range(v: int) -> bool {
    -COORD_LIMIT <= v <= COORD_LIMIT
}

/// A point of the plane, in fixed-point coordinates.
#[derive(Debug, Clone, Copy, PartialEq, Eq, Structural)]
pub struct Point {
    pub x: i64,
    pub y: i64,
}

/// A closed axis-aligned rectangle `[x_min, x_max] × [y_min, y_max]`.
#[derive(Debug, Clone, Copy, PartialEq, Eq, Structural)]
pub struct Rect {
    pub x_min: i64,
    pub x_max: i64,
    pub y_min: i64,
    pub y_max: i64,
}

/// The midpoint of `a` and `b`, rounded down to a whole step (exact when
/// `a + b` is even).
pub open spec fn midpoint(a: int, b: int) -> int {
    (a + b) / 2
}

/// The rectangle with the given bounds.
pub open spec fn rect_of(x_min: i64, x_max: i64, y_min: i64, y_max: i64) -> Rect {
    Rect { x_min, x_max, y_min, y_max }
}

impl Rect {
    /// A rectangle is valid when it has positive width and positive height.
    pub open spec fn valid(self) -> bool {
        self.x_min < self.x_max && self.y_min < self.y_max
    }

    /// Every corner coordinate is within `COORD_LIMIT` of zero.
    pub open spec fn bounded(self) -> bool {
        &&& coord_in_range(self.x_min as int)
        &&& coord_in_range(self.x_max as int)
        &&& coord_in_range(self.y_min as int)
        &&& coord_in_range(self.y_max as int)
    }

    pub open spec fn spec_width(self) -> int {
        self.x_max - self.x_min
    }

    pub open spec fn spec_height(self) -> int {
        self.y_max - self.y_min
    }

    pub open spec fn spec_area(self) -> int {
        self.spec_width() * self.spec_height()
    }

    pub open spec fn spec_contains(self, p: Point) -> bool {
        self.x_min <= p.x && p.x <= self.x_max && self.y_min <= p.y && p.y <= self.y_max
    }

    pub open spec fn spec_centre(self) -> Point {
        Point {
            x: midpoint(self.x_min as int, self.x_max as int) as i64,
            y: midpoint(self.y_min as int, self.y_max as int) as i64,
        }
    }

    /// Every point of `other` lies in `self`.
    pub open spec fn contains_rect(self, other: Rect) -> bool {
        self.x_min <= other.x_min && other.x_max <= self.x_max && self.y_min <= other.y_min
            && other.y_max <= self.y_max
    }

    /// The two rectangles share no interior point.
    pub open spec fn interiors_disjoint(self, other: Rect) -> bool {
        self.x_max <= other.x_min || other.x_max <= self.x_min || self.y_max <= other.y_min
            || other.y_max <= self.y_min
    }

    /// The four quadrants cut at the centre, in the order
    /// south-west, south-east, north-west, north-east.
    pub open spec fn quadrant_rects(self) -> Seq<Rect> {
        let c = self.spec_centre();
        seq![
            rect_of(self.x_min, c.x, self.y_min, c.y),
            rect_of(c.x, self.x_max, self.y_min, c.y),
            rect_of(self.x_min, c.x, c.y, self.y_max),
            rect_of(c.x, self.x_max, c.y, self.y_max),
        ]
    }

    /// What `quadrants` returns: the four quadrants, or the first of them
    /// that is not a valid rectangle.
    pub open spec fn spec_quadrants(self) -> Result<Seq<Rect>, ScalerError> {
        let q = self.quadrant_rects();
        if !q[0].valid() {
            Err(ScalerError::InvalidRect(q[0]))
        } else if !q[1].valid() {
            Err(ScalerError::InvalidRect(q[1]))
        } else if !q[2].valid() {
            Err(ScalerError::InvalidRect(q[2]))
        } else if !q[3].valid() {
            Err(ScalerError::InvalidRect(q[3]))
        } else {
            Ok(q)
        }
    }

    /// Builds the rectangle `[x_min, x_max] × [y_min, y_max]`, refusing one
    /// without positive width and height.
    pub fn new(x_min: i64, x_max: i64, y_min: i64, y_max: i64) -> (r: Result<Rect, ScalerError>)
        ensures
            r == (if x_min < x_max && y_min < y_max {
                Ok::<Rect, ScalerError>(rect_of(x_min, x_max, y_min, y_max))
            } else {
                Err::<Rect, ScalerError>(ScalerError::InvalidRect(rect_of(x_min, x_max, y_min, y_max)))
            }),
    {
        let rect = Rect { x_min, x_max, y_min, y_max };
        if x_min >= x_max || y_min >= y_max {
            return Err(ScalerError::InvalidRect(rect));
        }
        Ok(rect)
    }

    pub fn width(&self) -> (r: i128)
        ensures
            r == self.spec_width(),
    {
        self.x_max as i128 - self.x_min as i128
    }

    pub fn height(&self) -> (r: i128)
        ensures
            r == self.spec_height(),
    {
        self.y_max as i128 - self.y_min as i128
    }

    /// Whether `p` lies in the closed rectangle (its boundary included).
    pub fn contains(&self, p: Point) -> (r: bool)
        ensures
            r == self.spec_contains(p),
    {
        self.x_min <= p.x && p.x <= self.x_max && self.y_min <= p.y && p.y <= self.y_max
    }

    /// The centre of the rectangle, each coordinate rounded down to a whole
    /// step (exact when the side is an even number of steps).
    pub fn centre(&self) -> (r: Point)
        ensures
            r == self.spec_centre(),
            r.x as int == midpoint(self.x_min as int, self.x_max as int),
            r.y as int == midpoint(self.y_min as int, self.y_max as int),
    {
        Point { x: floor_half_sum(self.x_min, self.x_max), y: floor_half_sum(self.y_min, self.y_max) }
    }

    pub fn area(&self) -> (r: i128)
        requires
            self.bounded(),
        ensures
            r == self.spec_area(),
    {
        let w = self.width();
        let h = self.height();
        proof {
            lemma_side_product_bounds(w as int, h as int);
        }
        w * h
    }

    /// Splits the rectangle at its centre into four quadrants
    /// `[south-west, south-east, north-west, north-east]`.
    pub fn quadrants(&self) -> (r: Result<[Rect; 4], ScalerError>)
        ensures
            r matches Ok(qs) ==> self.spec_quadrants() == Ok::<Seq<Rect>, ScalerError>(qs@),
            r matches Err(e) ==> self.spec_quadrants() == Err::<Seq<Rect>, ScalerError>(e),
            r is Ok <==> (self.spec_width() >= 2 && self.spec_height() >= 2),
    {
        let c = self.centre();
        let sw = Rect::new(self.x_min, c.x, self.y_min, c.y)?;
        let se = Rect::new(c.x, self.x_max, self.y_min, c.y)?;
        let nw = Rect::new(self.x_min, c.x, c.y, self.y_max)?;
        let ne = Rect::new(c.x, self.x_max, c.y, self.y_max)?;
        let qs = [sw, se, nw, ne];
        assert(qs@ =~= self.quadrant_rects());
        Ok(qs)
    }

    /// The aspect ratio `width / height`, as the pair `(width, height)`.
    pub fn aspect_ratio(&self) -> (r: (i128, i128))
        ensures
            r.0 == self.spec_width(),
            r.1 == self.spec_height(),
    {
        (self.width(), self.height())
    }

    /// The larger of width and height.
    pub fn longest_side(&self) -> (r: i128)
        ensures
            r == (if self.spec_width() >= self.spec_height() {
                self.spec_width()
            } else {
                self.spec_height()
            }),
    {
        let w = self.width();
        let h = self.height();
        if w >= h {
            w
        } else {
            h
        }
    }

    /// The squared length of the diagonal.
    pub open spec fn spec_diagonal_sq(self) -> int {
        self.spec_width() * self.spec_width() + self.spec_height() * self.spec_height()
    }

    /// The length of the diagonal, rounded down to a whole step.
    pub fn diameter(&self) -> (r: i64)
        requires
            self.bounded(),
        ensures
            r >= 0,
            r * r <= self.spec_diagonal_sq() < (r + 1) * (r + 1),
    {
        let w = self.width();
        let h = self.height();
        proof {
            lemma_side_squares_bounds(w as int, h as int);
        }
        floor_sqrt(w * w + h * h)
    }

    /// The smaller of width and height.
    pub fn shortest_side(&self) -> (r: i128)
        ensures
            r == (if self.spec_width() <= self.spec_height() {
                self.spec_width()
            } else {
                self.spec_height()
            }),
    {
        let w = self.width();
        let h = self.height();
        if w <= h {
            w
        } else {
            h
        }
    }
}

/// The area of a bounded rectangle is at most `2^94` in absolute value.
pub proof fn lemma_area_bounds(r: Rect)
    requires
        r.bounded(),
    ensures
        -0x4000_0000_0000_0000_0000_0000 <= r.spec_area() <= 0x4000_0000_0000_0000_0000_0000,
{
    lemma_side_product_bounds(r.spec_width(), r.spec_height());
}

/// The four quadrants of a splittable rectangle are valid, lie in it, share
/// no interior point, and together have its area.
pub proof fn lemma_quadrants_partition(p: Rect)
    requires
        p.spec_quadrants() is Ok,
    ensures
        forall|k: int| 0 <= k < 4 ==> (#[trigger] p.quadrant_rects()[k]).valid(),
        forall|k: int| 0 <= k < 4 ==> p.contains_rect(#[trigger] p.quadrant_rects()[k]),
        forall|k: int, l: int|
            0 <= k < 4 && 0 <= l < 4 && k != l ==> (#[trigger] p.quadrant_rects()[k]).interiors_disjoint(
                #[trigger] p.quadrant_rects()[l],
            ),
        p.quadrant_rects()[0].spec_area() + p.quadrant_rects()[1].spec_area()
            + p.quadrant_rects()[2].spec_area() + p.quadrant_rects()[3].spec_area() == p.spec_area(),
{
    let q = p.quadrant_rects();
    let c = p.spec_centre();
    let (x0, x1, y0, y1, cx, cy) = (
        p.x_min as int,
        p.x_max as int,
        p.y_min as int,
        p.y_max as int,
        c.x as int,
        c.y as int,
    );
    assert((cx - x0) * (cy - y0) + (x1 - cx) * (cy - y0) + (cx - x0) * (y1 - cy) + (x1 - cx) * (y1
        - cy) == (x1 - x0) * (y1 - y0)) by (nonlinear_arith);
}

/// A rectangle can be split exactly when each of its sides is at least two
/// steps long.
pub proof fn lemma_quadrants_ok_iff_two_steps(p: Rect)
    ensures
        p.spec_quadrants() is Ok <==> (p.spec_width() >= 2 && p.spec_height() >= 2),
{
    let c = p.spec_centre();
    assert(c.x as int == (p.x_min + p.x_max) / 2);
    assert(c.y as int == (p.y_min + p.y_max) / 2);
}

/// A rectangle whose sides are an even number of steps splits exactly: each
/// quadrant has half its width and half its height. A rectangle whose sides
/// are `k * 2^n` steps therefore halves exactly `n` times.
pub proof fn lemma_even_sides_halve_exactly(p: Rect)
    requires
        p.valid(),
        p.spec_width() % 2 == 0,
        p.spec_height() % 2 == 0,
    ensures
        p.spec_quadrants() is Ok,
        forall|k: int| 0 <= k < 4 ==> {
            &&& (#[trigger] p.quadrant_rects()[k]).spec_width() * 2 == p.spec_width()
            &&& p.quadrant_rects()[k].spec_height() * 2 == p.spec_height()
        },
{
    let c = p.spec_centre();
    assert(c.x - p.x_min == p.spec_width() / 2);
    assert(c.y - p.y_min == p.spec_height() / 2);
}

/// Every point of a splittable rectangle lies in one of its quadrants.
pub proof fn lemma_quadrants_cover(p: Rect, pt: Point)
    requires
        p.spec_quadrants() is Ok,
        p.spec_contains(pt),
    ensures
        exists|k: int| 0 <= k < 4 && (#[trigger] p.quadrant_rects()[k]).spec_contains(pt),
{
    let q = p.quadrant_rects();
    let c = p.spec_centre();
    if pt.x <= c.x && pt.y <= c.y {
        assert(q[0].spec_contains(pt));
    } else if pt.y <= c.y {
        assert(q[1].spec_contains(pt));
    } else if pt.x <= c.x {
        assert(q[2].spec_contains(pt));
    } else {
        assert(q[3].spec_contains(pt));
    }
}

/// The largest `r` with `r * r <= n`.
fn floor_sqrt(n: i128) -> (r: i64)
    requires
        0 <= n < 0x1_0000_0000_0000_0000_0000_0000,
    ensures
        r >= 0,
        r * r <= n < (r + 1) * (r + 1),
{
    let mut lo: i128 = 0;
    let mut hi: i128 = 0x1_0000_0000_0000;
    assert(hi * hi == 0x1_0000_0000_0000_0000_0000_0000) by (nonlinear_arith)
        requires
            hi == 0x1_0000_0000_0000,
    ;
    while hi - lo > 1
        invariant
            0 <= lo < hi <= 0x1_0000_0000_0000,
            lo * lo <= n < hi * hi,
        decreases hi - lo,
    {
        let mid = lo + (hi - lo) / 2;
        assert(0 <= mid * mid <= 0x1_0000_0000_0000_0000_0000_0000) by (nonlinear_arith)
            requires
                0 <= mid <= 0x1_0000_0000_0000,
        ;
        if mid * mid <= n {
            lo = mid;
        } else {
            hi = mid;
        }
    }
    lo as i64
}

/// Each side of a bounded rectangle squared is at most `2^94`.
pub proof fn lemma_side_squares_bounds(w: int, h: int)
    requires
        -0x8000_0000_0000 <= w <= 0x8000_0000_0000,
        -0x8000_0000_0000 <= h <= 0x8000_0000_0000,
    ensures
        0 <= w * w <= 0x4000_0000_0000_0000_0000_0000,
        0 <= h * h <= 0x4000_0000_0000_0000_0000_0000,
{
    assert(0 <= w * w <= 0x4000_0000_0000_0000_0000_0000) by (nonlinear_arith)
        requires
            -0x8000_0000_0000 <= w <= 0x8000_0000_0000,
    ;
    assert(0 <= h * h <= 0x4000_0000_0000_0000_0000_0000) by (nonlinear_arith)
        requires
            -0x8000_0000_0000 <= h <= 0x8000_0000_0000,
    ;
}

/// `floor((a + b) / 2)`, computed without overflow.
fn floor_half_sum(a: i64, b: i64) -> (r: i64)
    ensures
        r as int == midpoint(a as int, b as int),
{
    let s: i128 = a as i128 + b as i128;
    if s >= 0 {
        (s / 2) as i64
    } else {
        (-((-s + 1) / 2)) as i64
    }
}

proof fn lemma_side_product_bounds(w: int, h: int)
    requires
        -0x8000_0000_0000 <= w <= 0x8000_0000_0000,
        -0x8000_0000_0000 <= h <= 0x8000_0000_0000,
    ensures
        -0x4000_0000_0000_0000_0000_0000 <= w * h <= 0x4000_0000_0000_0000_0000_0000,
{
    assert(-0x4000_0000_0000_0000_0000_0000 <= w * h <= 0x4000_0000_0000_0000_0000_0000) by (nonlinear_arith)
        requires
            -0x8000_0000_0000 <= w <= 0x8000_0000_0000,
            -0x8000_0000_0000 <= h <= 0x8000_0000_0000,
    ;
}

} // verus!
