//! Axis-aligned rectangles on the pixel grid, and the tolerant adjacency
//! test between two of them.

use vstd::prelude::*;

verus! {

/// How far, in pixels, a region is grown on every side before it is tested
/// for intersection with another one. Regions whose edges merely coincide
/// overlap once one of them is grown by this margin.
pub const ADJACENCY_EPSILON: i32 = 1;

/// An axis-aligned rectangle in pixel space, given by its two corners.
#[derive(Clone, Copy, Debug, PartialEq, Eq, Structural)]
pub struct PixelRect {
    pub min_x: i32,
    pub min_y: i32,
    pub max_x: i32,
    pub max_y: i32,
}

/// A rectangle given by its origin and its size, wide enough to hold any
/// `PixelRect` grown by any `i32` margin.
#[derive(Clone, Copy, Debug, PartialEq, Eq, Structural)]
pub struct WideRect {
    pub x: i64,
    pub y: i64,
    pub width: i64,
    pub height: i64,
}

/// The lesser of two numbers.
pub open spec fn lesser(a: int, b: int) -> int {
    if a <= b { a } else { b }
}

/// The greater of two numbers.
pub open spec fn greater(a: int, b: int) -> int {
    if a >= b { a } else { b }
}

/// Whether `a`, grown by `by` on every side, shares interior with `b`: the
/// overlap of the two, taken corner by corner, is strictly positive on both
/// axes.
pub open spec fn inflated_intersects(a: PixelRect, by: int, b: PixelRect) -> bool {
    &&& lesser(a.max_x + by, b.max_x as int) > greater(a.min_x - by, b.min_x as int)
    &&& lesser(a.max_y + by, b.max_y as int) > greater(a.min_y - by, b.min_y as int)
}

/// The adjacency rule for two regions: the first, grown by
/// `ADJACENCY_EPSILON`, intersects the second.
pub open spec fn touches(a: PixelRect, b: PixelRect) -> bool {
    inflated_intersects(a, ADJACENCY_EPSILON as int, b)
}

impl WideRect {
    /// Both corners fit comfortably in 64 bits.
    pub open spec fn in_range(self) -> bool {
        &&& -0x2_0000_0000 <= self.x <= 0x2_0000_0000
        &&& -0x2_0000_0000 <= self.y <= 0x2_0000_0000
        &&& -0x2_0000_0000 <= self.width <= 0x2_0000_0000
        &&& -0x2_0000_0000 <= self.height <= 0x2_0000_0000
    }

    /// Whether this rectangle shares interior with `b`.
    pub open spec fn intersects_spec(self, b: PixelRect) -> bool {
        &&& lesser(self.x + self.width, b.max_x as int) > greater(self.x as int, b.min_x as int)
        &&& lesser(self.y + self.height, b.max_y as int) > greater(self.y as int, b.min_y as int)
    }
}

impl PixelRect {
    /// The rectangle with the given corners.
    pub fn new(min_x: i32, min_y: i32, max_x: i32, max_y: i32) -> (r: PixelRect)
        ensures
            r == (PixelRect { min_x, min_y, max_x, max_y }),
    {
        PixelRect { min_x, min_y, max_x, max_y }
    }

    /// `inner` lies within this rectangle.
    pub open spec fn encloses(self, inner: PixelRect) -> bool {
        &&& self.min_x <= inner.min_x
        &&& self.min_y <= inner.min_y
        &&& inner.max_x <= self.max_x
        &&& inner.max_y <= self.max_y
    }

    /// The join of two rectangles: the least corner and the greatest corner
    /// of the two.
    pub open spec fn join_spec(self, other: PixelRect) -> PixelRect {
        PixelRect {
            min_x: if self.min_x <= other.min_x { self.min_x } else { other.min_x },
            min_y: if self.min_y <= other.min_y { self.min_y } else { other.min_y },
            max_x: if self.max_x >= other.max_x { self.max_x } else { other.max_x },
            max_y: if self.max_y >= other.max_y { self.max_y } else { other.max_y },
        }
    }

    /// Joins two rectangles into the smallest one that encloses both.
    pub fn join(&self, other: &PixelRect) -> (r: PixelRect)
        ensures
            r == self.join_spec(*other),
    {
        PixelRect {
            min_x: if self.min_x <= other.min_x { self.min_x } else { other.min_x },
            min_y: if self.min_y <= other.min_y { self.min_y } else { other.min_y },
            max_x: if self.max_x >= other.max_x { self.max_x } else { other.max_x },
            max_y: if self.max_y >= other.max_y { self.max_y } else { other.max_y },
        }
    }

    /// Tests the adjacency rule: whether this region, grown by
    /// `ADJACENCY_EPSILON` on both axes, intersects `other`.
    pub fn touches(&self, other: &PixelRect) -> (r: bool)
        ensures
            r == touches(*self, *other),
    {
        let grown = inflate(self, ADJACENCY_EPSILON);
        intersects(&grown, other)
    }
}

/// Calls `glamour::Rect::inflate` on the rectangle that `glamour::Box2::to_rect`
/// makes of `r`. The origin moves back by `by` on both axes and the size
/// grows by twice `by`; in 64 bits nothing overflows.
#[verifier::external_body]
fn inflate(r: &PixelRect, by: i32) -> (out: WideRect)
    ensures
        out.x == r.min_x - by,
        out.y == r.min_y - by,
        out.width == r.max_x - r.min_x + 2 * by,
        out.height == r.max_y - r.min_y + 2 * by,
{
    let min = glamour::Point2::<i64> { x: r.min_x as i64, y: r.min_y as i64 };
    let max = glamour::Point2::<i64> { x: r.max_x as i64, y: r.max_y as i64 };
    let by = glamour::Size2::<i64> { width: by as i64, height: by as i64 };
    let grown = glamour::Box2::<i64>::new(min, max).to_rect().inflate(by);
    WideRect { x: grown.origin.x, y: grown.origin.y, width: grown.size.width, height: grown.size.height }
}

/// Calls `glamour::Intersection::intersects` of a `glamour::Rect` on a
/// `glamour::Box2`. The rectangle is turned into its two corners, and the two
/// intersect when the greater of the lower corners lies strictly below the
/// lesser of the upper corners on both axes.
#[verifier::external_body]
fn intersects(r: &WideRect, b: &PixelRect) -> (hit: bool)
    requires
        r.in_range(),
    ensures
        hit == r.intersects_spec(*b),
{
    let origin = glamour::Point2::<i64> { x: r.x, y: r.y };
    let size = glamour::Size2::<i64> { width: r.width, height: r.height };
    let min = glamour::Point2::<i64> { x: b.min_x as i64, y: b.min_y as i64 };
    let max = glamour::Point2::<i64> { x: b.max_x as i64, y: b.max_y as i64 };
    glamour::Intersection::intersects(&glamour::Rect::<i64>::new(origin, size), &glamour::Box2::<i64>::new(min, max))
}

/// Between two regions with a positive extent on both axes the adjacency
/// rule does not depend on which of them is grown. Only a region that is
/// empty on some axis can touch another without being touched by it.
pub proof fn lemma_touches_symmetric(a: PixelRect, b: PixelRect)
    requires
        a.min_x < a.max_x,
        a.min_y < a.max_y,
        b.min_x < b.max_x,
        b.min_y < b.max_y,
    ensures
        touches(a, b) == touches(b, a),
{
}

} // verus!
