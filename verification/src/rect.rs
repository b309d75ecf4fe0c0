//! Axis-aligned rectangles in PDF user space, with the origin at the
//! bottom-left corner of the page. Coordinates are whole points (1/72 inch).
use vstd::prelude::*;

verus! {

/// A rectangle: its lower-left corner `(x, y)` and its size. A rectangle made
/// by `from_corners` has a size of zero or more.
#[derive(Clone, Copy, Debug, PartialEq, Eq, Structural)]
pub struct Rect {
    pub x: i64,
    pub y: i64,
    pub width: i64,
    pub height: i64,
}

pub open spec fn min(a: int, b: int) -> int {
    if a <= b {
        a
    } else {
        b
    }
}

pub open spec fn abs_diff(a: int, b: int) -> int {
    if a <= b {
        b - a
    } else {
        a - b
    }
}

/// Whether the difference of two coordinates fits in an `i64`.
pub open spec fn diff_fits(a: i64, b: i64) -> bool {
    abs_diff(a as int, b as int) <= i64::MAX
}

impl Rect {
    pub open spec fn spec_right(self) -> int {
        self.x + self.width
    }

    pub open spec fn spec_top(self) -> int {
        self.y + self.height
    }

    /// `self` and `other` share no area: `self` lies entirely to the left
    /// of, to the right of, below or above `other`, touching at most an edge.
    pub open spec fn spec_is_outside(self, other: Rect) -> bool {
        ||| self.spec_right() <= other.x
        ||| self.x >= other.spec_right()
        ||| self.spec_top() <= other.y
        ||| self.y >= other.spec_top()
    }

    /// The rectangle with opposite corners `(x1, y1)` and `(x2, y2)`.
    pub open spec fn spec_from_corners(x1: i64, y1: i64, x2: i64, y2: i64) -> Rect {
        Rect {
            x: min(x1 as int, x2 as int) as i64,
            y: min(y1 as int, y2 as int) as i64,
            width: abs_diff(x1 as int, x2 as int) as i64,
            height: abs_diff(y1 as int, y2 as int) as i64,
        }
    }

    pub fn new(x: i64, y: i64, width: i64, height: i64) -> (r: Rect)
        ensures
            r == (Rect { x, y, width, height }),
    {
        Rect { x, y, width, height }
    }

    /// The rectangle with opposite corners `(x1, y1)` and `(x2, y2)`, given
    /// in either order: its corner is the lower-left one and its size is
    /// never negative.
    pub fn from_corners(x1: i64, y1: i64, x2: i64, y2: i64) -> (r: Rect)
        requires
            diff_fits(x1, x2),
            diff_fits(y1, y2),
        ensures
            r == Self::spec_from_corners(x1, y1, x2, y2),
    {
        let (x, width) = if x1 <= x2 {
            (x1, x2 - x1)
        } else {
            (x2, x1 - x2)
        };
        let (y, height) = if y1 <= y2 {
            (y1, y2 - y1)
        } else {
            (y2, y1 - y2)
        };
        Rect { x, y, width, height }
    }

    /// The x coordinate of the right edge.
    pub fn right(&self) -> (r: i64)
        requires
            i64::MIN <= self.spec_right() <= i64::MAX,
        ensures
            r == self.spec_right(),
    {
        self.x + self.width
    }

    /// The y coordinate of the top edge.
    pub fn top(&self) -> (r: i64)
        requires
            i64::MIN <= self.spec_top() <= i64::MAX,
        ensures
            r == self.spec_top(),
    {
        self.y + self.height
    }

    /// Whether `self` shares no area with `other`.
    pub fn is_outside(&self, other: &Rect) -> (b: bool)
        ensures
            b == self.spec_is_outside(*other),
    {
        let self_right = self.x as i128 + self.width as i128;
        let self_top = self.y as i128 + self.height as i128;
        let other_right = other.x as i128 + other.width as i128;
        let other_top = other.y as i128 + other.height as i128;
        self_right <= other.x as i128 || self.x as i128 >= other_right || self_top <= other.y as i128
            || self.y as i128 >= other_top
    }
}

/// The corners may be given in any order: both diagonals, each from either
/// end, describe the same rectangle.
pub proof fn lemma_from_corners_order_free(x1: i64, y1: i64, x2: i64, y2: i64)
    ensures
        Rect::spec_from_corners(x1, y1, x2, y2) == Rect::spec_from_corners(x2, y2, x1, y1),
        Rect::spec_from_corners(x1, y1, x2, y2) == Rect::spec_from_corners(x1, y2, x2, y1),
        Rect::spec_from_corners(x1, y1, x2, y2) == Rect::spec_from_corners(x2, y1, x1, y2),
{
}

/// A rectangle made from two corners has a size of zero or more, and its
/// edges are the given coordinates.
pub proof fn lemma_from_corners_edges(x1: i64, y1: i64, x2: i64, y2: i64)
    requires
        diff_fits(x1, x2),
        diff_fits(y1, y2),
    ensures
        ({
            let r = Rect::spec_from_corners(x1, y1, x2, y2);
            &&& r.width >= 0
            &&& r.height >= 0
            &&& r.x == min(x1 as int, x2 as int)
            &&& r.spec_right() == if x1 <= x2 { x2 as int } else { x1 as int }
            &&& r.y == min(y1 as int, y2 as int)
            &&& r.spec_top() == if y1 <= y2 { y2 as int } else { y1 as int }
        }),
{
}

/// Being outside goes both ways: `a` is outside `b` exactly when `b` is
/// outside `a`.
pub proof fn lemma_is_outside_symmetric(a: Rect, b: Rect)
    ensures
        a.spec_is_outside(b) == b.spec_is_outside(a),
{
}

/// A rectangle with an area is never outside itself, nor outside a
/// rectangle that contains it.
pub proof fn lemma_not_outside_container(inner: Rect, outer: Rect)
    requires
        inner.width > 0,
        inner.height > 0,
        outer.x <= inner.x,
        outer.y <= inner.y,
        inner.spec_right() <= outer.spec_right(),
        inner.spec_top() <= outer.spec_top(),
    ensures
        !inner.spec_is_outside(outer),
{
}

} // verus!
