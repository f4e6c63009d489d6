use vstd::prelude::*;

verus! {

/// A position on the grid, in tile coordinates.
#[derive(Clone, Copy, Debug, PartialEq, Eq, Structural)]
pub struct Point {
    pub x: i32,
    pub y: i32,
}

impl Point {
    /// Makes a point from its two coordinates.
    pub fn new(x: i32, y: i32) -> (p: Point)
        ensures
            p.x == x,
            p.y == y,
    {
        Point { x, y }
    }
}

/// Integer division by two that rounds toward zero, as Rust's `/` does on `i32`.
pub open spec fn half_toward_zero(a: int) -> int {
    if a >= 0 {
        a / 2
    } else {
        -((-a) / 2)
    }
}

/// An axis-aligned rectangle given by two opposite corners, `(x1, y1)` and `(x2, y2)`.
#[derive(Clone, Copy, Debug, PartialEq, Eq, Structural)]
pub struct Rect {
    pub x1: i32,
    pub x2: i32,
    pub y1: i32,
    pub y2: i32,
}

impl Rect {
    /// Whether two rectangles overlap or touch (their closed extents meet).
    pub open spec fn overlaps(self, other: Rect) -> bool {
        &&& self.x1 <= other.x2
        &&& self.x2 >= other.x1
        &&& self.y1 <= other.y2
        &&& self.y2 >= other.y1
    }

    /// The centre of the rectangle, each coordinate halved toward zero.
    pub open spec fn center_spec(self) -> (int, int) {
        (half_toward_zero(self.x1 + self.x2), half_toward_zero(self.y1 + self.y2))
    }

    /// A rectangle with top-left corner `(x, y)`, `w` wide and `h` high.
    pub fn new(x: i32, y: i32, w: i32, h: i32) -> (r: Rect)
        requires
            i32::MIN <= x + w <= i32::MAX,
            i32::MIN <= y + h <= i32::MAX,
        ensures
            r.x1 == x,
            r.y1 == y,
            r.x2 == x + w,
            r.y2 == y + h,
    {
        Rect { x1: x, y1: y, x2: x + w, y2: y + h }
    }

    /// Whether this rectangle overlaps or touches `other`.
    pub fn intersect(&self, other: &Rect) -> (b: bool)
        ensures
            b == self.overlaps(*other),
    {
        self.x1 <= other.x2 && self.x2 >= other.x1 && self.y1 <= other.y2 && self.y2 >= other.y1
    }

    /// The centre of the rectangle.
    pub fn center(&self) -> (c: (i32, i32))
        requires
            i32::MIN <= self.x1 + self.x2 <= i32::MAX,
            i32::MIN <= self.y1 + self.y2 <= i32::MAX,
        ensures
            c.0 == self.center_spec().0,
            c.1 == self.center_spec().1,
    {
        ((self.x1 + self.x2) / 2, (self.y1 + self.y2) / 2)
    }
}

/// Overlap is symmetric: `a` meets `b` exactly when `b` meets `a`.
pub proof fn lemma_overlap_symmetric(a: Rect, b: Rect)
    ensures
        a.overlaps(b) == b.overlaps(a),
{
}

/// Two rectangles whose rows are apart (one lies wholly above the other), or whose columns are
/// apart, never overlap.
pub proof fn lemma_apart_rects_do_not_overlap(a: Rect, b: Rect)
    ensures
        (a.y2 < b.y1 || b.y2 < a.y1) ==> !a.overlaps(b),
        (a.x2 < b.x1 || b.x2 < a.x1) ==> !a.overlaps(b),
{
}

/// Whether the closed rectangle `r` holds the point `(x, y)`.
pub open spec fn covers(r: Rect, x: int, y: int) -> bool {
    r.x1 <= x <= r.x2 && r.y1 <= y <= r.y2
}

/// For rectangles given corner-first (`x1 <= x2`, `y1 <= y2`), overlapping or touching means
/// sharing a tile: some point lies in both closed rectangles.
pub proof fn lemma_overlap_is_shared_point(a: Rect, b: Rect)
    requires
        a.x1 <= a.x2,
        a.y1 <= a.y2,
        b.x1 <= b.x2,
        b.y1 <= b.y2,
    ensures
        a.overlaps(b) <==> exists|x: int, y: int| #[trigger] covers(a, x, y) && #[trigger] covers(b, x, y),
{
    if a.overlaps(b) {
        let x: int = if a.x1 >= b.x1 { a.x1 as int } else { b.x1 as int };
        let y: int = if a.y1 >= b.y1 { a.y1 as int } else { b.y1 as int };
        assert(covers(a, x, y) && covers(b, x, y));
    }
}

} // verus!
