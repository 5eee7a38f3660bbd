//! Axis-aligned rectangles on the tile grid.

use vstd::prelude::*;

verus! {

/// A box given by two corners; `x2 = x1 + width`, `y2 = y1 + height`.
#[derive(PartialEq, Eq, Structural, Copy, Clone, Debug)]
pub struct Rect {
    pub x1: i32,
    pub x2: i32,
    pub y1: i32,
    pub y2: i32,
}

/// Half of `s`, rounded toward zero.
pub open spec fn half_toward_zero(s: int) -> int {
    if s >= 0 {
        s / 2
    } else {
        -((-s) / 2)
    }
}

impl Rect {
    /// The corners are in order on both axes.
    pub open spec fn well_formed(self) -> bool {
        self.x1 <= self.x2 && self.y1 <= self.y2
    }

    /// Overlap on both axes, bounds included.
    pub open spec fn overlaps(self, other: Rect) -> bool {
        self.x1 <= other.x2 && self.y1 <= other.y2 && self.x2 >= other.x1 && self.y2 >= other.y1
    }

    /// The tile halfway between the corners.
    pub open spec fn midpoint(self) -> (int, int) {
        (half_toward_zero(self.x1 + self.x2), half_toward_zero(self.y1 + self.y2))
    }

    /// The tile `(x, y)` lies strictly inside the box on its low sides: the
    /// part of the box that becomes floor when the box is carved as a room.
    pub open spec fn interior(self, x: int, y: int) -> bool {
        self.x1 < x < self.x2 && self.y1 < y < self.y2
    }

    pub fn new(x: i32, y: i32, w: i32, h: i32) -> (r: Rect)
        requires
            i32::MIN <= x + w <= i32::MAX,
            i32::MIN <= y + h <= i32::MAX,
        ensures
            r.x1 == x,
            r.y1 == y,
            r.x2 == x + w,
            r.y2 == y + h,
            r.well_formed() <==> (w >= 0 && h >= 0),
    {
        Rect { x1: x, x2: x + w, y1: y, y2: y + h }
    }

    /// Whether this box overlaps `other`.
    pub fn intersect(&self, other: &Rect) -> (b: bool)
        ensures
            b == self.overlaps(*other),
    {
        self.x1 <= other.x2 && self.y1 <= other.y2 && self.x2 >= other.x1 && self.y2 >= other.y1
    }

    pub fn center(&self) -> (c: (i32, i32))
        ensures
            (c.0 as int, c.1 as int) == self.midpoint(),
    {
        let sx: i64 = self.x1 as i64 + self.x2 as i64;
        let sy: i64 = self.y1 as i64 + self.y2 as i64;
        ((sx / 2) as i32, (sy / 2) as i32)
    }
}

/// A box whose corners are in order overlaps itself.
pub proof fn lemma_intersect_reflexive(r: Rect)
    requires
        r.well_formed(),
    ensures
        r.overlaps(r),
{
}

/// Overlap does not depend on which of the two boxes is asked.
pub proof fn lemma_intersect_symmetric(a: Rect, b: Rect)
    ensures
        a.overlaps(b) == b.overlaps(a),
{
}

} // verus!
