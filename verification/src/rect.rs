//! Axis-aligned room rectangles used by the map generator.

use vstd::prelude::*;

verus! {

/// A rectangle with inclusive corner coordinates.  A room `Rect` built by
/// `new(x, y, w, h)` spans `x..=x+w` by `y..=y+h`; only the tiles strictly
/// inside the left and top edges (`x+1..=x+w`, `y+1..=y+h`) are carved to
/// floor, so two rooms that merely touch share no floor tiles.
#[derive(Clone, Copy, PartialEq, Eq, Structural, Debug)]
pub struct Rect {
    pub x1: i32,
    pub y1: i32,
    pub x2: i32,
    pub y2: i32,
}

impl Rect {
    pub fn new(x: i32, y: i32, w: i32, h: i32) -> (r: Rect)
        requires
            -0x4000_0000 <= x < 0x4000_0000,
            -0x4000_0000 <= y < 0x4000_0000,
            0 <= w < 0x4000_0000,
            0 <= h < 0x4000_0000,
        ensures
            r == (Rect { x1: x, y1: y, x2: (x + w) as i32, y2: (y + h) as i32 }),
    {
        Rect { x1: x, y1: y, x2: x + w, y2: y + h }
    }

    /// Two rectangles intersect when their closed coordinate ranges overlap
    /// on both axes; touching edges count as an intersection.
    pub open spec fn spec_intersects(self, other: Rect) -> bool {
        self.x1 <= other.x2 && self.x2 >= other.x1 && self.y1 <= other.y2 && self.y2 >= other.y1
    }

    pub fn intersects(&self, other: &Rect) -> (b: bool)
        ensures
            b == self.spec_intersects(*other),
    {
        self.x1 <= other.x2 && self.x2 >= other.x1 && self.y1 <= other.y2 && self.y2 >= other.y1
    }

    pub open spec fn spec_center(self) -> (int, int) {
        ((self.x1 + self.x2) / 2, (self.y1 + self.y2) / 2)
    }

    pub fn center(&self) -> (c: (i32, i32))
        requires
            0 <= self.x1 <= self.x2 < 0x4000_0000,
            0 <= self.y1 <= self.y2 < 0x4000_0000,
        ensures
            (c.0 as int, c.1 as int) == self.spec_center(),
            self.x1 <= c.0 <= self.x2,
            self.y1 <= c.1 <= self.y2,
    {
        ((self.x1 + self.x2) / 2, (self.y1 + self.y2) / 2)
    }

    /// The tiles a room occupies once carved: strictly inside the left/top
    /// edge, up to and including the right/bottom edge.
    pub open spec fn covers(self, x: int, y: int) -> bool {
        self.x1 < x <= self.x2 && self.y1 < y <= self.y2
    }
}

} // verus!
