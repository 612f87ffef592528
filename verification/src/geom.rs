//! Integer 2D points and axis-aligned rectangles.

use vstd::prelude::*;

verus! {

/// An integer point on the pixel grid.
#[derive(Clone, Copy, Debug, PartialEq, Eq, Structural)]
pub struct Point {
    pub x: i32,
    pub y: i32,
}

impl Point {
    pub fn new(x: i32, y: i32) -> (p: Point)
        ensures
            p == (Point { x, y }),
    {
        Point { x, y }
    }
}

/// An axis-aligned rectangle: integer origin plus unsigned extent.
#[derive(Clone, Copy, Debug, PartialEq, Eq, Structural)]
pub struct Rect {
    pub x: i32,
    pub y: i32,
    pub width: u32,
    pub height: u32,
}

impl Rect {
    /// Half-open membership: the rectangle covers
    /// `[x, x+width) x [y, y+height)`.
    pub open spec fn spec_contains(self, px: int, py: int) -> bool {
        &&& self.x <= px < self.x + self.width
        &&& self.y <= py < self.y + self.height
    }

    pub fn new(x: i32, y: i32, width: u32, height: u32) -> (r: Rect)
        ensures
            r == (Rect { x, y, width, height }),
    {
        Rect { x, y, width, height }
    }

    /// Half-open interval test for a point inside the rectangle.
    pub fn contains(&self, p: Point) -> (r: bool)
        ensures
            r == self.spec_contains(p.x as int, p.y as int),
    {
        let px = p.x as i64;
        let py = p.y as i64;
        px >= self.x as i64 && px < self.x as i64 + self.width as i64 && py >= self.y as i64 && py
            < self.y as i64 + self.height as i64
    }
}

} // verus!
