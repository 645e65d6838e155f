//! Axis-aligned rectangles with the engine's inverted-Y containment
//! convention: a rectangle's position uses a y-axis that increases upward,
//! while containment queries use a downward-increasing axis, so the y
//! bounds are checked against the negated position.

use vstd::prelude::*;

verus! {

#[derive(Debug, Clone, Copy, PartialEq, Eq, Structural)]
pub struct Rectangle {
    pub x: i32,
    pub y: i32,
    pub width: i32,
    pub height: i32,
}

impl Rectangle {
    /// The containment predicate: `x` within `[pos.x, pos.x + w)` and `y`
    /// within `[-pos.y, -pos.y + h)`, over unbounded integers.
    pub open spec fn spec_contains(self, x: int, y: int) -> bool {
        let px = self.x as int;
        let py = self.y as int;
        let w = self.width as int;
        let h = self.height as int;
        px <= x < px + w && -py <= y < -py + h
    }

    pub fn new() -> (r: Rectangle)
        ensures
            r == (Rectangle { x: 0i32, y: 0i32, width: 0i32, height: 0i32 }),
    {
        Rectangle { x: 0, y: 0, width: 0, height: 0 }
    }

    pub fn new_with_values(x: i32, y: i32, width: i32, height: i32) -> (r: Rectangle)
        ensures
            r == (Rectangle { x, y, width, height }),
    {
        Rectangle { x, y, width, height }
    }

    /// Containment test; the arithmetic is widened to 64 bits so that no
    /// combination of 32-bit coordinates can overflow.
    pub fn contains(&self, x: i32, y: i32) -> (r: bool)
        ensures
            r == self.spec_contains(x as int, y as int),
    {
        let px = self.x as i64;
        let py = self.y as i64;
        let w = self.width as i64;
        let h = self.height as i64;
        let xx = x as i64;
        let yy = y as i64;
        xx >= px && xx < px + w && yy >= -py && yy < -py + h
    }
}

} // verus!
