//! Integer rectangles
use vstd::prelude::*;

verus! {

#[derive(Copy, Clone, Debug, PartialEq, Eq, Structural)]
pub struct Rectangle {
    pub x: i32,
    pub y: i32,
    pub w: i32,
    pub h: i32,
}

impl Rectangle {
    /// A rectangle with the given top-left corner and (positive) size
    pub fn new(x: i32, y: i32, w: i32, h: i32) -> (r: Rectangle)
        requires
            w > 0,
            h > 0,
        ensures
            r == (Rectangle { x, y, w, h }),
    {
        Rectangle { x, y, w, h }
    }

    /// The rightmost column inside the rectangle
    pub fn right(&self) -> (r: i32)
        requires
            i32::MIN <= self.x + self.w - 1 <= i32::MAX,
        ensures
            r == self.x + self.w - 1,
    {
        (self.x as i64 + self.w as i64 - 1) as i32
    }

    /// The bottom row inside the rectangle
    pub fn bottom(&self) -> (r: i32)
        requires
            i32::MIN <= self.y + self.h - 1 <= i32::MAX,
        ensures
            r == self.y + self.h - 1,
    {
        (self.y as i64 + self.h as i64 - 1) as i32
    }
}

} // verus!
