//! An oriented rectangle: start and end corners, with signed extents.

use vstd::prelude::*;

verus! {

use crate::range::in_coord_range;
use crate::vector::Vector;

#[derive(Clone, Copy, Debug, PartialEq, Eq, Structural)]
pub struct Rectangle {
    pub start: Vector,
    pub end: Vector,
}

impl Rectangle {
    pub fn new(start: Vector, end: Vector) -> (r: Rectangle)
        ensures
            r.start == start,
            r.end == end,
    {
        Rectangle { start, end }
    }

    /// Signed horizontal extent; the caller chooses the orientation.
    pub fn width(&self) -> (r: i64)
        requires
            in_coord_range(self.start.x as int),
            in_coord_range(self.end.x as int),
        ensures
            r == self.end.x - self.start.x,
    {
        self.end.x - self.start.x
    }

    /// Signed vertical extent; the caller chooses the orientation.
    pub fn height(&self) -> (r: i64)
        requires
            in_coord_range(self.start.y as int),
            in_coord_range(self.end.y as int),
        ensures
            r == self.end.y - self.start.y,
    {
        self.end.y - self.start.y
    }
}

} // verus!
