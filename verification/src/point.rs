use vstd::prelude::*;

verus! {

/// A device-space point in 16.16 fixed point (one unit is one pixel).
#[derive(Copy, Clone, PartialEq, Eq, Structural, Debug)]
pub struct Point {
    pub x: i32,
    pub y: i32,
}

impl Point {
    pub fn new(x: i32, y: i32) -> (p: Point)
        ensures
            p == (Point { x, y }),
    {
        Point { x, y }
    }
}

} // verus!
