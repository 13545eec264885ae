use vstd::prelude::*;
use crate::point::Point;

verus! {

/// Truncates a 16.16 coordinate toward zero, yielding a whole pixel count.
pub open spec fn trunc16(v: int) -> int {
    if v >= 0 {
        v / 0x10000
    } else {
        -((-v) / 0x10000)
    }
}

/// A whole-pixel bounding box of three points, edges truncated toward zero.
#[derive(Copy, Clone, PartialEq, Eq, Structural, Debug)]
pub struct BoundingBox {
    pub xmin: i32,
    pub xmax: i32,
    pub ymin: i32,
    pub ymax: i32,
}

impl BoundingBox {
    pub fn new(a: &Point, b: &Point, c: &Point) -> (bb: BoundingBox)
        ensures
            bb.xmin == trunc16(crate::rect::min_i(a.x as int, crate::rect::min_i(b.x as int, c.x as int))),
            bb.xmax == trunc16(crate::rect::max_i(a.x as int, crate::rect::max_i(b.x as int, c.x as int))),
            bb.ymin == trunc16(crate::rect::min_i(a.y as int, crate::rect::min_i(b.y as int, c.y as int))),
            bb.ymax == trunc16(crate::rect::max_i(a.y as int, crate::rect::max_i(b.y as int, c.y as int))),
    {
        let xmin = if a.x < b.x { if a.x < c.x { a.x } else { c.x } } else if b.x < c.x { b.x } else { c.x };
        let xmax = if a.x > b.x { if a.x > c.x { a.x } else { c.x } } else if b.x > c.x { b.x } else { c.x };
        let ymin = if a.y < b.y { if a.y < c.y { a.y } else { c.y } } else if b.y < c.y { b.y } else { c.y };
        let ymax = if a.y > b.y { if a.y > c.y { a.y } else { c.y } } else if b.y > c.y { b.y } else { c.y };

        BoundingBox {
            xmin: xmin / 0x10000,
            xmax: xmax / 0x10000,
            ymin: ymin / 0x10000,
            ymax: ymax / 0x10000,
        }
    }
}

} // verus!
