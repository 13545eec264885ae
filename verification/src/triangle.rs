use vstd::prelude::*;
use crate::point::Point;
use crate::rect::{Rect, min_i, max_i};

verus! {

/// A triangle given by three device-space points in 16.16 fixed point.
#[derive(Copy, Clone, PartialEq, Eq, Structural, Debug)]
pub struct Triangle {
    pub a: Point,
    pub b: Point,
    pub c: Point,
}

/// The smallest x coordinate of a triangle.
pub open spec fn tri_xmin(t: Triangle) -> int {
    min_i(t.a.x as int, min_i(t.b.x as int, t.c.x as int))
}

pub open spec fn tri_xmax(t: Triangle) -> int {
    max_i(t.a.x as int, max_i(t.b.x as int, t.c.x as int))
}

pub open spec fn tri_ymin(t: Triangle) -> int {
    min_i(t.a.y as int, min_i(t.b.y as int, t.c.y as int))
}

pub open spec fn tri_ymax(t: Triangle) -> int {
    max_i(t.a.y as int, max_i(t.b.y as int, t.c.y as int))
}

impl Triangle {
    pub fn new(a: Point, b: Point, c: Point) -> (t: Triangle)
        ensures
            t == (Triangle { a, b, c }),
    {
        Triangle { a, b, c }
    }

    /// The axis-aligned bounding rectangle of the three vertices.
    pub fn bounds(&self) -> (r: Rect)
        ensures
            r.left == tri_xmin(*self),
            r.top == tri_ymin(*self),
            r.right == tri_xmax(*self),
            r.bottom == tri_ymax(*self),
    {
        let xmin = if self.a.x < self.b.x { self.a.x } else { self.b.x };
        let xmin = if xmin < self.c.x { xmin } else { self.c.x };
        let xmax = if self.a.x > self.b.x { self.a.x } else { self.b.x };
        let xmax = if xmax > self.c.x { xmax } else { self.c.x };
        let ymin = if self.a.y < self.b.y { self.a.y } else { self.b.y };
        let ymin = if ymin < self.c.y { ymin } else { self.c.y };
        let ymax = if self.a.y > self.b.y { self.a.y } else { self.b.y };
        let ymax = if ymax > self.c.y { ymax } else { self.c.y };

        Rect::make_ltrb(xmin, ymin, xmax, ymax)
    }
}

} // verus!
