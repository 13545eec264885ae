use vstd::prelude::*;
use crate::util::floor_div;

verus! {

/// An axis-aligned rectangle with 16.16 fixed-point edges.
///
/// The rectangle covers `[left, right) x [top, bottom)` and is empty as soon
/// as an edge pair crosses or coincides.
#[derive(Copy, Clone, PartialEq, Eq, Structural, Debug)]
pub struct Rect {
    pub left: i32,
    pub top: i32,
    pub right: i32,
    pub bottom: i32,
}

/// Floors a 16.16 coordinate to a whole pixel boundary.
pub open spec fn floor16(v: int) -> int {
    (v / 0x10000) * 0x10000
}

/// The rectangle with all four edges floored to pixel boundaries.
pub open spec fn round_spec(r: Rect) -> Rect {
    Rect {
        left: floor16(r.left as int) as i32,
        top: floor16(r.top as int) as i32,
        right: floor16(r.right as int) as i32,
        bottom: floor16(r.bottom as int) as i32,
    }
}

/// A rectangle is empty when an edge pair crosses or coincides.
pub open spec fn rect_empty(r: Rect) -> bool {
    r.left >= r.right || r.top >= r.bottom
}

/// Whether two rectangles overlap in a region of positive area.
pub open spec fn rect_overlaps(a: Rect, b: Rect) -> bool {
    max_i(a.left as int, b.left as int) < min_i(a.right as int, b.right as int)
        && max_i(a.top as int, b.top as int) < min_i(a.bottom as int, b.bottom as int)
}

/// The common region of two rectangles (meaningful when they overlap).
pub open spec fn rect_intersection(a: Rect, b: Rect) -> Rect {
    Rect {
        left: max_i(a.left as int, b.left as int) as i32,
        top: max_i(a.top as int, b.top as int) as i32,
        right: min_i(a.right as int, b.right as int) as i32,
        bottom: min_i(a.bottom as int, b.bottom as int) as i32,
    }
}

pub open spec fn min_i(a: int, b: int) -> int {
    if a < b { a } else { b }
}

pub open spec fn max_i(a: int, b: int) -> int {
    if a > b { a } else { b }
}

impl Rect {
    /// Builds a rectangle from its four edges.
    pub fn make_ltrb(l: i32, t: i32, r: i32, b: i32) -> (out: Rect)
        ensures
            out == (Rect { left: l, top: t, right: r, bottom: b }),
    {
        Rect { left: l, top: t, right: r, bottom: b }
    }

    /// Builds a rectangle from its top-left corner and its size.
    pub fn make_xywh(x: i32, y: i32, w: i32, h: i32) -> (out: Rect)
        requires
            i32::MIN <= x + w <= i32::MAX,
            i32::MIN <= y + h <= i32::MAX,
        ensures
            out == (Rect { left: x, top: y, right: (x + w) as i32, bottom: (y + h) as i32 }),
    {
        Rect { left: x, top: y, right: x + w, bottom: y + h }
    }

    /// Builds a rectangle anchored at the origin with the given size.
    pub fn make_wh(w: i32, h: i32) -> (out: Rect)
        ensures
            out == (Rect { left: 0i32, top: 0i32, right: w, bottom: h }),
    {
        Rect { left: 0, top: 0, right: w, bottom: h }
    }

    pub fn left(&self) -> (v: i32)
        ensures v == self.left,
    {
        self.left
    }

    pub fn top(&self) -> (v: i32)
        ensures v == self.top,
    {
        self.top
    }

    pub fn right(&self) -> (v: i32)
        ensures v == self.right,
    {
        self.right
    }

    pub fn bottom(&self) -> (v: i32)
        ensures v == self.bottom,
    {
        self.bottom
    }

    pub fn x(&self) -> (v: i32)
        ensures v == self.left,
    {
        self.left()
    }

    pub fn y(&self) -> (v: i32)
        ensures v == self.top,
    {
        self.top()
    }

    pub fn width(&self) -> (v: i32)
        requires
            i32::MIN <= self.right - self.left <= i32::MAX,
        ensures
            v == self.right - self.left,
    {
        self.right - self.left
    }

    pub fn height(&self) -> (v: i32)
        requires
            i32::MIN <= self.bottom - self.top <= i32::MAX,
        ensures
            v == self.bottom - self.top,
    {
        self.bottom - self.top
    }

    /// Whether the rectangle covers no area.
    pub fn empty(&self) -> (e: bool)
        ensures
            e == rect_empty(*self),
    {
        self.left >= self.right || self.top >= self.bottom
    }

    /// Floors all four edges to whole pixel boundaries.
    pub fn round(&self) -> (out: Rect)
        ensures
            out == round_spec(*self),
    {
        let l = (floor_div(self.left as i64, 0x10000) * 0x10000) as i32;
        let t = (floor_div(self.top as i64, 0x10000) * 0x10000) as i32;
        let r = (floor_div(self.right as i64, 0x10000) * 0x10000) as i32;
        let b = (floor_div(self.bottom as i64, 0x10000) * 0x10000) as i32;
        Rect::make_ltrb(l, t, r, b)
    }

    /// Shifts the rectangle by the given 16.16 offsets.
    pub fn offset(&mut self, dx: i32, dy: i32)
        requires
            i32::MIN <= old(self).left + dx <= i32::MAX,
            i32::MIN <= old(self).right + dx <= i32::MAX,
            i32::MIN <= old(self).top + dy <= i32::MAX,
            i32::MIN <= old(self).bottom + dy <= i32::MAX,
        ensures
            final(self).left == old(self).left + dx,
            final(self).top == old(self).top + dy,
            final(self).right == old(self).right + dx,
            final(self).bottom == old(self).bottom + dy,
    {
        self.left = self.left + dx;
        self.top = self.top + dy;
        self.right = self.right + dx;
        self.bottom = self.bottom + dy;
    }

    /// Whether this rectangle overlaps another in a region of positive area.
    pub fn intersects(&self, other: &Rect) -> (r: bool)
        ensures
            r == rect_overlaps(*self, *other),
    {
        let l = if self.left > other.left { self.left } else { other.left };
        let t = if self.top > other.top { self.top } else { other.top };
        let r = if self.right < other.right { self.right } else { other.right };
        let b = if self.bottom < other.bottom { self.bottom } else { other.bottom };
        l < r && t < b
    }

    /// Clips this rectangle against another in place. Returns false and
    /// leaves the rectangle unchanged when the intersection is empty.
    pub fn intersect(&mut self, other: &Rect) -> (r: bool)
        ensures
            r == rect_overlaps(*old(self), *other),
            r ==> *final(self) == rect_intersection(*old(self), *other),
            !r ==> *final(self) == *old(self),
    {
        let l = if self.left > other.left { self.left } else { other.left };
        let t = if self.top > other.top { self.top } else { other.top };
        let r = if self.right < other.right { self.right } else { other.right };
        let b = if self.bottom < other.bottom { self.bottom } else { other.bottom };

        if l < r && t < b {
            self.left = l;
            self.top = t;
            self.right = r;
            self.bottom = b;
            true
        } else {
            false
        }
    }
}

} // verus!
