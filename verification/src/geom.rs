//! Integer 2D geometry: positions, extents and rectangles, with the
//! clamping/intersection arithmetic the rasterizer is built on.

use vstd::prelude::*;

verus! {

/// A 2D position with signed integer coordinates.
#[derive(Clone, Copy, PartialEq, Eq, Structural, Debug)]
pub struct Offset {
    pub x: i32,
    pub y: i32,
}

/// A 2D extent; non-negative by construction.
#[derive(Clone, Copy, PartialEq, Eq, Structural, Debug)]
pub struct Size {
    pub w: u32,
    pub h: u32,
}

/// A rectangle: top-left corner `(x, y)` plus extent `(w, h)`.
#[derive(Clone, Copy, PartialEq, Eq, Structural, Debug)]
pub struct Rect {
    pub x: i32,
    pub y: i32,
    pub w: u32,
    pub h: u32,
}

impl Offset {
    pub fn new(x: i32, y: i32) -> (r: Self)
        ensures
            r == (Offset { x, y }),
    {
        Offset { x, y }
    }

    /// Component-wise absolute difference, as an extent.
    pub fn abs_diff(&self, rhs: Self) -> (r: Size)
        ensures
            r.w == abs_i32(self.x - rhs.x),
            r.h == abs_i32(self.y - rhs.y),
    {
        let dx: i64 = self.x as i64 - rhs.x as i64;
        let dy: i64 = self.y as i64 - rhs.y as i64;
        Size {
            w: (if dx >= 0 { dx } else { -dx }) as u32,
            h: (if dy >= 0 { dy } else { -dy }) as u32,
        }
    }

    /// Component-wise maximum.
    pub fn max(&self, rhs: Self) -> (r: Self)
        ensures
            r.x == max_i32(self.x as int, rhs.x as int),
            r.y == max_i32(self.y as int, rhs.y as int),
    {
        Offset {
            x: if self.x >= rhs.x { self.x } else { rhs.x },
            y: if self.y >= rhs.y { self.y } else { rhs.y },
        }
    }

    /// Component-wise minimum.
    pub fn min(&self, rhs: Self) -> (r: Self)
        ensures
            r.x == min_i32(self.x as int, rhs.x as int),
            r.y == min_i32(self.y as int, rhs.y as int),
    {
        Offset {
            x: if self.x <= rhs.x { self.x } else { rhs.x },
            y: if self.y <= rhs.y { self.y } else { rhs.y },
        }
    }

    /// Component-wise sum of two positions.
    pub fn plus(&self, rhs: Self) -> (r: Self)
        requires
            i32::MIN <= self.x + rhs.x <= i32::MAX,
            i32::MIN <= self.y + rhs.y <= i32::MAX,
        ensures
            r.x == self.x + rhs.x,
            r.y == self.y + rhs.y,
    {
        Offset { x: self.x + rhs.x, y: self.y + rhs.y }
    }

    /// Component-wise difference of two positions.
    pub fn minus(&self, rhs: Self) -> (r: Self)
        requires
            i32::MIN <= self.x - rhs.x <= i32::MAX,
            i32::MIN <= self.y - rhs.y <= i32::MAX,
        ensures
            r.x == self.x - rhs.x,
            r.y == self.y - rhs.y,
    {
        Offset { x: self.x - rhs.x, y: self.y - rhs.y }
    }

    /// Translates a position by an extent.
    pub fn plus_size(&self, rhs: Size) -> (r: Self)
        requires
            self.x + rhs.w <= i32::MAX,
            self.y + rhs.h <= i32::MAX,
        ensures
            r.x == self.x + rhs.w,
            r.y == self.y + rhs.h,
    {
        Offset {
            x: (self.x as i64 + rhs.w as i64) as i32,
            y: (self.y as i64 + rhs.h as i64) as i32,
        }
    }

    /// Negates both coordinates.
    pub fn neg(&self) -> (r: Self)
        requires
            self.x > i32::MIN,
            self.y > i32::MIN,
        ensures
            r.x == -self.x,
            r.y == -self.y,
    {
        Offset { x: -self.x, y: -self.y }
    }
}

impl Default for Offset {
    fn default() -> (r: Self)
        ensures
            r == (Offset { x: 0, y: 0 }),
    {
        Offset { x: 0, y: 0 }
    }
}

impl Size {
    pub fn new(w: u32, h: u32) -> (r: Self)
        ensures
            r == (Size { w, h }),
    {
        Size { w, h }
    }
}

impl Default for Size {
    fn default() -> (r: Self)
        ensures
            r == (Size { w: 0, h: 0 }),
    {
        Size { w: 0, h: 0 }
    }
}

/// Absolute value of a (mathematical) integer.
pub open spec fn abs_i32(v: int) -> int {
    if v >= 0 {
        v
    } else {
        -v
    }
}

/// Maximum of two (mathematical) integers.
pub open spec fn max_i32(a: int, b: int) -> int {
    if a >= b {
        a
    } else {
        b
    }
}

/// Minimum of two (mathematical) integers.
pub open spec fn min_i32(a: int, b: int) -> int {
    if a <= b {
        a
    } else {
        b
    }
}

impl Rect {
    /// Both corners of the rectangle stay inside the `i32` range.
    pub open spec fn wf(self) -> bool {
        self.x + self.w <= i32::MAX && self.y + self.h <= i32::MAX
    }

    pub fn new(offs: Offset, size: Size) -> (r: Self)
        ensures
            r == (Rect { x: offs.x, y: offs.y, w: size.w, h: size.h }),
    {
        Rect { x: offs.x, y: offs.y, w: size.w, h: size.h }
    }

    /// Builds a rectangle at the origin from an extent alone.
    pub fn of_size(size: Size) -> (r: Self)
        ensures
            r == (Rect { x: 0, y: 0, w: size.w, h: size.h }),
    {
        Rect { x: 0, y: 0, w: size.w, h: size.h }
    }

    pub fn size(&self) -> (s: Size)
        ensures
            s == (Size { w: self.w, h: self.h }),
    {
        Size { w: self.w, h: self.h }
    }

    pub fn offset(&self) -> (o: Offset)
        ensures
            o == (Offset { x: self.x, y: self.y }),
    {
        Offset { x: self.x, y: self.y }
    }

    /// Returns the corner opposite [`Self::offset`] (exclusive).
    pub fn offset_2(&self) -> (o: Offset)
        requires
            self.wf(),
        ensures
            o.x == self.x + self.w,
            o.y == self.y + self.h,
    {
        Offset {
            x: (self.x as i64 + self.w as i64) as i32,
            y: (self.y as i64 + self.h as i64) as i32,
        }
    }

    /// Translates the rectangle, keeping its extent.
    pub fn translate(&self, rhs: Offset) -> (r: Self)
        requires
            i32::MIN <= self.x + rhs.x <= i32::MAX,
            i32::MIN <= self.y + rhs.y <= i32::MAX,
        ensures
            r == (Rect { x: (self.x + rhs.x) as i32, y: (self.y + rhs.y) as i32, w: self.w, h: self.h }),
    {
        Rect { x: self.x + rhs.x, y: self.y + rhs.y, w: self.w, h: self.h }
    }

    /// Clamps `self` to fit inside `other`. If the two do not overlap,
    /// returns `other`'s corner with zero extent.
    pub fn clamp(&self, other: Self) -> (r: Rect)
        requires
            self.wf(),
            other.wf(),
        ensures
            r == rect_clamp(*self, other),
    {
        let self_end = self.offset_2();
        let other_end = other.offset_2();
        if self.x >= other_end.x || self.y >= other_end.y || self_end.x <= other.x
            || self_end.y <= other.y {
            return Rect { x: other.x, y: other.y, w: 0, h: 0 };
        }
        let end = self_end.min(other_end);
        let offs = self.offset().max(other.offset());
        let size = end.abs_diff(offs);
        Rect { x: offs.x, y: offs.y, w: size.w, h: size.h }
    }
}

impl Default for Rect {
    fn default() -> (r: Self)
        ensures
            r == (Rect { x: 0, y: 0, w: 0, h: 0 }),
    {
        Rect { x: 0, y: 0, w: 0, h: 0 }
    }
}

/// Whether the two rectangles share no pixel.
pub open spec fn rect_disjoint(a: Rect, b: Rect) -> bool {
    a.x >= b.x + b.w || a.y >= b.y + b.h || a.x + a.w <= b.x || a.y + a.h <= b.y
}

/// The result of clamping `a` to fit inside `b`: their intersection, or
/// `b`'s corner with zero extent when they are disjoint.
pub open spec fn rect_clamp(a: Rect, b: Rect) -> Rect {
    if rect_disjoint(a, b) {
        Rect { x: b.x, y: b.y, w: 0, h: 0 }
    } else {
        let x = max_i32(a.x as int, b.x as int);
        let y = max_i32(a.y as int, b.y as int);
        let x2 = min_i32(a.x + a.w, b.x + b.w);
        let y2 = min_i32(a.y + a.h, b.y + b.h);
        Rect { x: x as i32, y: y as i32, w: (x2 - x) as u32, h: (y2 - y) as u32 }
    }
}

/// Clamping a rectangle of positive extent to itself gives it back
/// unchanged. (A rectangle with exactly one zero side is counted as
/// disjoint from itself and degenerates instead.)
pub proof fn lemma_clamp_self(r: Rect)
    requires
        r.wf(),
        r.w > 0,
        r.h > 0,
    ensures
        rect_clamp(r, r) == r,
{
}

/// Clamping to a disjoint rectangle yields a zero extent.
pub proof fn lemma_clamp_disjoint(a: Rect, b: Rect)
    requires
        rect_disjoint(a, b),
    ensures
        rect_clamp(a, b).w == 0,
        rect_clamp(a, b).h == 0,
{
}

/// When the rectangles overlap, the clamped rectangle also lies inside
/// `a` itself.
pub proof fn lemma_clamp_within_first(a: Rect, b: Rect)
    requires
        a.wf(),
        b.wf(),
        !rect_disjoint(a, b),
    ensures
        a.x <= rect_clamp(a, b).x,
        a.y <= rect_clamp(a, b).y,
        rect_clamp(a, b).x + rect_clamp(a, b).w <= a.x + a.w,
        rect_clamp(a, b).y + rect_clamp(a, b).h <= a.y + a.h,
{
}

/// The clamped rectangle always lies inside `b`.
pub proof fn lemma_clamp_within(a: Rect, b: Rect)
    requires
        a.wf(),
        b.wf(),
    ensures
        rect_clamp(a, b).wf(),
        b.x <= rect_clamp(a, b).x,
        b.y <= rect_clamp(a, b).y,
        rect_clamp(a, b).x + rect_clamp(a, b).w <= b.x + b.w,
        rect_clamp(a, b).y + rect_clamp(a, b).h <= b.y + b.h,
{
}

} // verus!
