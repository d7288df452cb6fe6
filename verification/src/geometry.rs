use vstd::prelude::*;

verus! {

/// Represents an x-y coordinate.
#[derive(Debug, Clone, Copy, PartialEq, Eq, Structural)]
pub struct Point {
    pub x: i32,
    pub y: i32,
}

/// An axis-aligned rectangle given by its edges.
#[derive(PartialEq, Eq, Structural, Clone, Copy, Debug)]
pub struct Rect {
    pub left: i32,
    pub top: i32,
    pub right: i32,
    pub bottom: i32,
}

/// The length of the overlap of `[a0, a1)` and `[b0, b1)`, or 0.
pub open spec fn overlap_len(a0: int, a1: int, b0: int, b1: int) -> int {
    let lo = if a0 > b0 {
        a0
    } else {
        b0
    };
    let hi = if a1 < b1 {
        a1
    } else {
        b1
    };
    if hi > lo {
        hi - lo
    } else {
        0
    }
}

impl Rect {
    /// The rectangle with the given top-left corner and size.
    pub fn from_xy(x: i32, y: i32, width: i32, height: i32) -> (r: Rect)
        requires
            i32::MIN <= x + width <= i32::MAX,
            i32::MIN <= y + height <= i32::MAX,
    ensures
            r.left == x,
            r.top == y,
            r.right == x + width,
            r.bottom == y + height,
    {
        Rect { left: x, top: y, right: x + width, bottom: y + height }
    }

    /// The x-coordinate of the left edge.
    pub fn x(&self) -> (r: i32)
        ensures
            r == self.left,
    {
        self.left
    }

    /// The y-coordinate of the top edge.
    pub fn y(&self) -> (r: i32)
        ensures
            r == self.top,
    {
        self.top
    }

    /// The area that this rectangle and `other` share.
    pub open spec fn spec_intersection_area(&self, other: &Rect) -> int {
        overlap_len(self.left as int, self.right as int, other.left as int, other.right as int)
            * overlap_len(self.top as int, self.bottom as int, other.top as int, other.bottom as int)
    }

    /// The area that this rectangle and `other` share.
    pub fn intersection_area(&self, other: &Rect) -> (r: u64)
        ensures
            r == self.spec_intersection_area(other),
    {
        let w = overlap(self.left, self.right, other.left, other.right);
        let h = overlap(self.top, self.bottom, other.top, other.bottom);
        assert(w * h <= u32::MAX * u32::MAX) by (nonlinear_arith)
            requires
                w <= u32::MAX,
                h <= u32::MAX,
        ;
        w * h
    }
}

fn overlap(a0: i32, a1: i32, b0: i32, b1: i32) -> (r: u64)
    ensures
        r == overlap_len(a0 as int, a1 as int, b0 as int, b1 as int),
        r <= u32::MAX,
{
    let lo: i64 = if a0 > b0 {
        a0 as i64
    } else {
        b0 as i64
    };
    let hi: i64 = if a1 < b1 {
        a1 as i64
    } else {
        b1 as i64
    };
    if hi > lo {
        (hi - lo) as u64
    } else {
        0
    }
}

} // verus!
