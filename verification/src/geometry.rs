//! Positions, sizes, rectangles and colours, in whole device units.
//!
//! Coordinates are `i64`. Sums and differences saturate at the ends of the
//! range instead of wrapping.

use vstd::prelude::*;

verus! {

/// A point in device units.
#[derive(Clone, Copy, Debug, PartialEq, Eq, Structural)]
pub struct Point {
    pub x: i64,
    pub y: i64,
}

/// A width and a height in device units. Neither is clamped: both may be negative.
#[derive(Clone, Copy, Debug, PartialEq, Eq, Structural)]
pub struct Size {
    pub width: i64,
    pub height: i64,
}

/// A rectangle given by its top-left corner and its size.
#[derive(Clone, Copy, Debug, PartialEq, Eq, Structural)]
pub struct Rect {
    pub origin: Point,
    pub size: Size,
}

/// A colour with four 8-bit channels.
#[derive(Clone, Copy, Debug, PartialEq, Eq, Structural)]
pub struct Color {
    pub r: u8,
    pub g: u8,
    pub b: u8,
    pub a: u8,
}

/// Space kept free on the four sides of a rectangle.
#[derive(Clone, Copy, Debug, PartialEq, Eq, Structural)]
pub struct Thickness {
    pub left: i64,
    pub top: i64,
    pub right: i64,
    pub bottom: i64,
}

/// The value of `v` brought into the range of `i64`.
pub open spec fn sat(v: int) -> i64 {
    if v > i64::MAX {
        i64::MAX
    } else if v < i64::MIN {
        i64::MIN
    } else {
        v as i64
    }
}

/// The size whose width and height are zero.
pub open spec fn zero_size() -> Size {
    Size { width: 0, height: 0 }
}

/// The rectangle at the origin whose size is zero.
pub open spec fn zero_rect() -> Rect {
    Rect { origin: Point { x: 0, y: 0 }, size: zero_size() }
}

/// The colour whose four channels are zero.
pub open spec fn zero_color() -> Color {
    Color { r: 0, g: 0, b: 0, a: 0 }
}

/// The rectangle at `(x, y)` with the given width and height.
pub open spec fn rect_at(x: i64, y: i64, width: i64, height: i64) -> Rect {
    Rect { origin: Point { x, y }, size: Size { width, height } }
}

/// `a + b`, saturating.
pub fn sat_add(a: i64, b: i64) -> (r: i64)
    ensures
        r == sat(a + b),
{
    if b >= 0 {
        if a > i64::MAX - b {
            i64::MAX
        } else {
            a + b
        }
    } else {
        if a < i64::MIN - b {
            i64::MIN
        } else {
            a + b
        }
    }
}

/// `a - b`, saturating.
pub fn sat_sub(a: i64, b: i64) -> (r: i64)
    ensures
        r == sat(a - b),
{
    if b >= 0 {
        if a < i64::MIN + b {
            i64::MIN
        } else {
            a - b
        }
    } else {
        if a > i64::MAX + b {
            i64::MAX
        } else {
            a - b
        }
    }
}

impl Size {
    /// A size of the given width and height.
    pub fn new(width: i64, height: i64) -> (s: Size)
        ensures
            s == (Size { width, height }),
    {
        Size { width, height }
    }

    /// The zero size.
    pub fn zero() -> (s: Size)
        ensures
            s == zero_size(),
    {
        Size { width: 0, height: 0 }
    }
}

impl Rect {
    /// The rectangle at `(x, y)` with the given width and height.
    pub fn new(x: i64, y: i64, width: i64, height: i64) -> (r: Rect)
        ensures
            r == rect_at(x, y, width, height),
    {
        Rect { origin: Point { x, y }, size: Size { width, height } }
    }

    /// The zero rectangle.
    pub fn zero() -> (r: Rect)
        ensures
            r == zero_rect(),
    {
        Rect { origin: Point { x: 0, y: 0 }, size: Size { width: 0, height: 0 } }
    }
}

impl Color {
    /// The colour with all channels zero.
    pub fn zero() -> (c: Color)
        ensures
            c == zero_color(),
    {
        Color { r: 0, g: 0, b: 0, a: 0 }
    }
}

} // verus!
