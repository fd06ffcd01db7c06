//! Screen points and rectangles, and the mouse position packed in a
//! window message.

use vstd::prelude::*;

verus! {

/// A point in pixels.
#[derive(Clone, Copy, PartialEq, Eq, Structural, Debug)]
pub struct Point {
    pub x: i32,
    pub y: i32,
}

/// A rectangle in pixels: `left..right` by `top..bottom` (right and bottom
/// excluded).
#[derive(Clone, Copy, PartialEq, Eq, Structural, Debug)]
pub struct Rect {
    pub left: i32,
    pub top: i32,
    pub right: i32,
    pub bottom: i32,
}

impl Rect {
    /// Whether the rectangle covers at least one pixel.
    pub open spec fn is_nonempty(self) -> bool {
        self.right > self.left && self.bottom > self.top
    }

    /// Whether `p` lies inside the rectangle.
    pub open spec fn holds(self, p: Point) -> bool {
        self.left <= p.x < self.right && self.top <= p.y < self.bottom
    }

    /// Whether `other` lies within the bounds of this rectangle.
    pub open spec fn encloses(self, other: Rect) -> bool {
        self.left <= other.left && self.top <= other.top && other.right <= self.right
            && other.bottom <= self.bottom
    }

    /// The empty rectangle at the origin.
    pub fn zero() -> (r: Rect)
        ensures
            r == (Rect { left: 0, top: 0, right: 0, bottom: 0 }),
    {
        Rect { left: 0, top: 0, right: 0, bottom: 0 }
    }

    /// Whether the rectangle covers at least one pixel.
    pub fn has_area(&self) -> (r: bool)
        ensures
            r == self.is_nonempty(),
    {
        self.right > self.left && self.bottom > self.top
    }

    /// The rectangle in coordinates whose origin is at `origin`.
    pub fn relative_to(&self, origin: Point) -> (r: Rect)
        requires
            i32::MIN <= self.left - origin.x <= i32::MAX,
            i32::MIN <= self.top - origin.y <= i32::MAX,
            i32::MIN <= self.right - origin.x <= i32::MAX,
            i32::MIN <= self.bottom - origin.y <= i32::MAX,
        ensures
            r.left == self.left - origin.x,
            r.top == self.top - origin.y,
            r.right == self.right - origin.x,
            r.bottom == self.bottom - origin.y,
    {
        Rect {
            left: self.left - origin.x,
            top: self.top - origin.y,
            right: self.right - origin.x,
            bottom: self.bottom - origin.y,
        }
    }

    /// Whether `p` lies inside the rectangle.
    pub fn contains(&self, p: Point) -> (r: bool)
        ensures
            r == self.holds(p),
    {
        p.x >= self.left && p.x < self.right && p.y >= self.top && p.y < self.bottom
    }
}

pub open spec fn min_i32(a: i32, b: i32) -> i32 {
    if a <= b {
        a
    } else {
        b
    }
}

pub open spec fn max_i32(a: i32, b: i32) -> i32 {
    if a >= b {
        a
    } else {
        b
    }
}

/// The bounding box of two rectangles.
pub open spec fn bounding_box(a: Rect, b: Rect) -> Rect {
    Rect {
        left: min_i32(a.left, b.left),
        top: min_i32(a.top, b.top),
        right: max_i32(a.right, b.right),
        bottom: max_i32(a.bottom, b.bottom),
    }
}

/// The rectangle with corners `a` and `b`, whichever way they lie.
pub open spec fn span(a: Point, b: Point) -> Rect {
    Rect {
        left: min_i32(a.x, b.x),
        top: min_i32(a.y, b.y),
        right: max_i32(a.x, b.x),
        bottom: max_i32(a.y, b.y),
    }
}

/// The bounding box of two rectangles: the smallest rectangle that
/// encloses both.
pub fn union_rect(a: &Rect, b: &Rect) -> (r: Rect)
    ensures
        r == bounding_box(*a, *b),
{
    Rect {
        left: if a.left <= b.left {
            a.left
        } else {
            b.left
        },
        top: if a.top <= b.top {
            a.top
        } else {
            b.top
        },
        right: if a.right >= b.right {
            a.right
        } else {
            b.right
        },
        bottom: if a.bottom >= b.bottom {
            a.bottom
        } else {
            b.bottom
        },
    }
}

/// The rectangle with corners `a` and `b`.
pub fn span_rect(a: Point, b: Point) -> (r: Rect)
    ensures
        r == span(a, b),
{
    Rect {
        left: if a.x <= b.x {
            a.x
        } else {
            b.x
        },
        top: if a.y <= b.y {
            a.y
        } else {
            b.y
        },
        right: if a.x >= b.x {
            a.x
        } else {
            b.x
        },
        bottom: if a.y >= b.y {
            a.y
        } else {
            b.y
        },
    }
}

/// The low 16 bits of `v`, read as a signed 16-bit number.
pub open spec fn signed_low_word(v: int) -> int {
    let w = v % 0x10000;
    if w >= 0x8000 {
        w - 0x10000
    } else {
        w
    }
}

/// The signed 16-bit number in bits `0..16` of `v`.
fn low_word_signed(v: isize) -> (r: i32)
    ensures
        r == signed_low_word(v as int),
{
    let w = v & 0xFFFF;
    assert(0 <= w < 0x10000 && w == v % 0x10000) by (bit_vector)
        requires
            w == v & 0xFFFF,
    ;
    let s = w as i16 as i32;
    assert(s == if w >= 0x8000 {
        w - 0x10000
    } else {
        w as int
    }) by (bit_vector)
        requires
            0 <= w < 0x10000,
            s == w as i16 as i32,
    ;
    s
}

/// The mouse position packed in the `LPARAM` of a mouse message: x in the
/// low 16 bits, y in the next 16, each a signed 16-bit number.
pub fn point_from_lparam(lparam: isize) -> (r: Point)
    ensures
        r.x == signed_low_word(lparam as int),
        r.y == signed_low_word((lparam as int) / 0x10000),
{
    let hi = lparam >> 16;
    assert(hi == (lparam as int) / 0x10000) by (bit_vector)
        requires
            hi == lparam >> 16,
    ;
    Point { x: low_word_signed(lparam), y: low_word_signed(hi) }
}

/// The bounding box encloses both rectangles, and no smaller rectangle
/// does: each of its sides is a side of one of them.
pub proof fn lemma_union_encloses(a: Rect, b: Rect)
    ensures
        bounding_box(a, b).encloses(a),
        bounding_box(a, b).encloses(b),
        forall|c: Rect| c.encloses(a) && c.encloses(b) ==> c.encloses(#[trigger] bounding_box(a, b)),
{
}

} // verus!
