use vstd::prelude::*;

verus! {

/// An integer point in pixel coordinates.
#[derive(Clone, Copy, Debug, PartialEq, Eq, Structural)]
pub struct Point {
    pub x: i32,
    pub y: i32,
}

/// An axis-aligned rectangle in pixel coordinates: top-left corner and size.
#[derive(Clone, Copy, Debug, PartialEq, Eq, Structural)]
pub struct Rect {
    pub x: i32,
    pub y: i32,
    pub width: i32,
    pub height: i32,
}

/// Integer division by two that rounds toward zero, as `/` does on Rust integers.
pub open spec fn half_toward_zero(v: int) -> int {
    if v >= 0 {
        v / 2
    } else {
        -((-v) / 2)
    }
}

impl Rect {
    /// The area `width * height`, as a mathematical integer.
    pub open spec fn spec_area(self) -> int {
        self.width * self.height
    }

    /// The x coordinate of the center: `x + width / 2` (division toward zero).
    pub open spec fn center_x(self) -> int {
        self.x + half_toward_zero(self.width as int)
    }

    /// The y coordinate of the center: `y + height / 2` (division toward zero).
    pub open spec fn center_y(self) -> int {
        self.y + half_toward_zero(self.height as int)
    }

    pub fn new(x: i32, y: i32, width: i32, height: i32) -> (r: Rect)
        ensures
            r == (Rect { x, y, width, height }),
    {
        Rect { x, y, width, height }
    }

    /// The rectangle at the origin with no extent.
    pub fn empty() -> (r: Rect)
        ensures
            r == (Rect { x: 0, y: 0, width: 0, height: 0 }),
    {
        Rect { x: 0, y: 0, width: 0, height: 0 }
    }

    /// The exact area `width * height`; it always fits in an `i64`.
    pub fn area(&self) -> (a: i64)
        ensures
            a == self.spec_area(),
    {
        let w: i64 = self.width as i64;
        let h: i64 = self.height as i64;
        assert(-2147483648 <= w <= 2147483647 && -2147483648 <= h <= 2147483647);
        assert(w * h <= 4611686018427387904 && w * h >= -4611686018427387904) by (nonlinear_arith)
            requires
                -2147483648 <= w <= 2147483647,
                -2147483648 <= h <= 2147483647,
        ;
        w * h
    }

    /// The center of the rectangle, with the halves of width and height
    /// rounded toward zero.
    pub fn center(&self) -> (p: Point)
        requires
            i32::MIN <= self.center_x() <= i32::MAX,
            i32::MIN <= self.center_y() <= i32::MAX,
        ensures
            p.x == self.center_x(),
            p.y == self.center_y(),
    {
        Point { x: self.x + self.width / 2, y: self.y + self.height / 2 }
    }
}

/// A rectangle lying within a frame of width `frame_width` has its center's
/// x coordinate within the frame: not left of it, and strictly left of its
/// right edge when the rectangle has a width.
pub proof fn lemma_center_within_frame(r: Rect, frame_width: int)
    requires
        0 <= r.x,
        0 <= r.width,
        r.x + r.width <= frame_width,
    ensures
        0 <= r.center_x() <= frame_width,
        r.width > 0 ==> r.center_x() < frame_width,
{
}

/// The center lies halfway along each side, rounded toward the corner: twice
/// its offset from the corner is the side length or one less (for a negative
/// length, the same toward the other side).
pub proof fn lemma_center_is_halfway(r: Rect)
    ensures
        r.width >= 0 ==> r.x <= r.center_x() && 2 * (r.center_x() - r.x) <= r.width < 2 * (
        r.center_x() - r.x) + 2,
        r.width < 0 ==> r.center_x() <= r.x && 2 * (r.x - r.center_x()) <= -r.width < 2 * (r.x
            - r.center_x()) + 2,
        r.height >= 0 ==> r.y <= r.center_y() && 2 * (r.center_y() - r.y) <= r.height < 2 * (
        r.center_y() - r.y) + 2,
        r.height < 0 ==> r.center_y() <= r.y && 2 * (r.y - r.center_y()) <= -r.height < 2 * (r.y
            - r.center_y()) + 2,
{
}

/// The area is the product of the sides: a unit square has area one, and
/// the area adds up when a rectangle is split along its width or its height.
pub proof fn lemma_area_is_product(a: Rect, w1: i32, w2: i32, h1: i32, h2: i32)
    ensures
        (Rect { x: a.x, y: a.y, width: 1, height: 1 }).spec_area() == 1,
        (Rect { x: a.x, y: a.y, width: 0, height: a.height }).spec_area() == 0,
        w1 + w2 == a.width ==> a.spec_area() == (Rect { width: w1, ..a }).spec_area() + (Rect {
            width: w2,
            ..a
        }).spec_area(),
        h1 + h2 == a.height ==> a.spec_area() == (Rect { height: h1, ..a }).spec_area() + (Rect {
            height: h2,
            ..a
        }).spec_area(),
{
    assert(w1 + w2 == a.width ==> a.width * a.height == w1 * a.height + w2 * a.height)
        by (nonlinear_arith);
    assert(h1 + h2 == a.height ==> a.width * a.height == a.width * h1 + a.width * h2)
        by (nonlinear_arith);
}

} // verus!
