use vstd::prelude::*;

verus! {

/// A colour with no alpha. The comparison only ever lays ink on paper.
#[derive(Clone, Copy, PartialEq, Eq, Debug, Structural)]
pub struct Rgb {
    pub r: u8,
    pub g: u8,
    pub b: u8,
}

impl Rgb {
    pub fn new(r: u8, g: u8, b: u8) -> (c: Self)
        ensures
            c == (Rgb { r, g, b }),
    {
        Rgb { r, g, b }
    }

    /// The channels in the order the output buffer is written: blue, green, red.
    pub open spec fn spec_bgr(self) -> Seq<u8> {
        seq![self.b, self.g, self.r]
    }

    /// The channel order the output buffer is written in.
    pub fn bgr(self) -> (out: [u8; 3])
        ensures
            out@ == self.spec_bgr(),
    {
        [self.b, self.g, self.r]
    }
}

#[derive(Clone, Copy, PartialEq, Eq, Debug, Default, Structural)]
pub struct Point {
    pub x: i32,
    pub y: i32,
}

impl Point {
    pub fn new(x: i32, y: i32) -> (p: Self)
        ensures
            p == (Point { x, y }),
    {
        Point { x, y }
    }
}


#[derive(Clone, Copy, PartialEq, Eq, Debug, Default, Structural)]
pub struct Size {
    pub dx: i32,
    pub dy: i32,
}

impl Size {
    pub fn new(dx: i32, dy: i32) -> (s: Self)
        ensures
            s == (Size { dx, dy }),
    {
        Size { dx, dy }
    }
}

/// A rectangle of device pixels: origin and extent.
#[derive(Clone, Copy, PartialEq, Eq, Debug, Default, Structural)]
pub struct Rect {
    pub x: i32,
    pub y: i32,
    pub dx: i32,
    pub dy: i32,
}

impl Rect {
    pub fn new(x: i32, y: i32, dx: i32, dy: i32) -> (r: Self)
        ensures
            r == (Rect { x, y, dx, dy }),
    {
        Rect { x, y, dx, dy }
    }

    /// Whether `p` lies in the rectangle, which is half-open on both axes.
    pub open spec fn spec_contains(self, p: Point) -> bool {
        &&& self.x <= p.x < self.x + self.dx
        &&& self.y <= p.y < self.y + self.dy
    }

    /// Half-open on both axes, so abutting rectangles do not both claim the
    /// pixel on their shared edge.
    pub fn contains(&self, p: Point) -> (b: bool)
        ensures
            b == self.spec_contains(p),
    {
        let x = p.x as i64;
        let y = p.y as i64;
        x >= self.x as i64 && x < self.x as i64 + self.dx as i64 && y >= self.y as i64 && y
            < self.y as i64 + self.dy as i64
    }
}

/// A rectangle on the page, in thousandths of a point: origin and extent.
///
/// Page space is where ignored regions, change boxes and words live, so that
/// they survive zoom and one rectangle covers the same place on every sheet.
#[derive(Clone, Copy, PartialEq, Eq, Debug, Default, Structural)]
pub struct PageRect {
    pub x: i32,
    pub y: i32,
    pub dx: i32,
    pub dy: i32,
}

impl PageRect {
    pub fn new(x: i32, y: i32, dx: i32, dy: i32) -> (r: Self)
        ensures
            r == (PageRect { x, y, dx, dy }),
    {
        PageRect { x, y, dx, dy }
    }

    /// Whether `other` lies wholly inside this rectangle, edges included.
    pub open spec fn spec_contains_rect(self, other: PageRect) -> bool {
        &&& self.x <= other.x
        &&& self.y <= other.y
        &&& other.x + other.dx <= self.x + self.dx
        &&& other.y + other.dy <= self.y + self.dy
    }

    /// Whether `other` lies wholly inside this rectangle, edges included.
    pub fn contains_rect(&self, other: &PageRect) -> (b: bool)
        ensures
            b == self.spec_contains_rect(*other),
    {
        self.x <= other.x && self.y <= other.y && other.x as i64 + other.dx as i64 <= self.x as i64
            + self.dx as i64 && other.y as i64 + other.dy as i64 <= self.y as i64 + self.dy as i64
    }
}

} // verus!
