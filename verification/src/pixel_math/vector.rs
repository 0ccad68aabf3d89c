//! Integer points and offsets, and their mathematical model.

use vstd::prelude::*;

verus! {

/// A pair of mathematical integers. It models a pixel address as well as
/// the offset between two pixels.
pub struct Coord {
    pub x: int,
    pub y: int,
}

impl Coord {
    /// Component-wise sum.
    pub open spec fn plus(self, other: Coord) -> Coord {
        Coord { x: self.x + other.x, y: self.y + other.y }
    }

    /// Component-wise difference.
    pub open spec fn minus(self, other: Coord) -> Coord {
        Coord { x: self.x - other.x, y: self.y - other.y }
    }

    /// The components exchanged: the mirror image in the diagonal `x == y`.
    pub open spec fn yx(self) -> Coord {
        Coord { x: self.y, y: self.x }
    }

    /// A quarter turn counter-clockwise.
    pub open spec fn rotate_90(self) -> Coord {
        Coord { x: -self.y, y: self.x }
    }

    /// A half turn.
    pub open spec fn rotate_180(self) -> Coord {
        Coord { x: -self.x, y: -self.y }
    }

    /// Three quarter turns counter-clockwise.
    pub open spec fn rotate_270(self) -> Coord {
        Coord { x: self.y, y: -self.x }
    }

    /// Whether both components can be held in an `i32`.
    pub open spec fn fits_i32(self) -> bool {
        &&& i32::MIN <= self.x <= i32::MAX
        &&& i32::MIN <= self.y <= i32::MAX
    }

    /// Whether both components can be negated in an `i64`.
    pub open spec fn negatable_i64(self) -> bool {
        &&& i64::MIN < self.x <= i64::MAX
        &&& i64::MIN < self.y <= i64::MAX
    }
}

/// The address of a pixel.
#[derive(Clone, Copy, Debug, PartialEq, Eq, Structural)]
pub struct Point {
    pub x: i32,
    pub y: i32,
}

impl View for Point {
    type V = Coord;

    open spec fn view(&self) -> Coord {
        Coord { x: self.x as int, y: self.y as int }
    }
}

impl DeepView for Point {
    type V = Coord;

    open spec fn deep_view(&self) -> Coord {
        self@
    }
}

/// The offset between two pixels. Its components are wide enough for the
/// difference of any two pixel addresses.
#[derive(Clone, Copy, Debug, PartialEq, Eq, Structural)]
pub struct Vector {
    pub x: i64,
    pub y: i64,
}

impl View for Vector {
    type V = Coord;

    open spec fn view(&self) -> Coord {
        Coord { x: self.x as int, y: self.y as int }
    }
}

impl Point {
    pub fn new(x: i32, y: i32) -> (p: Point)
        ensures
            p.x == x,
            p.y == y,
    {
        Point { x, y }
    }

    /// The offset that leads from `origin` to `self`.
    pub fn offset_from(&self, origin: &Point) -> (v: Vector)
        ensures
            v@ == self@.minus(origin@),
    {
        Vector { x: self.x as i64 - origin.x as i64, y: self.y as i64 - origin.y as i64 }
    }

    /// The pixel that `offset` leads to from `self`.
    pub fn shifted_by(&self, offset: &Vector) -> (p: Point)
        requires
            self@.plus(offset@).fits_i32(),
        ensures
            p@ == self@.plus(offset@),
    {
        Point { x: (self.x as i64 + offset.x) as i32, y: (self.y as i64 + offset.y) as i32 }
    }
}

impl Vector {
    pub fn new(x: i64, y: i64) -> (v: Vector)
        ensures
            v.x == x,
            v.y == y,
    {
        Vector { x, y }
    }

    /// The components exchanged.
    pub fn yx(&self) -> (v: Vector)
        ensures
            v@ == self@.yx(),
    {
        Vector { x: self.y, y: self.x }
    }

    /// A quarter turn counter-clockwise.
    pub fn rotate_90(&self) -> (v: Vector)
        requires
            self.y > i64::MIN,
        ensures
            v@ == self@.rotate_90(),
    {
        Vector { x: -self.y, y: self.x }
    }

    /// A half turn.
    pub fn rotate_180(&self) -> (v: Vector)
        requires
            self@.negatable_i64(),
        ensures
            v@ == self@.rotate_180(),
    {
        Vector { x: -self.x, y: -self.y }
    }

    /// Three quarter turns counter-clockwise.
    pub fn rotate_270(&self) -> (v: Vector)
        requires
            self.x > i64::MIN,
        ensures
            v@ == self@.rotate_270(),
    {
        Vector { x: self.y, y: -self.x }
    }
}

} // verus!
