use vstd::prelude::*;

verus! {

/// A position in the blueprint grid.
#[derive(Debug, Clone, Copy, PartialEq, Eq, Structural)]
pub struct Pos {
    pub x: i32,
    pub y: i32,
    pub z: i32,
}

/// `true` when `v` fits in an `i32`.
pub open spec fn fits_i32(v: int) -> bool {
    i32::MIN <= v <= i32::MAX
}

impl Pos {
    pub fn new(x: i32, y: i32, z: i32) -> (p: Self)
        ensures
            p == (Pos { x, y, z }),
    {
        Self { x, y, z }
    }

    /// The same position moved by `x` along the x axis.
    pub fn add_x(&self, x: i32) -> (p: Self)
        requires
            fits_i32(self.x + x),
        ensures
            p == (Pos { x: (self.x + x) as i32, y: self.y, z: self.z }),
    {
        let mut new = *self;
        new.x = new.x + x;
        new
    }

    /// `true` when `self + rhs` has no coordinate out of the `i32` range.
    pub open spec fn can_add(self, rhs: Pos) -> bool {
        fits_i32(self.x + rhs.x) && fits_i32(self.y + rhs.y) && fits_i32(self.z + rhs.z)
    }

    /// Coordinate-wise sum of two positions.
    pub open spec fn spec_plus(self, rhs: Pos) -> Pos {
        Pos { x: (self.x + rhs.x) as i32, y: (self.y + rhs.y) as i32, z: (self.z + rhs.z) as i32 }
    }

    /// Coordinate-wise sum of two positions.
    pub fn plus(self, rhs: Pos) -> (p: Pos)
        requires
            self.can_add(rhs),
        ensures
            p == self.spec_plus(rhs),
    {
        Pos { x: self.x + rhs.x, y: self.y + rhs.y, z: self.z + rhs.z }
    }
}

impl Default for Pos {
    fn default() -> (p: Self)
        ensures
            p == (Pos { x: 0, y: 0, z: 0 }),
    {
        Self { x: 0, y: 0, z: 0 }
    }
}

} // verus!
