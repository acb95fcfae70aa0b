use vstd::prelude::*;

verus! {

/// A direction in space; each component is a binary64 bit pattern.
#[derive(Clone, Copy, Debug, PartialEq, Eq, Structural)]
pub struct Vec3 {
    pub x: u64,
    pub y: u64,
    pub z: u64,
}

/// A position in space; each component is a binary64 bit pattern.
#[derive(Clone, Copy, Debug, PartialEq, Eq, Structural)]
pub struct Point3 {
    pub x: u64,
    pub y: u64,
    pub z: u64,
}

impl Vec3 {
    pub fn new(x: u64, y: u64, z: u64) -> (v: Vec3)
        ensures
            v == (Vec3 { x, y, z }),
    {
        Vec3 { x, y, z }
    }

    /// The components in order.
    pub open spec fn lanes(self) -> Seq<u64> {
        seq![self.x, self.y, self.z]
    }
}

impl Point3 {
    pub fn new(x: u64, y: u64, z: u64) -> (p: Point3)
        ensures
            p == (Point3 { x, y, z }),
    {
        Point3 { x, y, z }
    }

    /// The components in order.
    pub open spec fn lanes(self) -> Seq<u64> {
        seq![self.x, self.y, self.z]
    }
}

impl Default for Vec3 {
    /// The zero vector: every component is the pattern of positive zero.
    fn default() -> (v: Vec3)
        ensures
            v == (Vec3 { x: 0, y: 0, z: 0 }),
    {
        Vec3 { x: 0, y: 0, z: 0 }
    }
}

impl Default for Point3 {
    /// The origin: every component is the pattern of positive zero.
    fn default() -> (p: Point3)
        ensures
            p == (Point3 { x: 0, y: 0, z: 0 }),
    {
        Point3 { x: 0, y: 0, z: 0 }
    }
}

} // verus!
