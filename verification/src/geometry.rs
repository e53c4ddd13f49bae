use vstd::prelude::*;

verus! {

/// A point or vector with three coordinates.
#[derive(Clone, Copy, Debug, PartialEq)]
pub struct Vec3<T> {
    pub x: T,
    pub y: T,
    pub z: T,
}

/// One of the three coordinate axes.
#[derive(Clone, Copy, Debug, PartialEq, Eq, Structural)]
pub enum Axis {
    X,
    Y,
    Z,
}

impl<T: Copy> Vec3<T> {
    /// Builds a vector from its coordinates.
    pub fn new(x: T, y: T, z: T) -> (r: Self)
        ensures
            r == (Vec3 { x, y, z }),
    {
        Vec3 { x, y, z }
    }
}

impl<T> Vec3<T> {
    /// The coordinate along `axis`.
    pub open spec fn coord(self, axis: Axis) -> T {
        match axis {
            Axis::X => self.x,
            Axis::Y => self.y,
            Axis::Z => self.z,
        }
    }

    /// This vector with its coordinate along `axis` replaced by `value`.
    pub open spec fn with_coord(self, axis: Axis, value: T) -> Self {
        match axis {
            Axis::X => Vec3 { x: value, ..self },
            Axis::Y => Vec3 { y: value, ..self },
            Axis::Z => Vec3 { z: value, ..self },
        }
    }
}

/// The axis along which a box at depth `depth` of the hierarchy is halved:
/// the remainder of `depth` by 3, as Rust computes it for `i32`, selects
/// x for 1, y for 0 and z for anything else (2, -1 and -2).
pub open spec fn split_axis(depth: int) -> Axis {
    if depth >= 0 && depth % 3 == 1 {
        Axis::X
    } else if depth % 3 == 0 {
        Axis::Y
    } else {
        Axis::Z
    }
}

} // verus!
