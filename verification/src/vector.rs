//! Two-dimensional vectors of fixed-point numbers.

use vstd::prelude::*;
use crate::fixed::{in_range, Fixed};

verus! {

/// The mathematical model of a [`Vec2`]: a pair of raw counts.
pub struct Vector {
    pub x: int,
    pub y: int,
}

impl Vector {
    /// Whether both components are representable.
    pub open spec fn in_range(self) -> bool {
        in_range(self.x) && in_range(self.y)
    }

    /// The zero vector.
    pub open spec fn zero() -> Vector {
        Vector { x: 0, y: 0 }
    }

    /// The component-wise sum.
    pub open spec fn plus(self, other: Vector) -> Vector {
        Vector { x: self.x + other.x, y: self.y + other.y }
    }
}

/// A point or a displacement in the plane.
#[derive(Clone, Copy, Debug, PartialEq, Eq, Structural)]
pub struct Vec2 {
    pub x: Fixed,
    pub y: Fixed,
}

impl View for Vec2 {
    type V = Vector;

    open spec fn view(&self) -> Vector {
        Vector { x: self.x@, y: self.y@ }
    }
}

impl Vec2 {
    /// The vector with the given components.
    pub fn new(x: Fixed, y: Fixed) -> (v: Vec2)
        ensures
            v@ == (Vector { x: x@, y: y@ }),
    {
        Vec2 { x, y }
    }

    /// The zero vector.
    pub fn zero() -> (v: Vec2)
        ensures
            v@ == Vector::zero(),
    {
        Vec2 { x: Fixed::zero(), y: Fixed::zero() }
    }
}

} // verus!
