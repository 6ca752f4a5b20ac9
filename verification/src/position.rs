//! Points and offsets in space.

use vstd::prelude::*;
use crate::scalar::Scalar;

verus! {

/// A point in space, or the step from one point to another.
#[derive(Clone, Copy, PartialEq, Eq, Structural, Debug)]
pub struct Position {
    pub x: Scalar,
    pub y: Scalar,
    pub z: Scalar,
}

impl Position {
    /// The origin: three positive zeros.
    pub open spec fn origin() -> Position {
        Position { x: Scalar { bits: 0 }, y: Scalar { bits: 0 }, z: Scalar { bits: 0 } }
    }

    /// The point of the ground plane, where `y` is zero, at `x` and `z`.
    pub open spec fn grounded(x: Scalar, z: Scalar) -> Position {
        Position { x, y: Scalar { bits: 0 }, z }
    }

    pub fn new(x: Scalar, y: Scalar, z: Scalar) -> (r: Position)
        ensures
            r == (Position { x, y, z }),
    {
        Position { x, y, z }
    }

    pub fn zero() -> (r: Position)
        ensures
            r == Position::origin(),
    {
        Position { x: Scalar { bits: 0 }, y: Scalar { bits: 0 }, z: Scalar { bits: 0 } }
    }

    pub fn on_ground(x: Scalar, z: Scalar) -> (r: Position)
        ensures
            r == Position::grounded(x, z),
    {
        Position { x, y: Scalar { bits: 0 }, z }
    }
}

} // verus!
