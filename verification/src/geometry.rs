//! Points, directions, frames, curves and surfaces, as the model stores them.

use vstd::prelude::*;

use crate::scalar::Real;

verus! {

/// A point in space (mm).
#[derive(Clone, Copy, Debug, PartialEq, Eq, Structural)]
pub struct Point3 {
    pub x: Real,
    pub y: Real,
    pub z: Real,
}

/// A direction of unit length.
#[derive(Clone, Copy, Debug, PartialEq, Eq, Structural)]
pub struct UnitVec3 {
    pub x: Real,
    pub y: Real,
    pub z: Real,
}

/// A right-handed frame.
#[derive(Clone, Copy, Debug, PartialEq, Eq, Structural)]
pub struct Frame3 {
    pub origin: Point3,
    pub x: UnitVec3,
    pub y: UnitVec3,
    pub z: UnitVec3,
}

/// A straight line: a point on it and its direction.
#[derive(Clone, Copy, Debug, PartialEq, Eq, Structural)]
pub struct Line3 {
    pub origin: Point3,
    pub direction: UnitVec3,
}

/// A circle about the frame's origin, in its xy-plane.
#[derive(Clone, Copy, Debug, PartialEq, Eq, Structural)]
pub struct Circle3 {
    pub frame: Frame3,
    pub radius: Real,
}

/// An ellipse about the frame's origin, its long axis along the frame's x.
#[derive(Clone, Copy, Debug, PartialEq, Eq, Structural)]
pub struct Ellipse3 {
    pub frame: Frame3,
    pub semi_major: Real,
    pub semi_minor: Real,
}

/// An infinite plane: the frame's xy-plane.
#[derive(Clone, Copy, Debug, PartialEq, Eq, Structural)]
pub struct Plane3 {
    pub frame: Frame3,
}

/// An infinite right circular cylinder about the frame's z-axis.
#[derive(Clone, Copy, Debug, PartialEq, Eq, Structural)]
pub struct CylSurf {
    pub frame: Frame3,
    pub radius: Real,
}

/// A sphere about the frame's origin.
#[derive(Clone, Copy, Debug, PartialEq, Eq, Structural)]
pub struct SphereSurf {
    pub frame: Frame3,
    pub radius: Real,
}

/// A ring torus about the frame's z-axis.
#[derive(Clone, Copy, Debug, PartialEq, Eq, Structural)]
pub struct TorusSurf {
    pub frame: Frame3,
    pub major_radius: Real,
    pub minor_radius: Real,
}

} // verus!
