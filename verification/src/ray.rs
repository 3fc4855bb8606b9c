//! Rays, the parameter ranges that bound an intersection search, and the
//! record of a hit.

use crate::scalar::{Scalar, INFINITY_BITS};
use crate::vector::{Point, Vector};
use vstd::prelude::*;

verus! {

/// The pattern of 1e-4, the least ray parameter at which a hit counts, so
/// that a scattered ray does not meet the surface it leaves.
pub const RENDER_MIN_BITS: u32 = 0x38d1_b717;

#[derive(Clone, Copy, Debug)]
pub struct Ray {
    pub origin: Point,
    pub direction: Vector,
}

impl Ray {
    /// The point `origin + t * direction`.
    pub open spec fn point_at(self, t: Scalar) -> Point {
        self.origin.sum(t.scaling(self.direction))
    }

    pub fn new(origin: Point, direction: Vector) -> (r: Ray)
        ensures
            r == (Ray { origin, direction }),
    {
        Ray { origin, direction }
    }

    pub fn at(&self, t: Scalar) -> (r: Point)
        ensures
            r == self.point_at(t),
    {
        self.origin + t * self.direction
    }
}

#[derive(Clone, Copy, Debug)]
pub struct Interval {
    pub min: Scalar,
    pub max: Scalar,
}

impl Interval {
    /// `x` lies strictly between the two bounds.
    pub open spec fn encloses(self, x: Scalar) -> bool {
        self.min.less(x) && self.max.greater(x)
    }

    /// The range in which rays are traced: above 1e-4, without upper bound.
    pub open spec fn tracing() -> Interval {
        Interval { min: Scalar { bits: RENDER_MIN_BITS }, max: Scalar { bits: INFINITY_BITS } }
    }

    pub fn new(min: Scalar, max: Scalar) -> (r: Interval)
        ensures
            r == (Interval { min, max }),
    {
        Interval { min, max }
    }

    pub fn render_range() -> (r: Interval)
        ensures
            r == Interval::tracing(),
    {
        Interval {
            min: Scalar::from_bits(RENDER_MIN_BITS),
            max: Scalar::from_bits(INFINITY_BITS),
        }
    }

    pub fn surrounds(&self, x: Scalar) -> (r: bool)
        ensures
            r == self.encloses(x),
    {
        self.min.lt(x) && self.max.gt(x)
    }
}

/// Where a ray meets a surface: the ray parameter, the unit normal turned
/// against the ray, and whether the ray comes from outside.
#[derive(Clone, Copy, Debug)]
pub struct Hit {
    pub t: Scalar,
    pub normal: Vector,
    pub is_front: bool,
}

} // verus!
