//! Shapes: what a ray can hit.

use crate::ray::{Hit, Interval, Ray};
use crate::scalar::Scalar;
use crate::vector::Point;
use vstd::prelude::*;

verus! {

/// A shape answers, for a ray and a range of its parameter, with the nearest
/// hit inside the range. The answer depends on the shape, the ray and the
/// range alone.
pub trait Hittable: Sync + Send {
    /// The hit that `hit` returns.
    spec fn intersection(&self, ray: Ray, interval: Interval) -> Option<Hit>;

    fn hit(&self, ray: &Ray, interval: &Interval) -> (r: Option<Hit>)
        ensures
            r == self.intersection(*ray, *interval),
    ;
}

#[derive(Clone, Copy, Debug)]
pub struct Sphere {
    pub center: Point,
    pub radius: Scalar,
}

impl Sphere {
    /// The ray parameter of the point of the ray's line nearest to the centre
    /// (for a unit direction).
    pub open spec fn closest_approach(self, ray: Ray) -> Scalar {
        self.center.difference(ray.origin).dot_product(ray.direction)
    }

    /// The squared distance from the centre to the ray's line.
    pub open spec fn squared_offset(self, ray: Ray) -> Scalar {
        let tca = self.closest_approach(ray);
        self.center.difference(ray.origin).squared_length().difference(tca.product(tca))
    }

    pub open spec fn squared_radius(self) -> Scalar {
        self.radius.product(self.radius)
    }

    /// The line of the ray passes the centre at more than the radius.
    pub open spec fn misses(self, ray: Ray) -> bool {
        self.squared_offset(ray).greater(self.squared_radius())
    }

    /// Half the length of the chord that the line cuts from the sphere.
    pub open spec fn half_chord(self, ray: Ray) -> Scalar {
        self.squared_radius().difference(self.squared_offset(ray)).root()
    }

    /// The parameter at which the line enters the sphere.
    pub open spec fn near_root(self, ray: Ray) -> Scalar {
        self.closest_approach(ray).difference(self.half_chord(ray))
    }

    /// The parameter at which the line leaves the sphere.
    pub open spec fn far_root(self, ray: Ray) -> Scalar {
        self.closest_approach(ray).sum(self.half_chord(ray))
    }

    /// The hit from outside, at the near root, with the normal pointing
    /// away from the centre.
    pub open spec fn front_hit(self, ray: Ray) -> Hit {
        let t = self.near_root(ray);
        Hit { t, normal: ray.point_at(t).difference(self.center).normalized(), is_front: true }
    }

    /// The hit from inside, at the far root, with the normal pointing to the
    /// centre.
    pub open spec fn back_hit(self, ray: Ray) -> Hit {
        let t = self.far_root(ray);
        Hit { t, normal: self.center.difference(ray.point_at(t)).normalized(), is_front: false }
    }
}

impl Sphere {
    /// The far root does not lie before the near root.
    pub proof fn lemma_roots_ordered(self, ray: Ray)
        ensures
            !self.far_root(ray).less(self.near_root(ray)),
    {
        self.closest_approach(ray).lemma_root_spreads(
            self.squared_radius().difference(self.squared_offset(ray)),
        );
    }
}

impl Hittable for Sphere {
    /// None where the line misses the sphere; else the front hit where the
    /// near root lies inside the range; else the back hit where the far root
    /// does; else none.
    open spec fn intersection(&self, ray: Ray, interval: Interval) -> Option<Hit> {
        if self.misses(ray) {
            None
        } else if interval.encloses(self.near_root(ray)) {
            Some(self.front_hit(ray))
        } else if interval.encloses(self.far_root(ray)) {
            Some(self.back_hit(ray))
        } else {
            None
        }
    }

    fn hit(&self, ray: &Ray, interval: &Interval) -> (r: Option<Hit>) {
        let l = self.center - ray.origin;
        let tca = l.dot(ray.direction);
        let d2 = l.length_square() - tca * tca;
        let r2 = self.radius * self.radius;
        if d2.gt(r2) {
            None
        } else {
            let thc = (r2 - d2).sqrt();
            let t0 = tca - thc;
            let t1 = tca + thc;
            if interval.surrounds(t0) {
                Some(
                    Hit { t: t0, normal: (ray.at(t0) - self.center).normalize(), is_front: true },
                )
            } else if interval.surrounds(t1) {
                Some(
                    Hit { t: t1, normal: (self.center - ray.at(t1)).normalize(), is_front: false },
                )
            } else {
                None
            }
        }
    }
}

} // verus!
