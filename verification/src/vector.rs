//! Vectors of three binary32 components, used for positions, directions and
//! linear RGB colours alike.

use crate::random::{is_draw, RandomSource};
use crate::scalar::{Scalar, MINUS_ONE_BITS, ONE_BITS, TWO_BITS, ZERO_BITS};
use core::ops::Neg;
use vstd::prelude::*;
use vstd::std_specs::ops::{AddSpecImpl, DivSpecImpl, MulSpecImpl, SubSpecImpl};

verus! {

/// The pattern of 1e-8, below which a component counts as vanished.
pub const NEAR_ZERO_BITS: u32 = 0x322b_cc77;

/// How many points `random_unit` draws before it gives up.
pub const SAMPLE_ATTEMPTS: u32 = 128;

#[derive(Clone, Copy, Debug)]
pub struct Vector {
    pub x: Scalar,
    pub y: Scalar,
    pub z: Scalar,
}

pub type Point = Vector;

pub type Color = Vector;

impl Vector {
    /// The vector whose components are all +0.
    pub open spec fn origin() -> Vector {
        Vector { x: Scalar { bits: 0 }, y: Scalar { bits: 0 }, z: Scalar { bits: 0 } }
    }

    pub open spec fn sum(self, rhs: Vector) -> Vector {
        Vector { x: self.x.sum(rhs.x), y: self.y.sum(rhs.y), z: self.z.sum(rhs.z) }
    }

    pub open spec fn difference(self, rhs: Vector) -> Vector {
        Vector {
            x: self.x.difference(rhs.x),
            y: self.y.difference(rhs.y),
            z: self.z.difference(rhs.z),
        }
    }

    /// Component by component, as colours attenuate.
    pub open spec fn product(self, rhs: Vector) -> Vector {
        Vector { x: self.x.product(rhs.x), y: self.y.product(rhs.y), z: self.z.product(rhs.z) }
    }

    /// `self * k`.
    pub open spec fn scaled(self, k: Scalar) -> Vector {
        Vector { x: self.x.product(k), y: self.y.product(k), z: self.z.product(k) }
    }

    /// `self / k`.
    pub open spec fn divided(self, k: Scalar) -> Vector {
        Vector { x: self.x.quotient(k), y: self.y.quotient(k), z: self.z.quotient(k) }
    }

    /// `x * x' + y * y' + z * z'`, summed from the left.
    pub open spec fn dot_product(self, rhs: Vector) -> Scalar {
        self.x.product(rhs.x).sum(self.y.product(rhs.y)).sum(self.z.product(rhs.z))
    }

    pub open spec fn cross_product(self, rhs: Vector) -> Vector {
        Vector {
            x: self.y.product(rhs.z).difference(self.z.product(rhs.y)),
            y: self.z.product(rhs.x).difference(self.x.product(rhs.z)),
            z: self.x.product(rhs.y).difference(self.y.product(rhs.x)),
        }
    }

    pub open spec fn squared_length(self) -> Scalar {
        self.dot_product(self)
    }

    pub open spec fn norm(self) -> Scalar {
        self.squared_length().root()
    }

    /// The vector divided by its length, or the vector itself where the
    /// length is not above zero (a zero vector, or a NaN length).
    pub open spec fn normalized(self) -> Vector {
        if self.norm().greater(Scalar { bits: ZERO_BITS }) {
            self.divided(self.norm())
        } else {
            self
        }
    }

    /// Every component is below 1e-8 in magnitude.
    pub open spec fn vanishing(self) -> bool {
        let limit = Scalar { bits: NEAR_ZERO_BITS };
        self.x.absolute().less(limit) && self.y.absolute().less(limit) && self.z.absolute().less(
            limit,
        )
    }

    /// The mirror image about `normal`: `v - (2 * (v . n)) * n`.
    pub open spec fn mirrored(self, normal: Vector) -> Vector {
        self.difference(
            Scalar { bits: TWO_BITS }.product(self.dot_product(normal)).scaling(normal),
        )
    }

    /// The direction bent by Snell's law for the ratio `eta` of refractive
    /// indices: a part across the normal, `eta * (v + cos * n)`, and a part
    /// along it, `-sqrt(|1 - |across|^2|) * n`, where `cos` is
    /// `min((-v) . n, 1)`.
    pub open spec fn bent(self, normal: Vector, eta: Scalar) -> Vector {
        let cos_theta = Scalar { bits: MINUS_ONE_BITS }.scaling(self).dot_product(normal).lesser(
            Scalar { bits: ONE_BITS },
        );
        let across = eta.scaling(self.sum(cos_theta.scaling(normal)));
        let along = Scalar { bits: ONE_BITS }.difference(
            across.squared_length(),
        ).absolute().root().negated().scaling(normal);
        across.sum(along)
    }
}

impl Scalar {
    /// `self * v`.
    pub open spec fn scaling(self, v: Vector) -> Vector {
        Vector { x: self.product(v.x), y: self.product(v.y), z: self.product(v.z) }
    }
}

impl AddSpecImpl for Vector {
    open spec fn obeys_add_spec() -> bool {
        true
    }

    open spec fn add_req(self, rhs: Vector) -> bool {
        true
    }

    open spec fn add_spec(self, rhs: Vector) -> Vector {
        self.sum(rhs)
    }
}

impl core::ops::Add for Vector {
    type Output = Vector;

    fn add(self, rhs: Vector) -> (r: Vector) {
        Vector { x: self.x + rhs.x, y: self.y + rhs.y, z: self.z + rhs.z }
    }
}

impl SubSpecImpl for Vector {
    open spec fn obeys_sub_spec() -> bool {
        true
    }

    open spec fn sub_req(self, rhs: Vector) -> bool {
        true
    }

    open spec fn sub_spec(self, rhs: Vector) -> Vector {
        self.difference(rhs)
    }
}

impl core::ops::Sub for Vector {
    type Output = Vector;

    fn sub(self, rhs: Vector) -> (r: Vector) {
        Vector { x: self.x - rhs.x, y: self.y - rhs.y, z: self.z - rhs.z }
    }
}

impl MulSpecImpl for Vector {
    open spec fn obeys_mul_spec() -> bool {
        true
    }

    open spec fn mul_req(self, rhs: Vector) -> bool {
        true
    }

    open spec fn mul_spec(self, rhs: Vector) -> Vector {
        self.product(rhs)
    }
}

impl core::ops::Mul for Vector {
    type Output = Vector;

    fn mul(self, rhs: Vector) -> (r: Vector) {
        Vector { x: self.x * rhs.x, y: self.y * rhs.y, z: self.z * rhs.z }
    }
}

impl MulSpecImpl<Scalar> for Vector {
    open spec fn obeys_mul_spec() -> bool {
        true
    }

    open spec fn mul_req(self, rhs: Scalar) -> bool {
        true
    }

    open spec fn mul_spec(self, rhs: Scalar) -> Vector {
        self.scaled(rhs)
    }
}

impl core::ops::Mul<Scalar> for Vector {
    type Output = Vector;

    fn mul(self, rhs: Scalar) -> (r: Vector) {
        Vector { x: self.x * rhs, y: self.y * rhs, z: self.z * rhs }
    }
}

impl MulSpecImpl<Vector> for Scalar {
    open spec fn obeys_mul_spec() -> bool {
        true
    }

    open spec fn mul_req(self, rhs: Vector) -> bool {
        true
    }

    open spec fn mul_spec(self, rhs: Vector) -> Vector {
        self.scaling(rhs)
    }
}

impl core::ops::Mul<Vector> for Scalar {
    type Output = Vector;

    fn mul(self, rhs: Vector) -> (r: Vector) {
        Vector { x: self * rhs.x, y: self * rhs.y, z: self * rhs.z }
    }
}

impl DivSpecImpl<Scalar> for Vector {
    open spec fn obeys_div_spec() -> bool {
        true
    }

    open spec fn div_req(self, rhs: Scalar) -> bool {
        true
    }

    open spec fn div_spec(self, rhs: Scalar) -> Vector {
        self.divided(rhs)
    }
}

impl core::ops::Div<Scalar> for Vector {
    type Output = Vector;

    fn div(self, rhs: Scalar) -> (r: Vector) {
        Vector { x: self.x / rhs, y: self.y / rhs, z: self.z / rhs }
    }
}

impl Vector {
    pub fn new(x: Scalar, y: Scalar, z: Scalar) -> (r: Vector)
        ensures
            r == (Vector { x, y, z }),
    {
        Vector { x, y, z }
    }

    pub fn zero() -> (r: Vector)
        ensures
            r == Vector::origin(),
    {
        Vector {
            x: Scalar::from_bits(ZERO_BITS),
            y: Scalar::from_bits(ZERO_BITS),
            z: Scalar::from_bits(ZERO_BITS),
        }
    }

    pub fn dot(self, rhs: Vector) -> (r: Scalar)
        ensures
            r == self.dot_product(rhs),
    {
        self.x * rhs.x + self.y * rhs.y + self.z * rhs.z
    }

    pub fn cross(self, rhs: Vector) -> (r: Vector)
        ensures
            r == self.cross_product(rhs),
    {
        Vector {
            x: self.y * rhs.z - self.z * rhs.y,
            y: self.z * rhs.x - self.x * rhs.z,
            z: self.x * rhs.y - self.y * rhs.x,
        }
    }

    pub fn length_square(self) -> (r: Scalar)
        ensures
            r == self.squared_length(),
    {
        self.dot(self)
    }

    pub fn length(self) -> (r: Scalar)
        ensures
            r == self.norm(),
    {
        self.length_square().sqrt()
    }

    pub fn normalize(self) -> (r: Vector)
        ensures
            r == self.normalized(),
    {
        let length: Scalar = self.length();
        if length.gt(Scalar::from_bits(ZERO_BITS)) {
            self / length
        } else {
            self
        }
    }

    pub fn near_zero(self) -> (r: bool)
        ensures
            r == self.vanishing(),
    {
        let limit: Scalar = Scalar::from_bits(NEAR_ZERO_BITS);
        self.x.abs().lt(limit) && self.y.abs().lt(limit) && self.z.abs().lt(limit)
    }

    pub fn reflect(self, normal: Vector) -> (r: Vector)
        ensures
            r == self.mirrored(normal),
    {
        self - Scalar::from_bits(TWO_BITS) * self.dot(normal) * normal
    }

    pub fn refract(self, normal: Vector, etai_over_etat: Scalar) -> (r: Vector)
        ensures
            r == self.bent(normal, etai_over_etat),
    {
        let one: Scalar = Scalar::from_bits(ONE_BITS);
        let cos_theta: Scalar = (Scalar::from_bits(MINUS_ONE_BITS) * self).dot(normal).min(one);
        let r_out_perp: Vector = etai_over_etat * (self + cos_theta * normal);
        let r_out_parallel: Vector = (one - r_out_perp.length_square()).abs().sqrt().neg()
            * normal;
        r_out_perp + r_out_parallel
    }
}

impl Vector {
    /// The direction that a drawn point stands for: the point normalized,
    /// where its squared length lies strictly between 0 and 1; none
    /// otherwise.
    pub open spec fn accepted(self) -> Option<Vector> {
        let length_square = self.squared_length();
        if length_square.greater(Scalar { bits: ZERO_BITS }) && length_square.less(
            Scalar { bits: ONE_BITS },
        ) {
            Some(self.normalized())
        } else {
            None
        }
    }

    /// The direction returned when every drawn point was rejected.
    pub open spec fn fallback_axis() -> Vector {
        Vector { x: Scalar { bits: ONE_BITS }, y: Scalar { bits: 0 }, z: Scalar { bits: 0 } }
    }

    /// `self` is a direction that `random_unit` may return: the fallback
    /// axis, or what a point of three draws was accepted as.
    pub open spec fn sampled(self) -> bool {
        self == Vector::fallback_axis() || exists|v: Vector|
            is_draw(v.x) && is_draw(v.y) && is_draw(v.z) && #[trigger] v.accepted() == Some(self)
    }

    /// Accepts or rejects one drawn point.
    pub fn accept_sample(self) -> (r: Option<Vector>)
        ensures
            r == self.accepted(),
    {
        let length_square: Scalar = self.length_square();
        if length_square.gt(Scalar::from_bits(ZERO_BITS)) && length_square.lt(
            Scalar::from_bits(ONE_BITS),
        ) {
            Some(self.normalize())
        } else {
            None
        }
    }

    /// A random direction: points are drawn from the unit cube until one is
    /// accepted. After `SAMPLE_ATTEMPTS` rejections the fallback axis is
    /// returned.
    pub fn random_unit(source: &mut RandomSource) -> (r: Vector)
        ensures
            r.sampled(),
    {
        let mut attempt: u32 = 0;
        while attempt < SAMPLE_ATTEMPTS
            invariant
                attempt <= SAMPLE_ATTEMPTS,
            decreases SAMPLE_ATTEMPTS - attempt,
        {
            let x: Scalar = source.next_unit();
            let y: Scalar = source.next_unit();
            let z: Scalar = source.next_unit();
            let v: Vector = Vector::new(x, y, z);
            match v.accept_sample() {
                Some(unit) => {
                    assert(v.accepted() == Some(unit));
                    return unit;
                },
                None => {},
            }
            attempt = attempt + 1;
        }
        Vector::new(
            Scalar::from_bits(ONE_BITS),
            Scalar::from_bits(ZERO_BITS),
            Scalar::from_bits(ZERO_BITS),
        )
    }
}

impl Vector {
    /// Component by component the same value.
    pub open spec fn same_value(self, other: Vector) -> bool {
        self.x.same_value(other.x) && self.y.same_value(other.y) && self.z.same_value(other.z)
    }

    /// No component is a NaN or an infinity.
    pub open spec fn finite(self) -> bool {
        self.x.finite() && self.y.finite() && self.z.finite()
    }

    /// Normalizing a vector of zeros, of either sign, returns it unchanged.
    pub proof fn lemma_normalize_zero(self)
        requires
            self.x.zero(),
            self.y.zero(),
            self.z.zero(),
        ensures
            self.normalized() == self,
    {
        crate::exact::lemma_product_with_zero(self.x, self.x);
        crate::exact::lemma_product_with_zero(self.y, self.y);
        crate::exact::lemma_product_with_zero(self.z, self.z);
        let xx = self.x.product(self.x);
        let yy = self.y.product(self.y);
        let zz = self.z.product(self.z);
        assert(xx.bits == 0 && yy.bits == 0 && zz.bits == 0);
        assert(xx.sum(yy).bits == 0);
        assert(xx.sum(yy).sum(zz).bits == 0);
        assert(self.norm().bits == 0);
    }
}

} // verus!
