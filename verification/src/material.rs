//! Materials: what becomes of a ray at a hit.

use crate::random::{is_draw, unit_of_word, RandomSource};
use crate::ray::{Hit, Ray};
use crate::scalar::{lemma_magnitude_increases, Scalar, MINUS_ONE_BITS, ONE_BITS, ZERO_BITS};
use crate::shape::Hittable;
use crate::vector::{Color, Vector};
use std::sync::Arc;
use vstd::prelude::*;

verus! {

/// What a material does with an incoming ray: it absorbs it, scatters it
/// with an attenuation, or answers with light of its own.
#[derive(Clone, Copy, Debug)]
pub enum OnHit {
    Absorbed,
    Scatter { attenuation: Color, scattered: Ray },
    Emitted { color: Color },
}

/// A material decides, for an incoming ray and the hit it made, what comes
/// of the ray. It may consume random draws; `admits` holds of whatever it
/// returns.
pub trait Material: Sync + Send {
    /// `outcome` is among the answers of this material to `ray` at `rec`.
    spec fn admits(&self, ray: Ray, rec: Hit, outcome: OnHit) -> bool;

    fn on_hit(&self, ray: &Ray, rec: &Hit, source: &mut RandomSource) -> (r: OnHit)
        ensures
            self.admits(*ray, *rec, r),
    ;
}

/// A diffuse surface.
pub struct Lambertian {
    albedo: Color,
}

impl Lambertian {
    pub closed spec fn reflectance_color(self) -> Color {
        self.albedo
    }

    /// The answer for a given random direction `unit`: the ray leaves the
    /// hit point along `normal + unit`, or along the normal where that sum
    /// vanishes, normalized; it is attenuated by the albedo.
    pub open spec fn scattered_along(self, ray: Ray, rec: Hit, unit: Vector) -> OnHit {
        let sum = rec.normal.sum(unit);
        let direction = if sum.vanishing() {
            rec.normal
        } else {
            sum
        };
        OnHit::Scatter {
            attenuation: self.reflectance_color(),
            scattered: Ray { origin: ray.point_at(rec.t), direction: direction.normalized() },
        }
    }

    pub fn new(albedo: Color) -> (r: Lambertian)
        ensures
            r.reflectance_color() == albedo,
    {
        Lambertian { albedo }
    }

    pub fn scatter_along(&self, ray: &Ray, rec: &Hit, unit: Vector) -> (r: OnHit)
        ensures
            r == self.scattered_along(*ray, *rec, unit),
    {
        let scatter_direction = rec.normal + unit;
        let scatter_direction = if scatter_direction.near_zero() {
            rec.normal
        } else {
            scatter_direction
        };
        OnHit::Scatter {
            attenuation: self.albedo,
            scattered: Ray { origin: ray.at(rec.t), direction: scatter_direction.normalize() },
        }
    }
}

impl Material for Lambertian {
    open spec fn admits(&self, ray: Ray, rec: Hit, outcome: OnHit) -> bool {
        exists|unit: Vector| unit.sampled() && outcome == #[trigger] self.scattered_along(ray, rec, unit)
    }

    fn on_hit(&self, ray: &Ray, rec: &Hit, source: &mut RandomSource) -> (r: OnHit)
        ensures
            r matches OnHit::Scatter { attenuation, scattered } && attenuation
                == self.reflectance_color() && scattered.origin == ray.point_at(rec.t),
    {
        let unit = Vector::random_unit(source);
        self.scatter_along(ray, rec, unit)
    }
}

/// A mirror, roughened by `fuzz`.
pub struct Metal {
    albedo: Color,
    fuzz: Scalar,
}

impl Metal {
    pub closed spec fn reflectance_color(self) -> Color {
        self.albedo
    }

    pub closed spec fn roughness(self) -> Scalar {
        self.fuzz
    }

    /// The answer for a given random direction `unit`: the mirror image of
    /// the incoming direction plus `fuzz * unit`; where that points into the
    /// surface, the ray is absorbed.
    pub open spec fn reflected_with(self, ray: Ray, rec: Hit, unit: Vector) -> OnHit {
        let reflected = ray.direction.mirrored(rec.normal).sum(self.roughness().scaling(unit));
        if reflected.dot_product(rec.normal).greater(Scalar { bits: ZERO_BITS }) {
            OnHit::Scatter {
                attenuation: self.reflectance_color(),
                scattered: Ray { origin: ray.point_at(rec.t), direction: reflected },
            }
        } else {
            OnHit::Absorbed
        }
    }

    /// A metal of the given albedo; `fuzz` is kept within [0, 1].
    pub fn new(albedo: Color, fuzz: Scalar) -> (r: Metal)
        ensures
            r.reflectance_color() == albedo,
            r.roughness() == fuzz.clamped(Scalar { bits: ZERO_BITS }, Scalar { bits: ONE_BITS }),
    {
        proof {
            lemma_magnitude_increases(0, ONE_BITS as int);
        }
        Metal {
            albedo,
            fuzz: fuzz.clamp(Scalar::from_bits(ZERO_BITS), Scalar::from_bits(ONE_BITS)),
        }
    }

    pub fn reflect_with(&self, ray: &Ray, rec: &Hit, unit: Vector) -> (r: OnHit)
        ensures
            r == self.reflected_with(*ray, *rec, unit),
    {
        let reflected = ray.direction.reflect(rec.normal) + self.fuzz * unit;
        if reflected.dot(rec.normal).gt(Scalar::from_bits(ZERO_BITS)) {
            OnHit::Scatter {
                attenuation: self.albedo,
                scattered: Ray { origin: ray.at(rec.t), direction: reflected },
            }
        } else {
            OnHit::Absorbed
        }
    }
}

impl Metal {
    /// Without roughness the scattered direction is the mirror image of the
    /// incoming one, value for value, whatever finite direction was drawn.
    pub proof fn lemma_mirror_without_fuzz(self, ray: Ray, rec: Hit, unit: Vector)
        requires
            self.roughness().zero(),
            unit.finite(),
        ensures
            self.reflected_with(ray, rec, unit) matches OnHit::Scatter { scattered, .. }
                ==> scattered.direction.same_value(ray.direction.mirrored(rec.normal)),
    {
        let mirror = ray.direction.mirrored(rec.normal);
        let fuzz = self.roughness();
        crate::exact::lemma_product_with_zero(fuzz, unit.x);
        crate::exact::lemma_product_with_zero(fuzz, unit.y);
        crate::exact::lemma_product_with_zero(fuzz, unit.z);
        crate::exact::lemma_sum_with_zero(mirror.x, fuzz.product(unit.x));
        crate::exact::lemma_sum_with_zero(mirror.y, fuzz.product(unit.y));
        crate::exact::lemma_sum_with_zero(mirror.z, fuzz.product(unit.z));
    }
}

impl Material for Metal {
    open spec fn admits(&self, ray: Ray, rec: Hit, outcome: OnHit) -> bool {
        exists|unit: Vector| unit.sampled() && outcome == #[trigger] self.reflected_with(ray, rec, unit)
    }

    fn on_hit(&self, ray: &Ray, rec: &Hit, source: &mut RandomSource) -> (r: OnHit) {
        let unit = Vector::random_unit(source);
        self.reflect_with(ray, rec, unit)
    }
}

/// A clear medium that reflects or refracts.
pub struct Dielectric {
    refraction_index: Scalar,
}

impl Dielectric {
    pub closed spec fn index(self) -> Scalar {
        self.refraction_index
    }

    /// `x` to the fifth power, as `x * ((x * x) * (x * x))`.
    pub open spec fn fifth_power(x: Scalar) -> Scalar {
        let square = x.product(x);
        x.product(square.product(square))
    }

    /// Schlick's estimate of the reflected share:
    /// `r0 + (1 - r0) * (1 - cosine)^5` with `r0 = ((1 - ri) / (1 + ri))^2`.
    pub open spec fn schlick(cosine: Scalar, refraction_index: Scalar) -> Scalar {
        let one = Scalar { bits: ONE_BITS };
        let ratio = one.difference(refraction_index).quotient(one.sum(refraction_index));
        let r0 = ratio.product(ratio);
        r0.sum(one.difference(r0).product(Dielectric::fifth_power(one.difference(cosine))))
    }

    /// The ratio of refractive indices that the ray meets: `1 / index` on the
    /// way in, `index` on the way out.
    pub open spec fn relative_index(self, rec: Hit) -> Scalar {
        if rec.is_front {
            Scalar { bits: ONE_BITS }.quotient(self.index())
        } else {
            self.index()
        }
    }

    /// The cosine of the angle of incidence, at most 1.
    pub open spec fn incidence_cosine(ray: Ray, rec: Hit) -> Scalar {
        Scalar { bits: MINUS_ONE_BITS }.scaling(ray.direction).dot_product(rec.normal).lesser(
            Scalar { bits: ONE_BITS },
        )
    }

    /// Refraction is impossible: `ri * sin > 1`.
    pub open spec fn total_reflection(self, ray: Ray, rec: Hit) -> bool {
        let one = Scalar { bits: ONE_BITS };
        let cos_theta = Dielectric::incidence_cosine(ray, rec);
        let sin_theta = one.difference(cos_theta.product(cos_theta)).root();
        self.relative_index(rec).product(sin_theta).greater(one)
    }

    /// The ray is reflected, for a given random `draw`: under total
    /// reflection, or where the reflected share exceeds the draw.
    pub open spec fn reflects(self, ray: Ray, rec: Hit, draw: Scalar) -> bool {
        self.total_reflection(ray, rec) || Dielectric::schlick(
            Dielectric::incidence_cosine(ray, rec),
            self.relative_index(rec),
        ).greater(draw)
    }

    /// The answer for a given random `draw`: the ray leaves the hit point
    /// reflected or refracted, without attenuation.
    pub open spec fn scattered_with(self, ray: Ray, rec: Hit, draw: Scalar) -> OnHit {
        let one = Scalar { bits: ONE_BITS };
        OnHit::Scatter {
            attenuation: Vector { x: one, y: one, z: one },
            scattered: Ray {
                origin: ray.point_at(rec.t),
                direction: if self.reflects(ray, rec, draw) {
                    ray.direction.mirrored(rec.normal)
                } else {
                    ray.direction.bent(rec.normal, self.relative_index(rec))
                },
            },
        }
    }

    pub fn new(refraction_index: Scalar) -> (r: Dielectric)
        ensures
            r.index() == refraction_index,
    {
        Dielectric { refraction_index }
    }

    pub fn reflectance(cosine: Scalar, refraction_index: Scalar) -> (r: Scalar)
        ensures
            r == Dielectric::schlick(cosine, refraction_index),
    {
        let one: Scalar = Scalar::from_bits(ONE_BITS);
        let r0 = (one - refraction_index) / (one + refraction_index);
        let r0 = r0 * r0;
        let base = one - cosine;
        let square = base * base;
        r0 + (one - r0) * (base * (square * square))
    }

    /// The ratio of indices and whether refraction is impossible.
    fn incidence(&self, ray: &Ray, rec: &Hit) -> (r: (Scalar, Scalar, bool))
        ensures
            r.0 == self.relative_index(*rec),
            r.1 == Dielectric::incidence_cosine(*ray, *rec),
            r.2 == self.total_reflection(*ray, *rec),
    {
        let one: Scalar = Scalar::from_bits(ONE_BITS);
        let ri = if rec.is_front {
            one / self.refraction_index
        } else {
            self.refraction_index
        };
        let cos_theta = (Scalar::from_bits(MINUS_ONE_BITS) * ray.direction).dot(rec.normal).min(
            one,
        );
        let sin_theta = (one - cos_theta * cos_theta).sqrt();
        let cannot_refract = (ri * sin_theta).gt(one);
        (ri, cos_theta, cannot_refract)
    }

    /// The scattered ray, given whether it is reflected.
    fn leave(&self, ray: &Ray, rec: &Hit, ri: Scalar, reflect: bool) -> (r: OnHit)
        ensures
            r == (OnHit::Scatter {
                attenuation: Vector {
                    x: Scalar { bits: ONE_BITS },
                    y: Scalar { bits: ONE_BITS },
                    z: Scalar { bits: ONE_BITS },
                },
                scattered: Ray {
                    origin: ray.point_at(rec.t),
                    direction: if reflect {
                        ray.direction.mirrored(rec.normal)
                    } else {
                        ray.direction.bent(rec.normal, ri)
                    },
                },
            }),
    {
        let one: Scalar = Scalar::from_bits(ONE_BITS);
        OnHit::Scatter {
            attenuation: Vector::new(one, one, one),
            scattered: Ray {
                origin: ray.at(rec.t),
                direction: if reflect {
                    ray.direction.reflect(rec.normal)
                } else {
                    ray.direction.refract(rec.normal, ri)
                },
            },
        }
    }

    pub fn scatter_with(&self, ray: &Ray, rec: &Hit, draw: Scalar) -> (r: OnHit)
        ensures
            r == self.scattered_with(*ray, *rec, draw),
    {
        let (ri, cos_theta, cannot_refract) = self.incidence(ray, rec);
        let reflect = cannot_refract || Dielectric::reflectance(cos_theta, ri).gt(draw);
        self.leave(ray, rec, ri, reflect)
    }
}

impl Material for Dielectric {
    open spec fn admits(&self, ray: Ray, rec: Hit, outcome: OnHit) -> bool {
        exists|draw: Scalar| is_draw(draw) && outcome == #[trigger] self.scattered_with(ray, rec, draw)
    }

    /// Draws only where refraction is possible.
    fn on_hit(&self, ray: &Ray, rec: &Hit, source: &mut RandomSource) -> (r: OnHit) {
        let (ri, cos_theta, cannot_refract) = self.incidence(ray, rec);
        if cannot_refract {
            let r = self.leave(ray, rec, ri, true);
            assert(is_draw(unit_of_word(0)));
            assert(r == self.scattered_with(*ray, *rec, unit_of_word(0)));
            r
        } else {
            let draw = source.next_unit();
            let reflect = Dielectric::reflectance(cos_theta, ri).gt(draw);
            let r = self.leave(ray, rec, ri, reflect);
            assert(r == self.scattered_with(*ray, *rec, draw));
            r
        }
    }
}

/// A source of light.
pub struct Light {
    color: Color,
}

impl Light {
    pub closed spec fn radiance(self) -> Color {
        self.color
    }

    pub fn new(color: Color) -> (r: Light)
        ensures
            r.radiance() == color,
    {
        Light { color }
    }
}

impl Material for Light {
    open spec fn admits(&self, ray: Ray, rec: Hit, outcome: OnHit) -> bool {
        outcome == (OnHit::Emitted { color: self.radiance() })
    }

    fn on_hit(&self, ray: &Ray, rec: &Hit, source: &mut RandomSource) -> (r: OnHit) {
        OnHit::Emitted { color: self.color }
    }
}

/// A shape with the material of its surface. Many objects may share one
/// material.
pub struct Object {
    pub shape: Box<dyn Hittable>,
    pub material: Arc<dyn Material>,
}

} // verus!
