use pathtracer::material::{Dielectric, Lambertian, Light, Material, Metal, OnHit};
use pathtracer::random::RandomSource;
use pathtracer::ray::{Hit, Ray};
use pathtracer::scalar::Scalar;
use pathtracer::vector::Vector;

fn s(x: f32) -> Scalar {
    Scalar::from_bits(x.to_bits())
}

fn f(x: Scalar) -> f32 {
    f32::from_bits(x.to_bits())
}

fn v(x: f32, y: f32, z: f32) -> Vector {
    Vector::new(s(x), s(y), s(z))
}

fn floats(a: Vector) -> [f32; 3] {
    [f(a.x), f(a.y), f(a.z)]
}

fn bits(a: Vector) -> [u32; 3] {
    [a.x.to_bits(), a.y.to_bits(), a.z.to_bits()]
}

fn unit(a: [f32; 3]) -> Vector {
    v(a[0], a[1], a[2]).normalize()
}

fn hit(t: f32, normal: [f32; 3], is_front: bool) -> Hit {
    Hit { t: s(t), normal: unit(normal), is_front }
}

fn scatter(outcome: OnHit) -> (Vector, Ray) {
    match outcome {
        OnHit::Scatter { attenuation, scattered } => (attenuation, scattered),
        _ => panic!("the ray was not scattered"),
    }
}

#[test]
fn lambertian_attenuates_by_its_albedo_and_leaves_from_the_hit_point() {
    let albedo = v(0.8, 0.3, 0.1);
    let material = Lambertian::new(albedo);
    let mut source = RandomSource::seeded(1);
    let rays = [
        (Ray::new(v(0.0, 0.0, 0.0), unit([0.0, 0.0, -1.0])), hit(1.5, [0.0, 0.0, 1.0], true)),
        (Ray::new(v(1.0, 2.0, 3.0), unit([1.0, -1.0, 0.5])), hit(0.25, [0.0, 1.0, 0.0], false)),
        (Ray::new(v(-4.0, 0.5, 0.0), unit([0.3, 0.2, 0.1])), hit(7.0, [1.0, 1.0, 1.0], true)),
    ];
    for (ray, rec) in rays.iter() {
        for _ in 0..200 {
            let (attenuation, scattered) = scatter(material.on_hit(ray, rec, &mut source));
            assert_eq!(bits(attenuation), bits(albedo));
            assert_eq!(bits(scattered.origin), bits(ray.at(rec.t)));
            let d = floats(scattered.direction);
            let length = (d[0] * d[0] + d[1] * d[1] + d[2] * d[2]).sqrt();
            assert!((length - 1.0).abs() < 1e-5);
        }
    }
}

#[test]
fn lambertian_scatters_along_normal_plus_unit() {
    let material = Lambertian::new(v(0.5, 0.5, 0.5));
    let ray = Ray::new(v(0.0, 0.0, 0.0), v(0.0, 0.0, -1.0));
    let rec = hit(2.0, [0.0, 0.0, 1.0], true);
    let (_, scattered) = scatter(material.scatter_along(&ray, &rec, v(1.0, 0.0, 0.0)));
    assert_eq!(bits(scattered.direction), bits(v(1.0, 0.0, 1.0).normalize()));
    assert_eq!(floats(scattered.origin), [0.0, 0.0, -2.0]);
}

#[test]
fn lambertian_falls_back_to_the_normal_when_the_sum_vanishes() {
    let material = Lambertian::new(v(0.5, 0.5, 0.5));
    let ray = Ray::new(v(0.0, 0.0, 0.0), v(0.0, 0.0, -1.0));
    let rec = hit(2.0, [0.0, 0.0, 1.0], true);
    let (_, scattered) = scatter(material.scatter_along(&ray, &rec, v(0.0, 0.0, -1.0)));
    assert_eq!(floats(scattered.direction), [0.0, 0.0, 1.0]);
}

#[test]
fn metal_without_fuzz_reflects_like_a_mirror() {
    let material = Metal::new(v(0.8, 0.6, 0.2), s(0.0));
    let mut source = RandomSource::seeded(2);
    let ray = Ray::new(v(0.0, 1.0, 0.0), unit([1.0, -1.0, 0.25]));
    let rec = hit(1.0, [0.0, 1.0, 0.0], true);
    let mirror = ray.direction.reflect(rec.normal);
    for _ in 0..100 {
        let (attenuation, scattered) = scatter(material.on_hit(&ray, &rec, &mut source));
        assert_eq!(floats(scattered.direction), floats(mirror));
        assert_eq!(bits(attenuation), bits(v(0.8, 0.6, 0.2)));
        assert_eq!(bits(scattered.origin), bits(ray.at(rec.t)));
    }
    let (_, scattered) = scatter(material.reflect_with(&ray, &rec, v(0.0, 0.0, 1.0)));
    assert_eq!(floats(scattered.direction), floats(mirror));
}

#[test]
fn metal_adds_fuzz_times_unit() {
    let material = Metal::new(v(1.0, 1.0, 1.0), s(0.5));
    let ray = Ray::new(v(0.0, 1.0, 0.0), v(1.0, -1.0, 0.0));
    let rec = hit(1.0, [0.0, 1.0, 0.0], true);
    let (_, scattered) = scatter(material.reflect_with(&ray, &rec, v(0.0, 0.0, 1.0)));
    assert_eq!(floats(scattered.direction), [1.0, 1.0, 0.5]);
}

#[test]
fn metal_keeps_fuzz_within_zero_and_one() {
    let ray = Ray::new(v(0.0, 1.0, 0.0), v(1.0, -1.0, 0.0));
    let rec = hit(1.0, [0.0, 1.0, 0.0], true);
    let rough = Metal::new(v(1.0, 1.0, 1.0), s(5.0));
    let (_, scattered) = scatter(rough.reflect_with(&ray, &rec, v(0.0, 0.0, 1.0)));
    assert_eq!(floats(scattered.direction), [1.0, 1.0, 1.0]);
    let smooth = Metal::new(v(1.0, 1.0, 1.0), s(-2.0));
    let (_, scattered) = scatter(smooth.reflect_with(&ray, &rec, v(0.0, 0.0, 1.0)));
    assert_eq!(floats(scattered.direction), [1.0, 1.0, 0.0]);
}

#[test]
fn metal_absorbs_what_points_into_the_surface() {
    let material = Metal::new(v(1.0, 1.0, 1.0), s(1.0));
    // a ray that leaves the surface is mirrored into it
    let ray = Ray::new(v(0.0, 0.0, 0.0), v(0.0, 1.0, 0.0));
    let rec = hit(1.0, [0.0, 1.0, 0.0], true);
    assert!(matches!(material.reflect_with(&ray, &rec, v(0.0, 0.0, 0.0)), OnHit::Absorbed));
    // a grazing ray, on the boundary: the dot product is 0, not above it
    let grazing = Ray::new(v(0.0, 0.0, 0.0), v(1.0, 0.0, 0.0));
    assert!(matches!(material.reflect_with(&grazing, &rec, v(0.0, 0.0, 0.0)), OnHit::Absorbed));
}

#[test]
fn dielectric_of_index_one_does_not_bend_the_ray() {
    let material = Dielectric::new(s(1.0));
    let directions = [[0.0, -1.0, 0.0], [1.0, -1.0, 0.0], [0.3, -0.2, 0.9], [-0.7, -0.1, 0.2]];
    for d in directions {
        let ray = Ray::new(v(0.0, 1.0, 0.0), unit(d));
        for front in [true, false] {
            let rec = hit(1.0, [0.0, 1.0, 0.0], front);
            // a draw that the reflected share does not exceed, so the ray is refracted
            let (attenuation, scattered) = scatter(material.scatter_with(&ray, &rec, s(1.0)));
            assert_eq!(floats(attenuation), [1.0, 1.0, 1.0]);
            assert_eq!(bits(scattered.origin), bits(ray.at(rec.t)));
            let got = floats(scattered.direction);
            let want = floats(ray.direction);
            for k in 0..3 {
                assert!((got[k] - want[k]).abs() < 1e-5, "{:?} against {:?}", got, want);
            }
        }
    }
}

#[test]
fn dielectric_reflects_where_the_draw_is_below_the_reflected_share() {
    let material = Dielectric::new(s(1.5));
    let ray = Ray::new(v(0.0, 1.0, 0.0), unit([1.0, -1.0, 0.0]));
    let rec = hit(1.0, [0.0, 1.0, 0.0], true);
    let (_, reflected) = scatter(material.scatter_with(&ray, &rec, s(0.0)));
    assert_eq!(bits(reflected.direction), bits(ray.direction.reflect(rec.normal)));
    let (_, refracted) = scatter(material.scatter_with(&ray, &rec, s(0.999)));
    let ri = s(1.0) / s(1.5);
    assert_eq!(bits(refracted.direction), bits(ray.direction.refract(rec.normal, ri)));
}

#[test]
fn dielectric_reflects_totally_at_a_flat_angle_from_inside() {
    let material = Dielectric::new(s(1.5));
    let ray = Ray::new(v(0.0, 1.0, 0.0), unit([1.0, -0.2, 0.0]));
    let rec = hit(1.0, [0.0, 1.0, 0.0], false);
    // whatever the draw
    for draw in [0.0f32, 0.5, 0.999_999_9] {
        let (_, scattered) = scatter(material.scatter_with(&ray, &rec, s(draw)));
        assert_eq!(bits(scattered.direction), bits(ray.direction.reflect(rec.normal)));
    }
    let mut source = RandomSource::seeded(4);
    let (_, scattered) = scatter(material.on_hit(&ray, &rec, &mut source));
    assert_eq!(bits(scattered.direction), bits(ray.direction.reflect(rec.normal)));
}

#[test]
fn dielectric_on_hit_reflects_or_refracts() {
    let material = Dielectric::new(s(1.5));
    let ray = Ray::new(v(0.0, 1.0, 0.0), unit([1.0, -1.0, 0.0]));
    let rec = hit(1.0, [0.0, 1.0, 0.0], true);
    let mirror = bits(ray.direction.reflect(rec.normal));
    let bent = bits(ray.direction.refract(rec.normal, s(1.0) / s(1.5)));
    let mut source = RandomSource::seeded(6);
    let (mut mirrored, mut refracted) = (0, 0);
    for _ in 0..2000 {
        let (attenuation, scattered) = scatter(material.on_hit(&ray, &rec, &mut source));
        assert_eq!(floats(attenuation), [1.0, 1.0, 1.0]);
        let d = bits(scattered.direction);
        if d == mirror {
            mirrored += 1;
        } else {
            assert_eq!(d, bent);
            refracted += 1;
        }
    }
    assert!(mirrored > 0 && refracted > mirrored);
}

#[test]
fn reflectance_is_schlick_s_estimate() {
    // r0 = ((1 - 1.5) / (1 + 1.5))^2 = 0.04; at cosine 1 nothing is added
    assert_eq!(
        Dielectric::reflectance(s(1.0), s(1.5)).to_bits(),
        ((1.0f32 - 1.5) / (1.0 + 1.5)).powi(2).to_bits()
    );
    // at cosine 0 everything is reflected
    assert_eq!(f(Dielectric::reflectance(s(0.0), s(1.5))), 1.0);
    let mut state: u64 = 5;
    let mut next = move || {
        state = state.wrapping_mul(6364136223846793005).wrapping_add(1442695040888963407);
        (state >> 40) as f32 / 16777216.0
    };
    for _ in 0..20_000 {
        let cosine = next();
        let index = next() * 2.0 + 0.3;
        let r0 = (1. - index) / (1. + index);
        let r0 = r0 * r0;
        let expected = r0 + (1. - r0) * (1. - cosine).powi(5);
        assert_eq!(Dielectric::reflectance(s(cosine), s(index)).to_bits(), expected.to_bits());
    }
}

#[test]
fn light_emits_its_colour_and_never_scatters() {
    let material = Light::new(v(5.0, 8.0, 10.0));
    let mut source = RandomSource::seeded(0);
    let ray = Ray::new(v(0.0, 0.0, 0.0), v(0.0, 0.0, -1.0));
    let rec = hit(1.0, [0.0, 0.0, 1.0], true);
    match material.on_hit(&ray, &rec, &mut source) {
        OnHit::Emitted { color } => assert_eq!(floats(color), [5.0, 8.0, 10.0]),
        _ => panic!("a light emits"),
    }
}
