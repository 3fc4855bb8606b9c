use pathtracer::color::{color, gamma};
use pathtracer::material::{Lambertian, Light, Material, Object};
use pathtracer::random::RandomSource;
use pathtracer::ray::Interval;
use pathtracer::render::RenderError;
use pathtracer::scalar::Scalar;
use pathtracer::scene::{Background, Scene};
use pathtracer::shape::Sphere;
use pathtracer::vector::Vector;
use std::sync::Arc;

fn s(x: f32) -> Scalar {
    Scalar::from_bits(x.to_bits())
}

fn f(x: Scalar) -> f32 {
    f32::from_bits(x.to_bits())
}

fn v(x: f32, y: f32, z: f32) -> Vector {
    Vector::new(s(x), s(y), s(z))
}

fn floats(a: Vector) -> [f32; 3] {
    [f(a.x), f(a.y), f(a.z)]
}

fn ball(center: [f32; 3], radius: f32, material: Arc<dyn Material>) -> Object {
    Object {
        shape: Box::new(Sphere { center: v(center[0], center[1], center[2]), radius: s(radius) }),
        material,
    }
}

fn scene(objects: Vec<Object>, background: Background, samples: u32) -> Scene {
    Scene {
        camera_position: v(0.0, 0.0, 0.0),
        camera_direction: v(0.0, 0.0, -1.0),
        camera_up: v(0.0, 1.0, 0.0),
        camera_fov_tangent: s((3.0f32 * std::f32::consts::PI / 8.0).tan()),
        max_samples: samples,
        depth: 8,
        background,
        objects,
    }
}

fn sky() -> Background {
    Background::Gradient { low: v(1.0, 1.0, 1.0), high: v(0.5, 0.7, 1.0) }
}

fn diffuse_world(samples: u32) -> Scene {
    let ground: Arc<dyn Material> = Arc::new(Lambertian::new(v(0.8, 0.8, 0.8)));
    let lamp: Arc<dyn Material> = Arc::new(Light::new(v(5.0, 8.0, 10.0)));
    scene(
        vec![ball([0.0, -100.5, -1.0], 100.0, ground), ball([0.0, 0.5, -1.2], 0.5, lamp)],
        sky(),
        samples,
    )
}

#[test]
fn color_packs_three_channels() {
    assert_eq!(color(s(1.0), s(1.0), s(1.0)), 0xff_ffff);
    assert_eq!(color(s(0.0), s(0.0), s(0.0)), 0);
    assert_eq!(color(s(1.0), s(0.0), s(0.0)), 0xff_0000);
    assert_eq!(color(s(0.0), s(1.0), s(0.0)), 0x00_ff00);
    assert_eq!(color(s(0.0), s(0.0), s(1.0)), 0x00_00ff);
    // 0.5 * 255 = 127.5, without its fraction
    assert_eq!(color(s(0.5), s(0.25), s(0.125)), 0x7f_3f1f);
}

#[test]
fn color_keeps_channels_within_zero_and_one() {
    assert_eq!(color(s(2.0), s(-1.0), s(f32::INFINITY)), 0xff_00ff);
    assert_eq!(color(s(f32::NAN), s(1.0), s(f32::NEG_INFINITY)), 0x00_ff00);
    assert_eq!(color(s(0.999_999_94), s(-0.0), s(1e-30)), 0xfe_0000);
}

#[test]
fn gamma_takes_the_square_root_of_each_channel() {
    assert_eq!(gamma(v(1.0, 1.0, 1.0)), 0xff_ffff);
    assert_eq!(gamma(v(0.25, 0.0, 1.0)), 0x7f_00ff);
    assert_eq!(gamma(v(0.0625, 0.5, 4.0)), 0x3f_b4ff);
    // the root of a negative channel is a NaN, which gives 0
    assert_eq!(gamma(v(-1.0, 4.0, 0.0)), 0x00_ff00);
}

#[test]
fn gamma_matches_the_same_formula_in_hardware() {
    let mut state: u64 = 31;
    let mut next = move || {
        state = state.wrapping_mul(6364136223846793005).wrapping_add(1442695040888963407);
        (state >> 40) as f32 / 16777216.0 * 1.5 - 0.1
    };
    let channel = |x: f32| (x.sqrt().clamp(0., 1.) * 255.) as u32;
    for _ in 0..50_000 {
        let (r, g, b) = (next(), next(), next());
        let expected = channel(r) << 16 | channel(g) << 8 | channel(b);
        assert_eq!(gamma(v(r, g, b)), expected);
    }
}

#[test]
fn render_refuses_an_image_without_pixels_or_samples() {
    let mut source = RandomSource::seeded(1);
    let world = diffuse_world(4);
    let mut empty: Vec<u32> = Vec::new();
    assert_eq!(world.render(&mut empty, 0, 5, &mut source), Err(RenderError::InvalidConfiguration));
    assert_eq!(world.render(&mut empty, 5, 0, &mut source), Err(RenderError::InvalidConfiguration));
    assert_eq!(world.render(&mut empty, 0, 0, &mut source), Err(RenderError::InvalidConfiguration));
    let none = diffuse_world(0);
    let mut buffer = vec![7u32; 6];
    assert_eq!(none.render(&mut buffer, 3, 2, &mut source), Err(RenderError::InvalidConfiguration));
    assert_eq!(buffer, vec![7u32; 6]);
    assert_eq!(none.check(3, 2), Err(RenderError::InvalidConfiguration));
    assert_eq!(world.check(3, 2), Ok(()));
}

#[test]
fn render_without_bounces_is_black() {
    let mut world = diffuse_world(2);
    world.depth = 0;
    let mut source = RandomSource::seeded(1);
    let mut buffer = vec![7u32; 12];
    assert_eq!(world.render(&mut buffer, 4, 3, &mut source), Ok(()));
    assert_eq!(buffer, vec![0u32; 12]);
}

#[test]
fn render_fills_the_buffer_row_by_row() {
    // no objects: each pixel shows the sky along its own ray
    let world = scene(Vec::new(), sky(), 1);
    let (width, height) = (5u32, 4u32);
    let mut buffer = vec![0u32; 20];
    let mut source = RandomSource::seeded(1);
    assert_eq!(world.render(&mut buffer, width, height, &mut source), Ok(()));
    let camera = world.camera(width, height);
    for y in 0..height {
        for x in 0..width {
            let ray = camera.primary_ray(x, y, None);
            let expected = gamma(world.background.color_along(&ray));
            assert_eq!(buffer[(y * width + x) as usize], expected);
        }
    }
    // the sky changes with the row, so the rows differ
    assert_ne!(buffer[0], buffer[15]);
    // and every pixel fits 24 bits
    assert!(buffer.iter().all(|p| *p <= 0xff_ffff));
}

#[test]
fn camera_builds_an_orthonormal_frame() {
    let world = scene(Vec::new(), sky(), 1);
    let camera = world.camera(800, 450);
    assert_eq!(floats(camera.right), [1.0, 0.0, 0.0]);
    assert_eq!(floats(camera.up), [0.0, 1.0, 0.0]);
    assert_eq!(floats(camera.forward), [0.0, 0.0, -1.0]);
    assert_eq!(f(camera.half_width), 400.0);
    assert_eq!(f(camera.half_height), 225.0);
    assert_eq!(f(camera.focal), 800.0 / (3.0f32 * std::f32::consts::PI / 8.0).tan());
}

#[test]
fn primary_ray_points_through_the_pixel() {
    let mut world = scene(Vec::new(), sky(), 1);
    world.camera_fov_tangent = s(1.0);
    let camera = world.camera(4, 2);
    // the centre of the image lies on the axis
    let centre = camera.primary_ray(2, 1, None);
    assert_eq!(floats(centre.direction), [0.0, 0.0, -1.0]);
    assert_eq!(floats(centre.origin), [0.0, 0.0, 0.0]);
    // pixel (0, 0) lies 2 to the left and 1 up: (-2, 1, -4), normalized
    let corner = camera.primary_ray(0, 0, None);
    let d = floats(corner.direction);
    let n = (21.0f32).sqrt();
    assert_eq!(d, [-2.0 / n, 1.0 / n, -4.0 / n]);
    // a jitter of (0.5, 0.5) leaves the pixel where it is
    let same = camera.primary_ray(0, 0, Some((s(0.5), s(0.5))));
    assert_eq!(floats(same.direction), d);
    // a jitter of (1, 0) moves it by half a pixel to the right and up
    let moved = camera.primary_ray(0, 0, Some((s(1.0), s(0.0))));
    let m = (1.5f32 * 1.5 + 1.5 * 1.5 + 16.0).sqrt();
    assert_eq!(floats(moved.direction), [-1.5 / m, 1.5 / m, -4.0 / m]);
}

#[test]
fn one_sample_renders_are_identical() {
    let world = diffuse_world(1);
    let mut first = vec![0u32; 48];
    let mut second = vec![0u32; 48];
    assert_eq!(world.render(&mut first, 8, 6, &mut RandomSource::seeded(42)), Ok(()));
    assert_eq!(world.render(&mut second, 8, 6, &mut RandomSource::seeded(42)), Ok(()));
    assert_eq!(first, second);
    // where no material draws, the seed does not matter either
    let lamp: Arc<dyn Material> = Arc::new(Light::new(v(0.2, 0.4, 0.6)));
    let lit = scene(vec![ball([0.0, 0.0, -2.0], 1.0, lamp)], sky(), 1);
    assert_eq!(lit.render(&mut first, 8, 6, &mut RandomSource::seeded(1)), Ok(()));
    assert_eq!(lit.render(&mut second, 8, 6, &mut RandomSource::seeded(2)), Ok(()));
    assert_eq!(first, second);
    assert!(first.iter().any(|p| *p == gamma(v(0.2, 0.4, 0.6))));
}

#[test]
fn one_sample_is_the_trace_of_the_unjittered_ray() {
    let lamp: Arc<dyn Material> = Arc::new(Light::new(v(0.2, 0.4, 0.6)));
    let lit = scene(vec![ball([0.0, 0.0, -2.0], 1.0, lamp)], sky(), 1);
    let camera = lit.camera(8, 6);
    let mut source = RandomSource::seeded(5);
    for (x, y) in [(0u32, 0u32), (4, 3), (7, 5), (3, 1)] {
        let ray = camera.primary_ray(x, y, None);
        let traced = lit.trace(&ray, &Interval::render_range(), lit.depth, &mut source);
        let sampled = lit.sample_pixel(&camera, x, y, &mut source);
        assert_eq!(floats(sampled), floats(traced));
        assert_eq!(lit.render_pixel(&camera, x, y, &mut source), gamma(traced));
    }
}

#[test]
fn many_samples_average_single_samples() {
    let single = diffuse_world(1);
    let many = diffuse_world(512);
    let (width, height) = (8u32, 6u32);
    // a pixel that looks at the ground, lit by the lamp above it
    let (x, y) = (4u32, 5u32);
    let mut source = RandomSource::seeded(17);
    let camera = many.camera(width, height);
    let averaged = floats(many.sample_pixel(&camera, x, y, &mut source));
    let mut mean = [0.0f32; 3];
    let trials = 4096;
    let camera = single.camera(width, height);
    for _ in 0..trials {
        let c = floats(single.sample_pixel(&camera, x, y, &mut source));
        for k in 0..3 {
            mean[k] += c[k] / trials as f32;
        }
    }
    for k in 0..3 {
        assert!(
            (averaged[k] - mean[k]).abs() < 0.25 * mean[k].max(0.2),
            "{:?} against {:?}",
            averaged,
            mean
        );
    }
}

#[test]
fn constant_samples_average_to_the_constant() {
    // every sample is the light itself: 4 * (0.25 * c) = c
    let lamp: Arc<dyn Material> = Arc::new(Light::new(v(0.5, 0.25, 1.0)));
    let lit = scene(vec![ball([0.0, 0.0, -2.0], 1.9, lamp)], sky(), 4);
    let camera = lit.camera(4, 4);
    let mut source = RandomSource::seeded(23);
    let c = lit.sample_pixel(&camera, 2, 2, &mut source);
    assert_eq!(floats(c), [0.5, 0.25, 1.0]);
}
