//! The camera and the render driver: rays through pixels, the average of
//! their samples, and the pixel buffer.

use crate::color::{encoded, gamma};
use crate::random::{is_draw, RandomSource};
use crate::ray::{Interval, Ray};
use crate::scalar::{Scalar, ONE_BITS, TWO_BITS};
use crate::scene::{Scene, HALF_BITS};
use crate::vector::{Color, Point, Vector};
use vstd::prelude::*;

verus! {

/// Why a render was refused.
#[derive(Clone, Copy, Debug, PartialEq, Eq, Structural)]
pub enum RenderError {
    /// The image has no pixels, or no sample is asked for.
    InvalidConfiguration,
}

/// The camera as a render uses it: an orthonormal frame, the focal scale
/// and the centre of the image.
#[derive(Clone, Copy, Debug)]
pub struct Camera {
    pub position: Point,
    pub right: Vector,
    pub up: Vector,
    pub forward: Vector,
    pub focal: Scalar,
    pub half_width: Scalar,
    pub half_height: Scalar,
}

impl Camera {
    /// The ray from the camera through the pixel in `column` and `row`. The
    /// pixel lies `x = column - width / 2` to the right of the centre and
    /// `y = row - height / 2` below it; a jitter `(jx, jy)` moves it by
    /// `jx - 0.5` and `jy - 0.5`. The direction is
    /// `x * right - y * up + focal * forward`, normalized.
    pub open spec fn ray_through(self, column: u32, row: u32, jitter: Option<(Scalar, Scalar)>)
        -> Ray {
        let half = Scalar { bits: HALF_BITS };
        let x = Scalar::of_nat(column as nat).difference(self.half_width);
        let y = Scalar::of_nat(row as nat).difference(self.half_height);
        let px = match jitter {
            Some((jx, _)) => x.sum(jx).difference(half),
            None => x,
        };
        let py = match jitter {
            Some((_, jy)) => y.sum(jy).difference(half),
            None => y,
        };
        Ray {
            origin: self.position,
            direction: px.scaling(self.right).difference(py.scaling(self.up)).sum(
                self.focal.scaling(self.forward),
            ).normalized(),
        }
    }

    pub fn primary_ray(&self, column: u32, row: u32, jitter: Option<(Scalar, Scalar)>) -> (r: Ray)
        ensures
            r == self.ray_through(column, row, jitter),
    {
        let half: Scalar = Scalar::from_bits(HALF_BITS);
        let x = Scalar::from_u32(column) - self.half_width;
        let y = Scalar::from_u32(row) - self.half_height;
        let px = match jitter {
            Some((jx, _)) => x + jx - half,
            None => x,
        };
        let py = match jitter {
            Some((_, jy)) => y + jy - half,
            None => y,
        };
        Ray::new(
            self.position,
            (px * self.right - py * self.up + self.focal * self.forward).normalize(),
        )
    }
}

impl Scene {
    /// The camera of an image `width` by `height`: `right` is
    /// `forward x up` normalized, `up` is `right x forward` normalized, and
    /// the focal scale is the width over the tangent of half the field of
    /// camera.
    pub open spec fn camera_of(self, width: u32, height: u32) -> Camera {
        let two = Scalar { bits: TWO_BITS };
        let right = self.camera_direction.cross_product(self.camera_up).normalized();
        Camera {
            position: self.camera_position,
            right,
            up: right.cross_product(self.camera_direction).normalized(),
            forward: self.camera_direction,
            focal: Scalar::of_nat(width as nat).quotient(self.camera_fov_tangent),
            half_width: Scalar::of_nat(width as nat).quotient(two),
            half_height: Scalar::of_nat(height as nat).quotient(two),
        }
    }

    /// The weight of one sample in the average.
    pub open spec fn contribution(self) -> Scalar {
        Scalar { bits: ONE_BITS }.quotient(Scalar::of_nat(self.max_samples as nat))
    }

    /// A sum of samples with one more sample:
    /// `before + contribution * sample`.
    #[verifier::opaque]
    pub open spec fn blended(self, before: Color, sample: Color) -> Color {
        before.sum(self.contribution().scaling(sample))
    }

    /// The render can be made: the image has pixels and a sample is taken.
    pub open spec fn renders(self, width: u32, height: u32) -> bool {
        width > 0 && height > 0 && self.max_samples > 0
    }

    /// `jitter` is one that a sample of this scene may use: a pair of draws
    /// where several samples are averaged, none where one sample is taken.
    pub open spec fn jitters(self, jitter: Option<(Scalar, Scalar)>) -> bool {
        match jitter {
            Some((jx, jy)) => self.max_samples > 1 && is_draw(jx) && is_draw(jy),
            None => self.max_samples <= 1,
        }
    }

    /// `sample` is an estimate of the light through the pixel, along a ray
    /// moved by `jitter`.
    #[verifier::opaque]
    pub open spec fn samples(
        self,
        camera: Camera,
        column: u32,
        row: u32,
        jitter: Option<(Scalar, Scalar)>,
        sample: Color,
    ) -> bool {
        self.jitters(jitter) && self.radiates(
            camera.ray_through(column, row, jitter),
            Interval::tracing(),
            self.depth as nat,
            sample,
        )
    }

    /// `c` is a sum of `count` weighted samples of the pixel: black for
    /// none, and else a sum of one sample fewer, blended with one more.
    pub open spec fn accumulates(self, camera: Camera, column: u32, row: u32, count: nat, c: Color)
        -> bool
        decreases count,
    {
        if count == 0 {
            c == Vector::origin()
        } else {
            exists|before: Color, jitter: Option<(Scalar, Scalar)>, sample: Color|
                #![trigger self.samples(camera, column, row, jitter, sample), self.blended(before, sample)]
                {
                    &&& self.accumulates(camera, column, row, (count - 1) as nat, before)
                    &&& self.samples(camera, column, row, jitter, sample)
                    &&& c == self.blended(before, sample)
                }
        }
    }

    /// `pixel` is a value that the pixel may get: the encoding of an average
    /// of `max_samples` samples.
    pub open spec fn paints(self, camera: Camera, column: u32, row: u32, pixel: u32) -> bool {
        exists|c: Color| #[trigger]
            self.accumulates(camera, column, row, self.max_samples as nat, c) && pixel == encoded(c)
    }

    /// One more sample extends a sum.
    pub proof fn lemma_accumulates_step(
        self,
        camera: Camera,
        column: u32,
        row: u32,
        count: nat,
        before: Color,
        jitter: Option<(Scalar, Scalar)>,
        sample: Color,
    )
        requires
            self.accumulates(camera, column, row, count, before),
            self.samples(camera, column, row, jitter, sample),
        ensures
            self.accumulates(camera, column, row, count + 1, self.blended(before, sample)),
    {
        let c = self.blended(before, sample);
    }

    pub fn camera(&self, width: u32, height: u32) -> (r: Camera)
        ensures
            r == self.camera_of(width, height),
    {
        let two: Scalar = Scalar::from_bits(TWO_BITS);
        let camera_right = self.camera_direction.cross(self.camera_up).normalize();
        let camera_up = camera_right.cross(self.camera_direction).normalize();
        Camera {
            position: self.camera_position,
            right: camera_right,
            up: camera_up,
            forward: self.camera_direction,
            focal: Scalar::from_u32(width) / self.camera_fov_tangent,
            half_width: Scalar::from_u32(width) / two,
            half_height: Scalar::from_u32(height) / two,
        }
    }

    /// Refuses a render without pixels or without samples.
    pub fn check(&self, width: u32, height: u32) -> (r: Result<(), RenderError>)
        ensures
            r is Ok <==> self.renders(width, height),
            r is Err ==> r == Err::<(), RenderError>(RenderError::InvalidConfiguration),
    {
        if width == 0 || height == 0 || self.max_samples == 0 {
            Err(RenderError::InvalidConfiguration)
        } else {
            Ok(())
        }
    }

    /// The sum of the weighted samples of one pixel.
    pub fn sample_pixel(&self, camera: &Camera, column: u32, row: u32, source: &mut RandomSource) -> (c:
        Color)
        ensures
            self.accumulates(*camera, column, row, self.max_samples as nat, c),
    {
        let contribution = Scalar::from_bits(ONE_BITS) / Scalar::from_u32(self.max_samples);
        let interval = Interval::render_range();
        let mut vec_pixel = Vector::zero();
        let mut taken: u32 = 0;
        while taken < self.max_samples
            invariant
                taken <= self.max_samples,
                contribution == self.contribution(),
                interval == Interval::tracing(),
                self.accumulates(*camera, column, row, taken as nat, vec_pixel),
            decreases self.max_samples - taken,
        {
            let jitter: Option<(Scalar, Scalar)> = if self.max_samples > 1 {
                let jx = source.next_unit();
                let jy = source.next_unit();
                Some((jx, jy))
            } else {
                None
            };
            let ray = camera.primary_ray(column, row, jitter);
            let sample = self.trace(&ray, &interval, self.depth, source);
            proof {
                reveal(Scene::samples);
                reveal(Scene::blended);
                self.lemma_accumulates_step(
                    *camera,
                    column,
                    row,
                    taken as nat,
                    vec_pixel,
                    jitter,
                    sample,
                );
            }
            vec_pixel = vec_pixel + contribution * sample;
            taken = taken + 1;
        }
        vec_pixel
    }

    /// The value of one pixel.
    pub fn render_pixel(&self, camera: &Camera, column: u32, row: u32, source: &mut RandomSource) -> (pixel:
        u32)
        ensures
            self.paints(*camera, column, row, pixel),
            pixel <= 0xff_ffff,
    {
        let c = self.sample_pixel(camera, column, row, source);
        gamma(c)
    }

    /// Fills `buffer`, which holds the image row by row, with the pixels of
    /// the scene.
    pub fn render(
        &self,
        buffer: &mut Vec<u32>,
        width: u32,
        height: u32,
        source: &mut RandomSource,
    ) -> (r: Result<(), RenderError>)
        requires
            old(buffer)@.len() == width * height,
        ensures
            r is Ok <==> self.renders(width, height),
            r is Err ==> r == Err::<(), RenderError>(RenderError::InvalidConfiguration)
                && final(buffer)@ == old(buffer)@,
            r is Ok ==> final(buffer)@.len() == old(buffer)@.len(),
            r is Ok ==> forall|i: int|
                0 <= i < final(buffer)@.len() ==> #[trigger] self.paints(
                    self.camera_of(width, height),
                    (i % width as int) as u32,
                    (i / width as int) as u32,
                    final(buffer)@[i],
                ),
    {
        match self.check(width, height) {
            Err(e) => {
                return Err(e);
            },
            Ok(_) => {},
        }
        let camera = self.camera(width, height);
        let count: usize = buffer.len();
        let mut index: usize = 0;
        while index < count
            invariant
                index <= count,
                count == buffer@.len(),
                count == width * height,
                width > 0,
                camera == self.camera_of(width, height),
                forall|i: int|
                    0 <= i < index ==> #[trigger] self.paints(
                        camera,
                        (i % width as int) as u32,
                        (i / width as int) as u32,
                        buffer@[i],
                    ),
            decreases count - index,
        {
            proof {
                let i = index as int;
                let w = width as int;
                vstd::arithmetic::div_mod::lemma_fundamental_div_mod(i, w);
                vstd::arithmetic::div_mod::lemma_mod_bound(i, w);
                assert(i / w < height) by (nonlinear_arith)
                    requires
                        i == w * (i / w) + i % w,
                        0 <= i % w,
                        i < w * height,
                        w > 0,
                ;
                assert(i / w >= 0) by (nonlinear_arith)
                    requires
                        i == w * (i / w) + i % w,
                        i % w < w,
                        i >= 0,
                        w > 0,
                ;
            }
            let column: u32 = (index % width as usize) as u32;
            let row: u32 = (index / width as usize) as u32;
            let pixel = self.render_pixel(&camera, column, row, source);
            buffer.set(index, pixel);
            index = index + 1;
        }
        Ok(())
    }
}

} // verus!
