//! The scene: its objects, the search for the nearest hit, and the
//! estimate of the light that arrives along a ray.

use crate::material::{Object, OnHit};
use crate::random::RandomSource;
use crate::ray::{Hit, Interval, Ray};
use crate::scalar::{Scalar, ONE_BITS};
use crate::shape::{Hittable, Sphere};
use crate::vector::{Color, Point, Vector};
use vstd::prelude::*;

verus! {

/// The pattern of 0.5.
pub const HALF_BITS: u32 = 0x3f00_0000;

/// What a ray sees that hits nothing.
#[derive(Clone, Copy, Debug)]
pub enum Background {
    /// One colour in every direction.
    Flat { color: Color },
    /// A blend from `low`, seen straight down, to `high`, seen straight up.
    Gradient { low: Color, high: Color },
}

impl Background {
    /// The colour seen along `ray`. For a gradient, with
    /// `a = 0.5 * (direction.y + 1)`, it is `(1 - a) * low + a * high`.
    pub open spec fn seen_along(self, ray: Ray) -> Color {
        match self {
            Background::Flat { color } => color,
            Background::Gradient { low, high } => {
                let one = Scalar { bits: ONE_BITS };
                let a = Scalar { bits: HALF_BITS }.product(ray.direction.y.sum(one));
                one.difference(a).scaling(low).sum(a.scaling(high))
            },
        }
    }

    pub fn color_along(&self, ray: &Ray) -> (c: Color)
        ensures
            c == self.seen_along(*ray),
    {
        match self {
            Background::Flat { color } => *color,
            Background::Gradient { low, high } => {
                let one: Scalar = Scalar::from_bits(ONE_BITS);
                let a = Scalar::from_bits(HALF_BITS) * (ray.direction.y + one);
                (one - a) * *low + a * *high
            },
        }
    }
}

/// The nearest hit among the first `n` objects, with the index of the object
/// hit. The objects are asked in order, each within the range that ends at
/// the best hit so far, and a hit replaces the best only where its parameter
/// is strictly smaller: of two objects hit at the same parameter the earlier
/// one stays.
pub open spec fn nearest_among(objects: Seq<Object>, ray: Ray, interval: Interval, n: nat)
    -> Option<(Hit, int)>
    decreases n,
{
    if n == 0 {
        None
    } else {
        let before = nearest_among(objects, ray, interval, (n - 1) as nat);
        let bound = search_bound(before, interval);
        match objects[n - 1].shape.intersection(ray, Interval { min: interval.min, max: bound }) {
            Some(hit) => if hit.t.less(bound) {
                Some((hit, n - 1))
            } else {
                before
            },
            None => before,
        }
    }
}

/// The upper end of the range in which the next object is asked.
pub open spec fn search_bound(best: Option<(Hit, int)>, interval: Interval) -> Scalar {
    match best {
        Some((hit, _)) => hit.t,
        None => interval.max,
    }
}

/// The colour `c` that comes of an answer of a material, where `inner` is
/// the estimate along the scattered ray: black for an absorbed ray, the
/// emitted colour as it is, and `inner * attenuation` for a scattered ray.
pub open spec fn settles(outcome: OnHit, inner: Color, c: Color) -> bool {
    match outcome {
        OnHit::Absorbed => c == Vector::origin(),
        OnHit::Emitted { color } => c == color,
        OnHit::Scatter { attenuation, .. } => c == inner.product(attenuation),
    }
}

/// The search never hands out an index beyond the objects it asked.
pub proof fn lemma_nearest_index(objects: Seq<Object>, ray: Ray, interval: Interval, n: nat)
    ensures
        nearest_among(objects, ray, interval, n) matches Some((_, index)) ==> 0 <= index < n,
    decreases n,
{
    if n > 0 {
        lemma_nearest_index(objects, ray, interval, (n - 1) as nat);
    }
}

/// A hit, once found, is replaced only by a strictly nearer one: of two
/// objects hit at the same parameter the one listed first stays.
pub proof fn lemma_nearest_improves(
    objects: Seq<Object>,
    ray: Ray,
    interval: Interval,
    m: nat,
    n: nat,
)
    requires
        m <= n,
    ensures
        nearest_among(objects, ray, interval, m) matches Some((early, first)) ==> (nearest_among(
            objects,
            ray,
            interval,
            n,
        ) matches Some((late, last)) && ((late == early && last == first) || (late.t.less(early.t)
            && first < last))),
    decreases n,
{
    if m < n {
        lemma_nearest_improves(objects, ray, interval, m, (n - 1) as nat);
        lemma_nearest_index(objects, ray, interval, m);
        lemma_nearest_index(objects, ray, interval, (n - 1) as nat);
    }
}

/// Of two objects, the one listed second wins where its hit, within the
/// range that the first hit leaves, is strictly nearer.
pub proof fn lemma_nearer_second_wins(
    objects: Seq<Object>,
    ray: Ray,
    interval: Interval,
    first: Hit,
    second: Hit,
)
    requires
        objects.len() == 2,
        objects[0].shape.intersection(ray, interval) == Some(first),
        first.t.less(interval.max),
        objects[1].shape.intersection(ray, Interval { min: interval.min, max: first.t }) == Some(
            second,
        ),
        second.t.less(first.t),
    ensures
        nearest_among(objects, ray, interval, 2) == Some((second, 1int)),
{
    reveal_with_fuel(nearest_among, 3);
    assert(nearest_among(objects, ray, interval, 0) is None);
    assert(nearest_among(objects, ray, interval, 1) == Some((first, 0int)));
}

/// Two spheres whose near roots lie in the range: the sphere with the
/// strictly smaller near root is hit, though the other is listed first.
pub proof fn lemma_nearer_sphere_wins(
    objects: Seq<Object>,
    far: Sphere,
    near: Sphere,
    ray: Ray,
    interval: Interval,
)
    requires
        objects.len() == 2,
        forall|range: Interval| #[trigger]
            objects[0].shape.intersection(ray, range) == far.intersection(ray, range),
        forall|range: Interval| #[trigger]
            objects[1].shape.intersection(ray, range) == near.intersection(ray, range),
        !far.misses(ray),
        !near.misses(ray),
        interval.encloses(far.near_root(ray)),
        interval.encloses(near.near_root(ray)),
        near.near_root(ray).less(far.near_root(ray)),
    ensures
        nearest_among(objects, ray, interval, 2) == Some((near.front_hit(ray), 1int)),
{
    let first = far.front_hit(ray);
    let second = near.front_hit(ray);
    let rest = Interval { min: interval.min, max: first.t };
    assert(objects[0].shape.intersection(ray, interval) == far.intersection(ray, interval));
    assert(objects[1].shape.intersection(ray, rest) == near.intersection(ray, rest));
    assert(rest.encloses(near.near_root(ray)));
    lemma_nearer_second_wins(objects, ray, interval, first, second);
}

/// Two spheres whose near roots lie in the range: the sphere with the
/// strictly smaller near root is hit also where it is listed first.
pub proof fn lemma_nearer_sphere_stays(
    objects: Seq<Object>,
    near: Sphere,
    far: Sphere,
    ray: Ray,
    interval: Interval,
)
    requires
        objects.len() == 2,
        forall|range: Interval| #[trigger]
            objects[0].shape.intersection(ray, range) == near.intersection(ray, range),
        forall|range: Interval| #[trigger]
            objects[1].shape.intersection(ray, range) == far.intersection(ray, range),
        !far.misses(ray),
        !near.misses(ray),
        interval.encloses(far.near_root(ray)),
        interval.encloses(near.near_root(ray)),
        near.near_root(ray).less(far.near_root(ray)),
    ensures
        nearest_among(objects, ray, interval, 2) == Some((near.front_hit(ray), 0int)),
{
    reveal_with_fuel(nearest_among, 3);
    let first = near.front_hit(ray);
    let rest = Interval { min: interval.min, max: first.t };
    assert(objects[0].shape.intersection(ray, interval) == near.intersection(ray, interval));
    assert(objects[1].shape.intersection(ray, rest) == far.intersection(ray, rest));
    far.lemma_roots_ordered(ray);
    assert(!rest.encloses(far.near_root(ray)));
    assert(!rest.encloses(far.far_root(ray)));
    assert(nearest_among(objects, ray, interval, 0) is None);
    assert(nearest_among(objects, ray, interval, 1) == Some((first, 0int)));
}

pub struct Scene {
    pub camera_position: Point,
    pub camera_direction: Vector,
    pub camera_up: Vector,
    /// The tangent of half the field of view.
    pub camera_fov_tangent: Scalar,
    pub max_samples: u32,
    pub depth: u32,
    pub background: Background,
    pub objects: Vec<Object>,
}

impl Scene {
    /// The nearest hit of `ray` within `interval` among all objects.
    pub open spec fn nearest(self, ray: Ray, interval: Interval) -> Option<(Hit, int)> {
        nearest_among(self.objects@, ray, interval, self.objects@.len())
    }

    /// `c` is a colour that light arriving along `ray` may be estimated at,
    /// with `depth` bounces left. With none left it is black. A ray that
    /// hits nothing sees the background. Otherwise the material of the
    /// nearest hit answers: absorbed is black, emitted light is returned as
    /// it is, and a scattered ray is estimated with one bounce fewer and
    /// multiplied by the attenuation.
    pub open spec fn radiates(self, ray: Ray, interval: Interval, depth: nat, c: Color) -> bool
        decreases depth,
    {
        if depth == 0 {
            c == Vector::origin()
        } else {
            match self.nearest(ray, interval) {
                None => c == self.background.seen_along(ray),
                Some((hit, index)) => exists|outcome: OnHit, inner: Color|
                    #![trigger self.objects@[index].material.admits(ray, hit, outcome), settles(outcome, inner, c)]
                    {
                        &&& self.objects@[index].material.admits(ray, hit, outcome)
                        &&& outcome matches OnHit::Scatter { scattered, .. } ==> self.radiates(
                            scattered,
                            interval,
                            (depth - 1) as nat,
                            inner,
                        )
                        &&& settles(outcome, inner, c)
                    },
            }
        }
    }

    /// The nearest hit of `ray` within `interval`, with the index of the
    /// object hit.
    pub fn intersect(&self, ray: &Ray, interval: &Interval) -> (r: Option<(Hit, usize)>)
        ensures
            match r {
                Some((hit, index)) => self.nearest(*ray, *interval) == Some((hit, index as int))
                    && index < self.objects@.len(),
                None => self.nearest(*ray, *interval) is None,
            },
    {
        let mut best: Option<(Hit, usize)> = None;
        let mut i: usize = 0;
        while i < self.objects.len()
            invariant
                i <= self.objects@.len(),
                match best {
                    Some((hit, index)) => nearest_among(self.objects@, *ray, *interval, i as nat)
                        == Some((hit, index as int)) && index < i,
                    None => nearest_among(self.objects@, *ray, *interval, i as nat) is None,
                },
            decreases self.objects@.len() - i,
        {
            let t_min: Scalar = match best {
                Some((hit, _)) => hit.t,
                None => interval.max,
            };
            match self.objects[i].shape.hit(ray, &Interval::new(interval.min, t_min)) {
                None => {},
                Some(h) => {
                    if h.t.lt(t_min) {
                        best = Some((h, i));
                    }
                },
            }
            i = i + 1;
        }
        best
    }

    /// A colour that comes of an admitted answer of the material at the
    /// nearest hit is one that the scene radiates.
    pub proof fn lemma_radiates_from_hit(
        self,
        ray: Ray,
        interval: Interval,
        depth: nat,
        hit: Hit,
        index: int,
        outcome: OnHit,
        inner: Color,
        c: Color,
    )
        requires
            depth > 0,
            self.nearest(ray, interval) == Some((hit, index)),
            self.objects@[index].material.admits(ray, hit, outcome),
            outcome matches OnHit::Scatter { scattered, .. } ==> self.radiates(
                scattered,
                interval,
                (depth - 1) as nat,
                inner,
            ),
            settles(outcome, inner, c),
        ensures
            self.radiates(ray, interval, depth, c),
    {
        assert(self.radiates(ray, interval, depth, c) == (match self.nearest(ray, interval) {
            None => c == self.background.seen_along(ray),
            Some((hit, index)) => exists|outcome: OnHit, inner: Color|
                #![trigger self.objects@[index].material.admits(ray, hit, outcome), settles(outcome, inner, c)]
                {
                    &&& self.objects@[index].material.admits(ray, hit, outcome)
                    &&& outcome matches OnHit::Scatter { scattered, .. } ==> self.radiates(
                        scattered,
                        interval,
                        (depth - 1) as nat,
                        inner,
                    )
                    &&& settles(outcome, inner, c)
                },
        }));
    }

    /// Estimates the light that arrives along `ray`, following it for at
    /// most `depth` bounces.
    pub fn trace(&self, ray: &Ray, interval: &Interval, depth: u32, source: &mut RandomSource) -> (c:
        Color)
        ensures
            self.radiates(*ray, *interval, depth as nat, c),
            depth == 0 ==> c == Vector::origin(),
        decreases depth,
    {
        if depth == 0 {
            return Vector::zero();
        }
        match self.intersect(ray, interval) {
            None => self.background.color_along(ray),
            Some((hit, index)) => {
                let outcome = self.objects[index].material.on_hit(ray, &hit, source);
                match outcome {
                    OnHit::Absorbed => {
                        let c = Vector::zero();
                        proof {
                            self.lemma_radiates_from_hit(
                                *ray,
                                *interval,
                                depth as nat,
                                hit,
                                index as int,
                                outcome,
                                c,
                                c,
                            );
                        }
                        c
                    },
                    OnHit::Emitted { color } => {
                        proof {
                            self.lemma_radiates_from_hit(
                                *ray,
                                *interval,
                                depth as nat,
                                hit,
                                index as int,
                                outcome,
                                color,
                                color,
                            );
                        }
                        color
                    },
                    OnHit::Scatter { attenuation, scattered } => {
                        let inner = self.trace(&scattered, interval, depth - 1, source);
                        let c = inner * attenuation;
                        proof {
                            self.lemma_radiates_from_hit(
                                *ray,
                                *interval,
                                depth as nat,
                                hit,
                                index as int,
                                outcome,
                                inner,
                                c,
                            );
                        }
                        c
                    },
                }
            },
        }
    }
}

} // verus!
