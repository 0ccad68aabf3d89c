//! What one run of the ray caster is set up with: a circle of ray origins
//! about a target pixel, and the canvas that holds the circle.

use rand::rngs::StdRng;
use rand::seq::SliceRandom;
use rand::SeedableRng;
use vstd::prelude::*;
use crate::pixel_math::circle::{iter_pixels_in_circle, pixels_on_circle};
use crate::pixel_math::circle_laws::{lemma_circle_no_duplicates, lemma_circle_pixels_near_radius};
use crate::pixel_math::vector::{Coord, Point};

verus! {

/// The order in which `SliceRandom::shuffle` leaves `pixels` when it draws
/// from a `rand::rngs::StdRng` that `SeedableRng::seed_from_u64` has made
/// from `seed`.
pub uninterp spec fn seeded_shuffle(seed: u64, pixels: Seq<Point>) -> Seq<Point>;

/// Draws a seed with `rand::random`, which asks the generator of the
/// current thread. Nothing is claimed of the number drawn. (The generator is
/// seeded from the operating system when a thread first uses it, and `rand`
/// panics if the system hands out no random bytes then.)
#[verifier::external_body]
fn random_seed() -> (seed: u64) {
    rand::random::<u64>()
}

/// Shuffles `pixels` in place with `SliceRandom::shuffle`, drawing from a
/// `rand::rngs::StdRng` made by `SeedableRng::seed_from_u64(seed)`.
///
/// The generator is a function of the seed, and the shuffle draws from it
/// against the length of the slice alone, so the order that comes out is a
/// function of the seed and the slice. The shuffle only exchanges elements
/// of the slice with each other: afterwards `pixels` holds what it held
/// before, each pixel as often as before.
#[verifier::external_body]
fn shuffle_seeded(pixels: &mut Vec<Point>, seed: u64)
    ensures
        final(pixels)@ == seeded_shuffle(seed, old(pixels)@),
        final(pixels)@.to_multiset() == old(pixels)@.to_multiset(),
{
    let mut rng = StdRng::seed_from_u64(seed);
    pixels.shuffle(&mut rng);
}

/// The pixels whose models `coords` holds.
pub open spec fn points_of(coords: Seq<Coord>) -> Seq<Point> {
    coords.map_values(|q: Coord| Point { x: q.x as i32, y: q.y as i32 })
}

/// The largest radius of a run: the canvas of `2 * radius + 1` pixels a side
/// must lie within the range of pixel addresses.
pub const MAX_RADIUS: usize = 0x3fff_ffff;

/// The set-up of one run.
pub struct RaycastConfig {
    /// The radius of the circle of origins.
    pub radius: usize,
    /// The centre of the circle, at which every ray is aimed.
    pub target_pixel: Point,
    /// The pixels of the circle, in the order in which their rays are cast.
    pub origin_pixels: Vec<Point>,
    /// The number of rays.
    pub total_rays: usize,
    /// The side of the square canvas, in pixels.
    pub output_dim: usize,
}

impl RaycastConfig {
    /// Whether `q` is a pixel of the canvas.
    pub open spec fn on_canvas(&self, q: Coord) -> bool {
        0 <= q.x < self.output_dim && 0 <= q.y < self.output_dim
    }

    /// Whether the set-up is consistent: the target is the middle of the
    /// canvas, and the origins are the pixels of the circle about it, each
    /// once, in some order.
    pub open spec fn wf(&self) -> bool {
        &&& self.radius <= MAX_RADIUS
        &&& self.output_dim == 2 * self.radius + 1
        &&& self.target_pixel@ == Coord { x: self.radius as int, y: self.radius as int }
        &&& self.total_rays == self.origin_pixels.len()
        &&& self.origin_pixels@.to_multiset() == self.circle_origins().to_multiset()
    }

    /// The origins as they stand in the order of the circle.
    pub open spec fn circle_origins(&self) -> Seq<Point> {
        points_of(pixels_on_circle(self.radius as int, self.target_pixel@))
    }

    /// The circle of origins, unshuffled.
    fn build(radius: usize) -> (config: RaycastConfig)
        requires
            radius <= MAX_RADIUS,
        ensures
            config.wf(),
            config.radius == radius,
            config.origin_pixels@ == config.circle_origins(),
    {
        let center = Point::new(radius as i32, radius as i32);
        let ghost circle = pixels_on_circle(radius as int, center@);
        let mut pixels = iter_pixels_in_circle(radius as i32, center);
        let mut origin_pixels: Vec<Point> = Vec::new();
        loop
            invariant
                origin_pixels.deep_view() + pixels.remaining() =~= circle,
            ensures
                pixels.remaining().len() == 0,
            decreases pixels.remaining().len(),
        {
            let ghost before = origin_pixels.deep_view();
            let ghost rest = pixels.remaining();
            match pixels.next() {
                Some(p) => {
                    origin_pixels.push(p);
                    assert(origin_pixels.deep_view() =~= before.push(rest.first()));
                    assert(before.push(rest.first()) + rest.drop_first() =~= before + rest);
                },
                None => {
                    break ;
                },
            }
        }
        assert(origin_pixels.deep_view() =~= origin_pixels.deep_view() + pixels.remaining());
        assert(origin_pixels@ =~= points_of(origin_pixels.deep_view()));
        RaycastConfig {
            radius,
            target_pixel: center,
            total_rays: origin_pixels.len(),
            origin_pixels,
            output_dim: radius * 2 + 1,
        }
    }

    /// Shuffles the origins into the order that `seed` decides: the same
    /// seed, on the same origins, gives the same order again.
    pub fn shuffle_origins(&mut self, seed: u64)
        requires
            old(self).wf(),
        ensures
            final(self).wf(),
            final(self).radius == old(self).radius,
            final(self).origin_pixels@ == seeded_shuffle(seed, old(self).origin_pixels@),
    {
        shuffle_seeded(&mut self.origin_pixels, seed);
        proof {
            vstd::seq_lib::to_multiset_len(old(self).origin_pixels@);
            vstd::seq_lib::to_multiset_len(self.origin_pixels@);
        }
    }

    /// The set-up for the circle of radius `radius`. The origins stand in
    /// the order of the circle, or, if `randomize_origins` is set, in the
    /// order that a seed drawn at random decides.
    pub fn new(radius: usize, randomize_origins: bool) -> (config: RaycastConfig)
        requires
            radius <= MAX_RADIUS,
        ensures
            config.wf(),
            config.radius == radius,
            !randomize_origins ==> config.origin_pixels@ == config.circle_origins(),
            randomize_origins ==> exists|seed: u64|
                config.origin_pixels@ == seeded_shuffle(seed, config.circle_origins()),
    {
        let mut config = RaycastConfig::build(radius);
        if randomize_origins {
            let seed = random_seed();
            config.shuffle_origins(seed);
            assert(config.origin_pixels@ == seeded_shuffle(seed, config.circle_origins()));
        }
        config
    }

    /// In a consistent set-up no origin occurs twice, there are as many
    /// origins as the circle has pixels, every origin is a pixel of the
    /// circle, and the origins lie on the canvas, as does the target.
    pub proof fn lemma_origins(&self, i: int)
        requires
            self.wf(),
            0 <= i < self.origin_pixels.len(),
        ensures
            self.origin_pixels.deep_view().no_duplicates(),
            self.origin_pixels.len() == pixels_on_circle(
                self.radius as int,
                self.target_pixel@,
            ).len(),
            pixels_on_circle(self.radius as int, self.target_pixel@).contains(
                self.origin_pixels[i]@,
            ),
            self.on_canvas(self.origin_pixels[i]@),
            self.on_canvas(self.target_pixel@),
    {
        broadcast use vstd::seq_lib::group_to_multiset_ensures;

        let circle = pixels_on_circle(self.radius as int, self.target_pixel@);
        let unshuffled = self.circle_origins();
        let origins = self.origin_pixels@;
        assert forall|j: int| 0 <= j < circle.len() implies (#[trigger] unshuffled[j])@
            == circle[j] by {
            lemma_circle_pixels_near_radius(self.radius as int, self.target_pixel@, j);
        }
        lemma_circle_no_duplicates(self.radius as int, self.target_pixel@);
        assert forall|j: int, k: int|
            0 <= j < unshuffled.len() && 0 <= k < unshuffled.len() && j != k implies unshuffled[j]
            != unshuffled[k] by {
            assert(unshuffled[j]@ != unshuffled[k]@);
        }
        unshuffled.lemma_multiset_has_no_duplicates();
        origins.lemma_multiset_has_no_duplicates_conv();
        assert forall|j: int, k: int|
            0 <= j < origins.len() && 0 <= k < origins.len() && j != k implies self.origin_pixels.deep_view()[j]
            != self.origin_pixels.deep_view()[k] by {
            assert(origins[j] != origins[k]);
            assert(origins[j].x != origins[k].x || origins[j].y != origins[k].y);
        }
        vstd::seq_lib::to_multiset_len(unshuffled);
        vstd::seq_lib::to_multiset_len(origins);
        assert(origins.contains(origins[i]));
        assert(unshuffled.to_multiset().count(origins[i]) > 0);
        assert(unshuffled.contains(origins[i]));
        let j = choose|j: int| 0 <= j < unshuffled.len() && unshuffled[j] == origins[i];
        assert(circle[j] == origins[i]@);
        lemma_circle_pixels_near_radius(self.radius as int, self.target_pixel@, j);
    }
}

} // verus!
