//! The pixels of a circle.
//!
//! One eighth of the circle, the arc in octant zero, is stepped row by row
//! from the x axis up to the diagonal. The other seven eighths are images of
//! that arc under the symmetries of the octants.

use vstd::prelude::*;
use crate::pixel_math::circle_laws::lemma_octant_arc_rows;
use crate::pixel_math::octant::{OctantRotation, OctantZeroVector};
use crate::pixel_math::vector::{Coord, Point, Vector};

verus! {

/// The pixel that follows `p` on an arc: one row up, and one column to the
/// left if `p` lies outside the circle whose squared radius is `bound`.
pub open spec fn arc_step(bound: int, p: Coord) -> Coord {
    Coord {
        x: if p.x * p.x + p.y * p.y > bound {
            p.x - 1
        } else {
            p.x
        },
        y: p.y + 1,
    }
}

/// The arc that begins at `p` and ends where it leaves octant zero.
pub open spec fn arc_from(bound: int, p: Coord) -> Seq<Coord>
    decreases p.x - p.y + 2,
{
    if p.in_octant_zero() {
        seq![p] + arc_from(bound, arc_step(bound, p))
    } else {
        Seq::empty()
    }
}

/// The arc of the circle of radius `r` in octant zero, from the x axis up.
/// It is stepped against the circle of radius `r + 1/2`, whose squared
/// radius rounds down to `r * (r + 1)`.
pub open spec fn octant_arc(r: int) -> Seq<Coord> {
    arc_from(r * (r + 1), Coord { x: r, y: 0 })
}

/// Whether `q`, a pixel above the x axis, has the pixel one row below it
/// inside the circle whose squared radius is `bound`, and the right-hand
/// neighbour of that pixel outside.
pub open spec fn hugs_circle(bound: int, q: Coord) -> bool {
    q.x * q.x + (q.y - 1) * (q.y - 1) <= bound < (q.x + 1) * (q.x + 1) + (q.y - 1) * (q.y - 1)
}

/// Whether `q`, a vector of octant zero, is a pixel of the arc of radius `r`:
/// on the x axis the pixel at distance `r`; in a row above it the rightmost
/// pixel whose lower neighbour lies within `r + 1/2` of the centre.
pub open spec fn on_octant_arc(r: int, q: Coord) -> bool {
    if q.y == 0 {
        q.x == r
    } else {
        0 < q.y <= q.x && hugs_circle(r * (r + 1), q)
    }
}

/// Whether every pixel at most `reach` columns and rows from `c` has an
/// address that an `i32` holds.
pub open spec fn square_fits(c: Coord, reach: int) -> bool {
    &&& (Coord { x: c.x - reach, y: c.y - reach }).fits_i32()
    &&& (Coord { x: c.x + reach, y: c.y + reach }).fits_i32()
}

/// How many pixels of an arc are mirrored into the second octant of a
/// quadrant: all but the first, which lies on an axis and opens the next
/// quadrant, and but the last where it lies on the diagonal, which is its
/// own mirror image.
pub open spec fn reflected_end(arc: Seq<Coord>) -> int {
    if arc.len() == 0 {
        0
    } else if arc.last().x == arc.last().y {
        if arc.len() >= 2 {
            arc.len() - 2
        } else {
            0
        }
    } else {
        arc.len() - 1
    }
}

/// The image of the whole arc under `to`, about the centre `c`.
pub open spec fn primary_run(arc: Seq<Coord>, c: Coord, to: OctantRotation) -> Seq<Coord> {
    Seq::new(arc.len(), |j: int| c.plus(arc[j].rotate_to(to)))
}

/// The image under `to`, about the centre `c`, of the pixels of the arc that
/// are mirrored, walked from the diagonal down to the axis.
pub open spec fn reflected_run(arc: Seq<Coord>, c: Coord, to: OctantRotation) -> Seq<Coord> {
    Seq::new(
        reflected_end(arc) as nat,
        |i: int| c.plus(arc[reflected_end(arc) - i].rotate_to(to)),
    )
}

/// One quadrant of a circle: the arc under the rotation `primary`, then its
/// mirror image under `reflected`.
pub open spec fn quadrant(
    arc: Seq<Coord>,
    c: Coord,
    primary: OctantRotation,
    reflected: OctantRotation,
) -> Seq<Coord> {
    primary_run(arc, c, primary) + reflected_run(arc, c, reflected)
}

/// The four quadrants that an arc gives about the centre `c`,
/// counter-clockwise from the positive x axis.
pub open spec fn replicated(arc: Seq<Coord>, c: Coord) -> Seq<Coord> {
    quadrant(arc, c, OctantRotation::Octant0, OctantRotation::Octant45) + quadrant(
        arc,
        c,
        OctantRotation::Octant90,
        OctantRotation::Octant135,
    ) + quadrant(arc, c, OctantRotation::Octant180, OctantRotation::Octant225) + quadrant(
        arc,
        c,
        OctantRotation::Octant270,
        OctantRotation::Octant315,
    )
}

/// The pixels of the circle of radius `r` about `c`, counter-clockwise from
/// the pixel on the positive x axis. The circle of radius 0 is its centre; a
/// negative radius gives no pixel.
pub open spec fn pixels_on_circle(r: int, c: Coord) -> Seq<Coord> {
    if r == 0 {
        seq![c]
    } else {
        replicated(octant_arc(r), c)
    }
}

/// One of the eight runs of a circle: the image of the arc under the
/// rotation `to`, or its mirror image under the reflection `to`.
spec fn run_pixels(arc: Seq<Coord>, c: Coord, to: OctantRotation) -> Seq<Coord> {
    if to.reflects() {
        reflected_run(arc, c, to)
    } else {
        primary_run(arc, c, to)
    }
}

/// The runs of a circle from the run `run` on; nothing after the last.
spec fn runs_from(arc: Seq<Coord>, c: Coord, run: Option<OctantRotation>) -> Seq<Coord>
    decreases
            (match run {
                Some(to) => 8 - to.eighths(),
                None => 0,
            }),
{
    match run {
        Some(to) => run_pixels(arc, c, to) + runs_from(arc, c, to.following()),
        None => Seq::empty(),
    }
}

/// The eight runs, one after the other, are the four quadrants. With the
/// centre as the only pixel of the arc, the last rotation alone gives the
/// centre once.
proof fn lemma_runs_from(arc: Seq<Coord>, c: Coord)
    ensures
        runs_from(arc, c, Some(OctantRotation::Octant0)) == replicated(arc, c),
        arc.len() == 0 ==> replicated(arc, c) == Seq::<Coord>::empty(),
        arc == seq![Coord { x: 0, y: 0 }] ==> runs_from(arc, c, Some(OctantRotation::Octant270))
            == seq![c],
{
    reveal_with_fuel(runs_from, 9);
    assert(runs_from(arc, c, Some(OctantRotation::Octant0)) =~= replicated(arc, c));
    if arc.len() == 0 {
        assert(replicated(arc, c) =~= Seq::<Coord>::empty());
    }
    if arc == seq![Coord { x: 0, y: 0 }] {
        assert(runs_from(arc, c, Some(OctantRotation::Octant270)) =~= seq![c]);
    }
}

/// The pixels of an arc, handed out one at a time.
pub struct CirclePixelOctant {
    p: Option<OctantZeroVector>,
    radius_squared: i64,
}

impl CirclePixelOctant {
    #[verifier::type_invariant]
    closed spec fn well_formed(self) -> bool {
        &&& 0 <= self.radius_squared <= 0x4000_0000_0000_0000
        &&& match self.p {
            Some(v) => v@.in_octant_zero() && v@.x <= i32::MAX,
            None => true,
        }
    }

    /// The pixels that are still to come, in order.
    pub closed spec fn remaining(self) -> Seq<Coord> {
        match self.p {
            Some(v) => arc_from(self.radius_squared as int, v@),
            None => Seq::empty(),
        }
    }

    /// The arc of the circle of radius `radius` in octant zero. It is empty
    /// for a negative radius.
    pub fn new(radius: i32) -> (arc: CirclePixelOctant)
        ensures
            arc.remaining() == octant_arc(radius as int),
    {
        let r = radius as i64;
        assert(0 <= (r + 1) * r <= 0x4000_0000_0000_0000 && (r + 1) * r == r * (r + 1))
            by (nonlinear_arith)
            requires
                -0x8000_0000 <= r < 0x8000_0000,
        ;
        CirclePixelOctant {
            p: OctantZeroVector::try_from(&Vector { x: r, y: 0 }),
            radius_squared: (r + 1) * r,
        }
    }

    /// Hands out the next pixel of the arc, or `None` after the last.
    pub fn next(&mut self) -> (pixel: Option<OctantZeroVector>)
        ensures
            pixel.is_some() <==> old(self).remaining().len() > 0,
            pixel.is_some() ==> pixel.unwrap()@ == old(self).remaining().first(),
            pixel.is_some() ==> final(self).remaining() == old(self).remaining().drop_first(),
            pixel.is_none() ==> final(self).remaining() == old(self).remaining(),
    {
        proof {
            use_type_invariant(&*self);
        }
        let old_val = self.p;
        if let Some(v) = old_val {
            let x = v.x();
            let y = v.y();
            assert(0 <= x * x <= 0x3fff_ffff_0000_0001 && 0 <= y * y <= 0x3fff_ffff_0000_0001)
                by (nonlinear_arith)
                requires
                    0 <= y <= x <= 0x7fff_ffff,
            ;
            let radius_error = x * x + y * y - self.radius_squared;
            // Over the integers this is `2 * (radius_error - 1) + 1 > 0`.
            let next_x = if radius_error > 0 {
                x - 1
            } else {
                x
            };
            self.p = OctantZeroVector::try_from(&Vector { x: next_x, y: y + 1 });
            proof {
                let bound = self.radius_squared as int;
                let rest = arc_from(bound, arc_step(bound, v@));
                assert((seq![v@] + rest).drop_first() =~= rest);
            }
        }
        old_val
    }
}

/// The arc of the circle of radius `radius` in octant zero, from the x axis
/// up. It is empty for a negative radius.
pub fn circle_octant_pixels(radius: i32) -> (octant_pixels: Vec<OctantZeroVector>)
    ensures
        octant_pixels.deep_view() == octant_arc(radius as int),
{
    let mut arc = CirclePixelOctant::new(radius);
    let mut octant_pixels: Vec<OctantZeroVector> = Vec::new();
    loop
        invariant
            octant_pixels.deep_view() + arc.remaining() =~= octant_arc(radius as int),
        ensures
            arc.remaining().len() == 0,
        decreases arc.remaining().len(),
    {
        let ghost before = octant_pixels.deep_view();
        let ghost rest = arc.remaining();
        match arc.next() {
            Some(p) => {
                octant_pixels.push(p);
                assert(octant_pixels.deep_view() =~= before.push(rest.first()));
                assert(before.push(rest.first()) + rest.drop_first() =~= before + rest);
            },
            None => {
                break ;
            },
        }
    }
    assert(octant_pixels.deep_view() =~= octant_pixels.deep_view() + arc.remaining());
    octant_pixels
}

/// The pixels of a circle, handed out one at a time.
pub struct CirclePixels {
    center: Point,
    octant_pixels: Vec<OctantZeroVector>,
    reflected_end_index: usize,
    run: Option<OctantRotation>,
    index: usize,
}

impl CirclePixels {
    #[verifier::type_invariant]
    closed spec fn well_formed(self) -> bool {
        let arc = self.octant_pixels.deep_view();
        &&& forall|j: int| 0 <= j < arc.len() ==> square_fits(self.center@, (#[trigger] arc[j]).x)
        &&& self.reflected_end_index == reflected_end(arc)
        &&& match self.run {
            Some(to) => self.index < run_pixels(arc, self.center@, to).len(),
            None => true,
        }
    }

    /// The pixels that are still to come, in order.
    pub closed spec fn remaining(self) -> Seq<Coord> {
        let arc = self.octant_pixels.deep_view();
        match self.run {
            Some(to) => run_pixels(arc, self.center@, to).skip(self.index as int) + runs_from(
                arc,
                self.center@,
                to.following(),
            ),
            None => Seq::empty(),
        }
    }

    /// The runs of the arc `octant_pixels` about `center`, from the run
    /// `first` on.
    fn starting_at(
        octant_pixels: Vec<OctantZeroVector>,
        center: Point,
        first: OctantRotation,
    ) -> (pixels: CirclePixels)
        requires
            !first.reflects(),
            forall|j: int|
                0 <= j < octant_pixels.len() ==> square_fits(
                    center@,
                    (#[trigger] octant_pixels.deep_view()[j]).x,
                ),
        ensures
            pixels.remaining() == runs_from(
                octant_pixels.deep_view(),
                center@,
                if octant_pixels.len() == 0 {
                    None
                } else {
                    Some(first)
                },
            ),
    {
        let len = octant_pixels.len();
        let reflected_end_index = if len == 0 {
            0
        } else {
            let last = &octant_pixels[len - 1];
            if last.x() == last.y() {
                if len >= 2 {
                    len - 2
                } else {
                    0
                }
            } else {
                len - 1
            }
        };
        let run = if len == 0 {
            None
        } else {
            Some(first)
        };
        proof {
            let whole = run_pixels(octant_pixels.deep_view(), center@, first);
            assert(whole.skip(0) =~= whole);
        }
        CirclePixels { center, octant_pixels, reflected_end_index, run, index: 0 }
    }

    /// Hands out the next pixel of the circle, or `None` after the last.
    pub fn next(&mut self) -> (pixel: Option<Point>)
        ensures
            pixel.is_some() <==> old(self).remaining().len() > 0,
            pixel.is_some() ==> pixel.unwrap()@ == old(self).remaining().first(),
            pixel.is_some() ==> final(self).remaining() == old(self).remaining().drop_first(),
            pixel.is_none() ==> final(self).remaining() == old(self).remaining(),
    {
        proof {
            use_type_invariant(&*self);
        }
        let ghost arc = self.octant_pixels.deep_view();
        let ghost c = self.center@;
        match self.run {
            None => None,
            Some(to) => {
                let ghost run = run_pixels(arc, c, to);
                let ghost later = runs_from(arc, c, to.following());
                let mirrored = to.is_reflection();
                let run_len = if mirrored {
                    self.reflected_end_index
                } else {
                    self.octant_pixels.len()
                };
                let j = if mirrored {
                    self.reflected_end_index - self.index
                } else {
                    self.index
                };
                assert(square_fits(c, arc[j as int].x));
                let offset = self.octant_pixels[j].rotate_to(to);
                let pixel = self.center.shifted_by(&offset);
                assert(pixel@ == run[self.index as int]);
                if self.index + 1 < run_len {
                    proof {
                        assert((run.skip(self.index as int) + later).drop_first() =~= run.skip(
                            self.index + 1,
                        ) + later);
                    }
                    self.index += 1;
                } else {
                    let next = match to.next() {
                        Some(after) => if after.is_reflection() && self.reflected_end_index == 0 {
                            after.next()
                        } else {
                            Some(after)
                        },
                        None => None,
                    };
                    proof {
                        assert((run.skip(self.index as int) + later).drop_first() =~= later);
                        match to.following() {
                            Some(after) => {
                                let skipped = run_pixels(arc, c, after);
                                let rest = runs_from(arc, c, after.following());
                                assert(later == skipped + rest);
                                assert(skipped.skip(0) =~= skipped);
                                if after.reflects() && self.reflected_end_index == 0 {
                                    assert(skipped + rest =~= rest);
                                    match after.following() {
                                        Some(third) => {
                                            let whole = run_pixels(arc, c, third);
                                            assert(whole.skip(0) =~= whole);
                                        },
                                        None => {},
                                    }
                                }
                            },
                            None => {},
                        }
                    }
                    self.index = 0;
                    self.run = next;
                }
                Some(pixel)
            },
        }
    }
}

/// The circle that the arc `octant_pixels` gives about `center`: in each
/// quadrant the arc itself, turned, and then its mirror image, walked
/// backwards.
pub fn replicate_octant(octant_pixels: Vec<OctantZeroVector>, center: Point) -> (pixels:
    CirclePixels)
    requires
        forall|j: int|
            0 <= j < octant_pixels.len() ==> square_fits(
                center@,
                (#[trigger] octant_pixels.deep_view()[j]).x,
            ),
    ensures
        pixels.remaining() == replicated(octant_pixels.deep_view(), center@),
{
    proof {
        lemma_runs_from(octant_pixels.deep_view(), center@);
    }
    CirclePixels::starting_at(octant_pixels, center, OctantRotation::Octant0)
}

/// The pixels of the circle of radius `radius` about `center`, each once,
/// counter-clockwise from the pixel on the positive x axis. The circle of
/// radius 0 is its centre; a negative radius gives no pixel.
///
/// The square of `2 * radius + 1` pixels about `center` must lie within the
/// range of pixel addresses.
pub fn iter_pixels_in_circle(radius: i32, center: Point) -> (pixels: CirclePixels)
    requires
        radius > 0 ==> square_fits(center@, radius as int),
    ensures
        pixels.remaining() == pixels_on_circle(radius as int, center@),
{
    let octant_pixels = circle_octant_pixels(radius);
    proof {
        assert forall|j: int| 0 <= j < octant_pixels.len() implies square_fits(
            center@,
            (#[trigger] octant_pixels.deep_view()[j]).x,
        ) by {
            lemma_octant_arc_rows(radius as int, j);
        }
        lemma_runs_from(octant_pixels.deep_view(), center@);
        let start = Coord { x: radius as int, y: 0 };
        let bound = radius * (radius + 1);
        assert(radius >= 0 ==> octant_arc(radius as int) =~= seq![start] + arc_from(
            bound,
            arc_step(bound, start),
        ));
        assert(radius == 0 ==> octant_arc(0) =~= seq![start]);
    }
    // Every run of the circle of radius 0 is its centre: only the last
    // rotation hands it out.
    let first = if radius == 0 {
        OctantRotation::Octant270
    } else {
        OctantRotation::Octant0
    };
    CirclePixels::starting_at(octant_pixels, center, first)
}

} // verus!
