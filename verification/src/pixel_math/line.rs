//! The pixels of a line segment.
//!
//! The segment is stepped along its dominant axis, one pixel for each
//! integer on it. Across the axis each pixel is the one nearest to the ideal
//! line; a tie goes away from the axis. The rule is stated for octant zero
//! and carried to the other octants by symmetry.

use vstd::math::{abs, max};
use vstd::prelude::*;
use vstd::arithmetic::div_mod::{
    lemma_fundamental_div_mod,
    lemma_fundamental_div_mod_converse,
    lemma_mod_bound,
};
use crate::pixel_math::vector::{Coord, Point};
use crate::pixel_math::octant::{
    lemma_canonical_of_rotated,
    lemma_rotate_to_inverts_unrotate_from,
    OctantRotation,
    OctantZeroVector,
};

verus! {

/// The row of the pixel in column `i` of the segment that leads from the
/// origin to `d`, a vector of octant zero: `i * d.y / d.x` rounded to the
/// nearest integer, upwards from a half.
pub open spec fn segment_row(d: Coord, i: int) -> int {
    if d.x == 0 {
        0
    } else {
        (2 * (i * d.y) + d.x) / (2 * d.x)
    }
}

/// The pixels of the segment from `a` to `b`, in the order in which they are
/// met on the way from `a` to `b`.
pub open spec fn pixels_on_segment(a: Coord, b: Coord) -> Seq<Coord> {
    let d = b.minus(a);
    Seq::new(
        (d.canonical().x + 1) as nat,
        |i: int| a.plus(Coord { x: i, y: segment_row(d.canonical(), i) }.rotate_to(d.octant())),
    )
}

/// The error term that the stepping rule carries along: at the pixel in
/// column `i` and row `y` it is twice `d.x` times the height of the ideal
/// line in column `i + 1` above the middle between the rows `y` and `y + 1`.
pub open spec fn segment_error(d: Coord, i: int, y: int) -> int {
    2 * ((i + 1) * d.y) - d.x - 2 * (d.x * y)
}

/// The row is the one integer `y` with
/// `2 * d.x * y <= 2 * i * d.y + d.x < 2 * d.x * (y + 1)`.
pub proof fn lemma_segment_row_is_nearest(d: Coord, i: int, y: int)
    requires
        d.x > 0,
    ensures
        y == segment_row(d, i) <==> 2 * (d.x * y) <= 2 * (i * d.y) + d.x < 2 * (d.x * y) + 2 * d.x,
{
    let n = 2 * (i * d.y) + d.x;
    let m = 2 * d.x;
    lemma_fundamental_div_mod(n, m);
    lemma_mod_bound(n, m);
    let q = n / m;
    assert(m * q == 2 * (d.x * q)) by (nonlinear_arith)
        requires
            m == 2 * d.x,
    ;
    if 2 * (d.x * y) <= n < 2 * (d.x * y) + 2 * d.x {
        assert(y * m == 2 * (d.x * y)) by (nonlinear_arith)
            requires
                m == 2 * d.x,
        ;
        lemma_fundamental_div_mod_converse(n, m, y, n - y * m);
    }
}

/// From one column to the next the row stays or rises by one, and the sign of
/// the error term says which.
pub proof fn lemma_segment_row_next(d: Coord, i: int)
    requires
        d.in_octant_zero(),
        d.x > 0,
    ensures
        2 * d.y - 2 * d.x <= segment_error(d, i, segment_row(d, i)) < 2 * d.y,
        segment_row(d, i + 1) == if segment_error(d, i, segment_row(d, i)) >= 0 {
            segment_row(d, i) + 1
        } else {
            segment_row(d, i)
        },
{
    let y = segment_row(d, i);
    let e = segment_error(d, i, y);
    lemma_segment_row_is_nearest(d, i, y);
    assert((i + 1) * d.y == i * d.y + d.y) by (nonlinear_arith);
    let next = if e >= 0 {
        y + 1
    } else {
        y
    };
    assert(d.x * (y + 1) == d.x * y + d.x) by (nonlinear_arith);
    lemma_segment_row_is_nearest(d, i + 1, next);
}

/// The rows begin at 0, end at `d.y`, never fall, and stay on or below the
/// diagonal.
pub proof fn lemma_segment_row_range(d: Coord, i: int)
    requires
        d.in_octant_zero(),
        0 <= i <= d.x,
    ensures
        segment_row(d, 0) == 0,
        segment_row(d, d.x) == d.y,
        0 <= segment_row(d, i) <= d.y,
        segment_row(d, i) <= i,
        d.x == d.y ==> segment_row(d, i) == i,
    decreases i,
{
    if d.x > 0 {
        lemma_segment_row_is_nearest(d, 0, 0);
        assert(0 * d.y == 0 && d.x * 0 == 0) by (nonlinear_arith);
        lemma_segment_row_is_nearest(d, d.x, d.y);
        if i > 0 {
            lemma_segment_row_range(d, i - 1);
            lemma_segment_row_next(d, i - 1);
            let y = segment_row(d, i);
            lemma_segment_row_is_nearest(d, i, y);
            if y > d.y {
                assert(d.x * y >= d.x * (d.y + 1)) by (nonlinear_arith)
                    requires
                        y >= d.y + 1,
                        d.x > 0,
                ;
                assert(d.x * (d.y + 1) == d.x * d.y + d.x) by (nonlinear_arith);
                assert(i * d.y <= d.x * d.y) by (nonlinear_arith)
                    requires
                        i <= d.x,
                        d.y >= 0,
                ;
            }
            if d.x == d.y {
                lemma_segment_row_is_nearest(d, i, i);
                assert(d.x * i == i * d.y) by (nonlinear_arith)
                    requires
                        d.x == d.y,
                ;
            }
        }
    }
}

/// A segment has one pixel for each integer on its dominant axis, begins at
/// `a` and ends at `b`.
pub proof fn lemma_segment_ends(a: Coord, b: Coord)
    ensures
        pixels_on_segment(a, b).len() == max(abs(b.x - a.x) as int, abs(b.y - a.y) as int) + 1,
        pixels_on_segment(a, b).first() == a,
        pixels_on_segment(a, b).last() == b,
{
    let d = b.minus(a);
    let c = d.canonical();
    lemma_rotate_to_inverts_unrotate_from(d);
    lemma_segment_row_range(c, 0);
}

/// The pixel at index `i` of a segment is `i` steps from `a` along the
/// dominant axis, in the direction of `b`, and lies between `a` and `b` on
/// the other axis.
pub proof fn lemma_segment_follows_dominant_axis(a: Coord, b: Coord, i: int)
    requires
        0 <= i < pixels_on_segment(a, b).len(),
    ensures
        ({
            let p = pixels_on_segment(a, b)[i];
            &&& abs(b.x - a.x) >= abs(b.y - a.y) ==> p.x == if b.x >= a.x {
                a.x + i
            } else {
                a.x - i
            }
            &&& abs(b.y - a.y) >= abs(b.x - a.x) ==> p.y == if b.y >= a.y {
                a.y + i
            } else {
                a.y - i
            }
            &&& a.x <= p.x <= b.x || b.x <= p.x <= a.x
            &&& a.y <= p.y <= b.y || b.y <= p.y <= a.y
            &&& max(abs(p.x - a.x) as int, abs(p.y - a.y) as int) == i
        }),
{
    let d = b.minus(a);
    let c = d.canonical();
    lemma_rotate_to_inverts_unrotate_from(d);
    lemma_segment_row_range(c, i);
}

/// A segment is connected: from one pixel to the next neither coordinate
/// changes by more than one.
pub proof fn lemma_segment_is_connected(a: Coord, b: Coord, i: int)
    requires
        0 <= i,
        i + 1 < pixels_on_segment(a, b).len(),
    ensures
        abs(pixels_on_segment(a, b)[i + 1].x - pixels_on_segment(a, b)[i].x) <= 1,
        abs(pixels_on_segment(a, b)[i + 1].y - pixels_on_segment(a, b)[i].y) <= 1,
{
    let d = b.minus(a);
    let c = d.canonical();
    lemma_rotate_to_inverts_unrotate_from(d);
    lemma_segment_row_next(c, i);
}

/// No pixel occurs twice in a segment.
pub proof fn lemma_segment_no_duplicates(a: Coord, b: Coord)
    ensures
        pixels_on_segment(a, b).no_duplicates(),
{
    let s = pixels_on_segment(a, b);
    assert forall|i: int, j: int| 0 <= i < s.len() && 0 <= j < s.len() && i != j implies s[i]
        != s[j] by {
        lemma_segment_follows_dominant_axis(a, b, i);
        lemma_segment_follows_dominant_axis(a, b, j);
    }
}

/// The segment walked the other way has the same length and the same two
/// ends. (Its inner pixels may differ, since ties are broken away from the
/// axis on both ways.)
pub proof fn lemma_segment_reversed(a: Coord, b: Coord)
    ensures
        pixels_on_segment(b, a).len() == pixels_on_segment(a, b).len(),
        pixels_on_segment(b, a).first() == pixels_on_segment(a, b).last(),
        pixels_on_segment(b, a).last() == pixels_on_segment(a, b).first(),
{
    lemma_segment_ends(a, b);
    lemma_segment_ends(b, a);
}

/// The pixels of a segment, handed out one at a time.
pub struct LinePixels {
    from: Point,
    offset: OctantZeroVector,
    rotation: OctantRotation,
    x: i64,
    y: i64,
    error: i64,
}

impl LinePixels {
    #[verifier::type_invariant]
    closed spec fn well_formed(self) -> bool {
        let d = self.offset@;
        &&& d.in_octant_zero()
        &&& self.end().fits_i32()
        &&& self.end().minus(self.from@).octant() == self.rotation
        &&& 0 <= self.x <= d.x + 1
        &&& self.x <= d.x ==> self.y == segment_row(d, self.x as int)
        &&& self.x <= d.x ==> self.error == segment_error(d, self.x as int, self.y as int)
    }

    /// The far end of the segment.
    closed spec fn end(self) -> Coord {
        self.from@.plus(self.offset@.rotate_to(self.rotation))
    }

    /// The pixels that are still to come, in order.
    pub closed spec fn remaining(self) -> Seq<Coord> {
        pixels_on_segment(self.from@, self.end()).skip(self.x as int)
    }

    /// Hands out the next pixel of the segment, or `None` after the last.
    pub fn next(&mut self) -> (pixel: Option<Point>)
        ensures
            pixel.is_some() <==> old(self).remaining().len() > 0,
            pixel.is_some() ==> pixel.unwrap()@ == old(self).remaining().first(),
            pixel.is_some() ==> final(self).remaining() == old(self).remaining().drop_first(),
            pixel.is_none() ==> final(self).remaining() == old(self).remaining(),
    {
        proof {
            use_type_invariant(&*self);
        }
        let ghost d = self.offset@;
        let ghost line = pixels_on_segment(self.from@, self.end());
        let width = self.offset.x();
        let height = self.offset.y();
        proof {
            lemma_canonical_of_rotated(d, self.rotation);
            assert(self.end().minus(self.from@) == d.rotate_to(self.rotation));
            assert(line.len() == d.x + 1);
        }
        if self.x > width {
            return None;
        }
        proof {
            lemma_segment_row_range(d, self.x as int);
            if d.x > 0 {
                lemma_segment_row_next(d, self.x as int);
            }
        }
        let step = OctantZeroVector::from_unchecked(self.x, self.y);
        let pixel = self.from.shifted_by(&step.rotate_to(self.rotation));
        let mut y = self.y;
        let mut error = self.error;
        if !(error < 0) {
            y += 1;
            error -= 2 * width;
        }
        error += 2 * height;
        proof {
            assert(d.x * (self.y + 1) == d.x * self.y + d.x) by (nonlinear_arith);
            assert((self.x + 2) * d.y == (self.x + 1) * d.y + d.y) by (nonlinear_arith);
            assert(line.skip(self.x as int).drop_first() =~= line.skip(self.x + 1));
        }
        *self = LinePixels {
            from: self.from,
            offset: self.offset,
            rotation: self.rotation,
            x: self.x + 1,
            y,
            error,
        };
        Some(pixel)
    }
}

/// The pixels of the segment from `from` to `to`, both ends included, in the
/// order in which they are met on the way from `from` to `to`.
pub fn iter_pixels_in_line(from: Point, to: Point) -> (pixels: LinePixels)
    ensures
        pixels.remaining() == pixels_on_segment(from@, to@),
{
    let (octant_offset, octant_rotation) = OctantZeroVector::unrotate_from(to.offset_from(&from));
    proof {
        let d = to@.minus(from@);
        lemma_rotate_to_inverts_unrotate_from(d);
        lemma_segment_row_range(d.canonical(), 0);
        assert(from@.plus(d) == to@);
        assert(0 * d.canonical().y == 0 && d.canonical().x * 0 == 0 && 1 * d.canonical().y
            == d.canonical().y) by (nonlinear_arith);
        assert(pixels_on_segment(from@, to@).skip(0) =~= pixels_on_segment(from@, to@));
    }
    LinePixels {
        from,
        offset: octant_offset,
        rotation: octant_rotation,
        x: 0,
        y: 0,
        error: 2 * octant_offset.y() - octant_offset.x(),
    }
}

} // verus!
