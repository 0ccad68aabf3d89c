//! The eight octants of the plane, and vectors in the first of them.
//!
//! Octant zero is the wedge `0 <= y <= x`. Every integer vector is the
//! image of exactly one vector of octant zero, its canonical form, under one
//! of eight symmetries of the square grid; the stepping rules of the pixel
//! sequences are written for octant zero only.

use vstd::math::{abs, max, min};
use vstd::prelude::*;
use crate::pixel_math::vector::{Coord, Vector};

verus! {

/// One of the eight symmetries that carry octant zero onto an octant, named
/// by the angle at which the image of the positive x axis lies.
///
/// The multiples of 90 are rotations. The others exchange the components
/// first and then rotate, so they are reflections.
#[derive(Clone, Copy, Debug, PartialEq, Eq, Structural)]
pub enum OctantRotation {
    Octant0,
    Octant45,
    Octant90,
    Octant135,
    Octant180,
    Octant225,
    Octant270,
    Octant315,
}

impl OctantRotation {
    /// The angle of the octant in eighths of a turn.
    pub open spec fn eighths(self) -> int {
        match self {
            OctantRotation::Octant0 => 0,
            OctantRotation::Octant45 => 1,
            OctantRotation::Octant90 => 2,
            OctantRotation::Octant135 => 3,
            OctantRotation::Octant180 => 4,
            OctantRotation::Octant225 => 5,
            OctantRotation::Octant270 => 6,
            OctantRotation::Octant315 => 7,
        }
    }

    /// Whether the symmetry is a reflection, not a rotation.
    pub open spec fn reflects(self) -> bool {
        self.eighths() % 2 == 1
    }

    /// The next octant counter-clockwise; none after the last.
    pub open spec fn following(self) -> Option<OctantRotation> {
        match self {
            OctantRotation::Octant0 => Some(OctantRotation::Octant45),
            OctantRotation::Octant45 => Some(OctantRotation::Octant90),
            OctantRotation::Octant90 => Some(OctantRotation::Octant135),
            OctantRotation::Octant135 => Some(OctantRotation::Octant180),
            OctantRotation::Octant180 => Some(OctantRotation::Octant225),
            OctantRotation::Octant225 => Some(OctantRotation::Octant270),
            OctantRotation::Octant270 => Some(OctantRotation::Octant315),
            OctantRotation::Octant315 => None,
        }
    }

    /// Whether the symmetry is a reflection, not a rotation.
    pub fn is_reflection(&self) -> (mirrored: bool)
        ensures
            mirrored == self.reflects(),
    {
        match self {
            OctantRotation::Octant0 => false,
            OctantRotation::Octant45 => true,
            OctantRotation::Octant90 => false,
            OctantRotation::Octant135 => true,
            OctantRotation::Octant180 => false,
            OctantRotation::Octant225 => true,
            OctantRotation::Octant270 => false,
            OctantRotation::Octant315 => true,
        }
    }

    /// The next octant counter-clockwise; none after the last.
    pub fn next(&self) -> (next: Option<OctantRotation>)
        ensures
            next == self.following(),
    {
        match self {
            OctantRotation::Octant0 => Some(OctantRotation::Octant45),
            OctantRotation::Octant45 => Some(OctantRotation::Octant90),
            OctantRotation::Octant90 => Some(OctantRotation::Octant135),
            OctantRotation::Octant135 => Some(OctantRotation::Octant180),
            OctantRotation::Octant180 => Some(OctantRotation::Octant225),
            OctantRotation::Octant225 => Some(OctantRotation::Octant270),
            OctantRotation::Octant270 => Some(OctantRotation::Octant315),
            OctantRotation::Octant315 => None,
        }
    }
}

impl Coord {
    /// Membership in octant zero.
    pub open spec fn in_octant_zero(self) -> bool {
        0 <= self.y <= self.x
    }

    /// The image of `self` under the symmetry `to`.
    pub open spec fn rotate_to(self, to: OctantRotation) -> Coord {
        match to {
            OctantRotation::Octant0 => self,
            OctantRotation::Octant45 => self.yx(),
            OctantRotation::Octant90 => self.rotate_90(),
            OctantRotation::Octant135 => self.yx().rotate_90(),
            OctantRotation::Octant180 => self.rotate_180(),
            OctantRotation::Octant225 => self.yx().rotate_180(),
            OctantRotation::Octant270 => self.rotate_270(),
            OctantRotation::Octant315 => self.yx().rotate_270(),
        }
    }

    /// The octant that `self` is assigned to.
    ///
    /// The octants are wedges of 45 degrees, each named by the angle at
    /// which it begins. A vector on the boundary of two wedges goes to one
    /// of them by a fixed rule: a diagonal belongs to the wedge below it,
    /// which is the one of a rotation; the positive x axis belongs to
    /// octant 0, the positive y axis to 45, the negative x axis to 135 and
    /// the negative y axis to 270. The zero vector belongs to octant 0.
    pub open spec fn octant(self) -> OctantRotation {
        if 0 <= self.y <= self.x {
            OctantRotation::Octant0
        } else if 0 <= self.x < self.y {
            OctantRotation::Octant45
        } else if 0 < -self.x <= self.y {
            OctantRotation::Octant90
        } else if 0 <= self.y < -self.x {
            OctantRotation::Octant135
        } else if self.x <= self.y < 0 {
            OctantRotation::Octant180
        } else if self.y < self.x < 0 {
            OctantRotation::Octant225
        } else if 0 <= self.x <= -self.y {
            OctantRotation::Octant270
        } else {
            OctantRotation::Octant315
        }
    }

    /// The canonical form of `self`: the larger and the smaller of the
    /// magnitudes of its components.
    pub open spec fn canonical(self) -> Coord {
        Coord {
            x: max(abs(self.x) as int, abs(self.y) as int),
            y: min(abs(self.x) as int, abs(self.y) as int),
        }
    }
}

/// The canonical form lies in octant zero, and the symmetry of the assigned
/// octant carries it back to the vector it was taken from.
pub proof fn lemma_rotate_to_inverts_unrotate_from(v: Coord)
    ensures
        v.canonical().in_octant_zero(),
        v.canonical().rotate_to(v.octant()) == v,
{
}

/// None of the eight symmetries changes the canonical form; on octant zero
/// the canonical form is the vector itself.
pub proof fn lemma_canonical_of_rotated(v: Coord, to: OctantRotation)
    ensures
        v.rotate_to(to).canonical() == v.canonical(),
        v.in_octant_zero() ==> v.canonical() == v,
{
}

/// A vector of octant zero: `0 <= y <= x` holds of every value of this type.
#[derive(Clone, Copy, Debug)]
pub struct OctantZeroVector(Vector);

impl View for OctantZeroVector {
    type V = Coord;

    closed spec fn view(&self) -> Coord {
        self.0@
    }
}

impl DeepView for OctantZeroVector {
    type V = Coord;

    open spec fn deep_view(&self) -> Coord {
        self@
    }
}

impl OctantZeroVector {
    #[verifier::type_invariant]
    pub closed spec fn well_formed(self) -> bool {
        self.0@.in_octant_zero()
    }

    /// The image of the vector under the symmetry `to`.
    pub fn rotate_to(&self, to: OctantRotation) -> (v: Vector)
        ensures
            self@.in_octant_zero(),
            v@ == self@.rotate_to(to),
    {
        proof {
            use_type_invariant(self);
        }
        let inner_vec = self.0;
        match to {
            OctantRotation::Octant0 => inner_vec,
            OctantRotation::Octant45 => inner_vec.yx(),
            OctantRotation::Octant90 => inner_vec.rotate_90(),
            OctantRotation::Octant135 => inner_vec.yx().rotate_90(),
            OctantRotation::Octant180 => inner_vec.rotate_180(),
            OctantRotation::Octant225 => inner_vec.yx().rotate_180(),
            OctantRotation::Octant270 => inner_vec.rotate_270(),
            OctantRotation::Octant315 => inner_vec.yx().rotate_270(),
        }
    }

    /// Splits `from` into its canonical form and the octant it is assigned
    /// to. No component may be `i64::MIN`, whose magnitude no `i64` holds.
    pub fn unrotate_from(from: Vector) -> (r: (OctantZeroVector, OctantRotation))
        requires
            from@.negatable_i64(),
        ensures
            r.0@ == from@.canonical(),
            r.1 == from@.octant(),
    {
        if !(from.y < 0) {
            if !(from.x < 0) {
                if from.x >= from.y {
                    (OctantZeroVector(from), OctantRotation::Octant0)
                } else {
                    (OctantZeroVector(from.yx()), OctantRotation::Octant45)
                }
            } else {
                if from.y >= -from.x {
                    (OctantZeroVector(from.rotate_270()), OctantRotation::Octant90)
                } else {
                    (OctantZeroVector(from.rotate_270().yx()), OctantRotation::Octant135)
                }
            }
        } else {
            if from.x < 0 {
                if -from.x >= -from.y {
                    (OctantZeroVector(from.rotate_180()), OctantRotation::Octant180)
                } else {
                    (OctantZeroVector(from.rotate_180().yx()), OctantRotation::Octant225)
                }
            } else {
                if -from.y >= from.x {
                    (OctantZeroVector(from.rotate_90()), OctantRotation::Octant270)
                } else {
                    (OctantZeroVector(from.rotate_90().yx()), OctantRotation::Octant315)
                }
            }
        }
    }

    /// `from` as a vector of octant zero, if it lies there.
    pub fn try_from(from: &Vector) -> (r: Option<OctantZeroVector>)
        ensures
            from@.in_octant_zero() ==> r.is_some() && r.unwrap()@ == from@,
            !from@.in_octant_zero() ==> r.is_none(),
    {
        if !(from.y < 0) && !(from.x < 0) && from.x >= from.y {
            Some(OctantZeroVector(*from))
        } else {
            None
        }
    }

    /// The vector `(x, y)`, which the caller knows to lie in octant zero.
    pub fn from_unchecked(x: i64, y: i64) -> (v: OctantZeroVector)
        requires
            0 <= y <= x,
        ensures
            v@ == (Coord { x: x as int, y: y as int }),
    {
        OctantZeroVector(Vector::new(x, y))
    }

    pub fn x(&self) -> (x: i64)
        ensures
            x == self@.x,
            0 <= self@.y <= x,
    {
        proof {
            use_type_invariant(self);
        }
        self.0.x
    }

    pub fn y(&self) -> (y: i64)
        ensures
            y == self@.y,
            0 <= y <= self@.x,
    {
        proof {
            use_type_invariant(self);
        }
        self.0.y
    }
}

} // verus!
