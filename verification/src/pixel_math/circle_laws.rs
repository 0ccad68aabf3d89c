//! What holds of the pixels of an arc and of a circle.

use vstd::prelude::*;
use crate::pixel_math::circle::{
    arc_from,
    arc_step,
    hugs_circle,
    octant_arc,
    on_octant_arc,
    pixels_on_circle,
    reflected_end,
    replicated,
};
use crate::pixel_math::octant::{
    lemma_canonical_of_rotated,
    lemma_rotate_to_inverts_unrotate_from,
    OctantRotation,
};
use crate::pixel_math::vector::Coord;

verus! {

/// A pixel that hugs the circle is followed by one that does.
proof fn lemma_arc_step_hugs_circle(bound: int, p: Coord)
    requires
        p.in_octant_zero(),
        p.y >= 1,
        hugs_circle(bound, p),
    ensures
        hugs_circle(bound, arc_step(bound, p)),
{
    let x = p.x;
    let y = p.y;
    assert((x - 1) * (x - 1) + y * y == x * x + (y - 1) * (y - 1) - 2 * x + 2 * y)
        by (nonlinear_arith);
    assert((x + 1) * (x + 1) + y * y == (x + 1) * (x + 1) + (y - 1) * (y - 1) + 2 * y - 1)
        by (nonlinear_arith);
    assert((y + 1 - 1) * (y + 1 - 1) == y * y);
    assert((x - 1 + 1) * (x - 1 + 1) == x * x);
}

/// The pixels of an arc climb one row at a time and never move right, and
/// only the last of them can lie on the diagonal.
pub proof fn lemma_arc_from_rows(bound: int, p: Coord, j: int)
    requires
        p.in_octant_zero(),
        0 <= j < arc_from(bound, p).len(),
    ensures
        ({
            let q = arc_from(bound, p)[j];
            &&& j == 0 ==> q == p
            &&& q.in_octant_zero()
            &&& q.y == p.y + j
            &&& p.x - j <= q.x <= p.x
            &&& q.x == q.y ==> j == arc_from(bound, p).len() - 1
            &&& p.y >= 1 && hugs_circle(bound, p) ==> hugs_circle(bound, q)
        }),
    decreases j,
{
    let next = arc_step(bound, p);
    let rest = arc_from(bound, next);
    assert(arc_from(bound, p) =~= seq![p] + rest);
    if j > 0 {
        assert(next.in_octant_zero());
        lemma_arc_from_rows(bound, next, j - 1);
        if p.y >= 1 && hugs_circle(bound, p) {
            lemma_arc_step_hugs_circle(bound, p);
        }
    } else if p.x == p.y {
        assert(!next.in_octant_zero());
    }
}

/// The arc of radius `r` holds in row `j` the pixel that `on_octant_arc`
/// describes. It stays within `r` columns of the centre, and only its last
/// pixel can lie on the diagonal.
pub proof fn lemma_octant_arc_rows(r: int, j: int)
    requires
        0 <= j < octant_arc(r).len(),
    ensures
        r >= 0,
        ({
            let q = octant_arc(r)[j];
            &&& q.y == j
            &&& q.in_octant_zero()
            &&& q.x <= r
            &&& r >= 1 ==> q.x >= 1 && octant_arc(r).len() >= 2
            &&& q.x == q.y ==> j == octant_arc(r).len() - 1
            &&& on_octant_arc(r, q)
        }),
{
    let bound = r * (r + 1);
    let start = Coord { x: r, y: 0 };
    let second = arc_step(bound, start);
    assert(arc_from(bound, start) =~= seq![start] + arc_from(bound, second));
    lemma_arc_from_rows(bound, start, j);
    assert(r * r <= bound && bound < (r + 1) * (r + 1)) by (nonlinear_arith)
        requires
            bound == r * (r + 1),
            r >= 0,
    ;
    assert(second == Coord { x: r, y: 1 });
    if r >= 1 {
        assert(second.in_octant_zero());
        assert(arc_from(bound, second) =~= seq![second] + arc_from(
            bound,
            arc_step(bound, second),
        ));
    }
    if j >= 1 {
        assert(hugs_circle(bound, second));
        lemma_arc_from_rows(bound, second, j - 1);
    }
}

/// The shape of an arc that replication relies on: row `j` is held by the
/// pixel at index `j`, every pixel lies in octant zero off the centre, and
/// only the last can lie on the diagonal.
pub open spec fn is_arc(arc: Seq<Coord>) -> bool {
    forall|j: int|
        0 <= j < arc.len() ==> {
            let q = #[trigger] arc[j];
            &&& q.y == j
            &&& q.in_octant_zero()
            &&& q.x >= 1
            &&& q.x == q.y ==> j == arc.len() - 1
        }
}

/// The index at which the circle of an arc of `n` pixels, `m` of them
/// mirrored, holds the pixel at the offset `q` from the centre.
spec fn position(n: int, m: int, q: Coord) -> int {
    if q.x > 0 && 0 <= q.y <= q.x {
        q.y
    } else if 0 < q.x < q.y {
        n + m - q.x
    } else if q.y > 0 && -q.y <= q.x <= 0 {
        (n + m) - q.x
    } else if q.y > 0 && q.x < -q.y {
        (n + m) + n + m - q.y
    } else if q.x < 0 && q.x <= q.y <= 0 {
        2 * (n + m) - q.y
    } else if q.y < q.x < 0 {
        2 * (n + m) + n + m + q.x
    } else if q.y < 0 && 0 <= q.x <= -q.y {
        3 * (n + m) + q.x
    } else {
        3 * (n + m) + n + m + q.y
    }
}

/// Every pixel of a replicated arc is the image of a pixel of the arc under
/// one of the eight symmetries: the lemma returns the index of that pixel in
/// the arc, and the symmetry.
pub proof fn lemma_replicated_member(arc: Seq<Coord>, c: Coord, i: int) -> (origin: (
    int,
    OctantRotation,
))
    requires
        0 <= i < replicated(arc, c).len(),
    ensures
        0 <= origin.0 < arc.len(),
        replicated(arc, c)[i] == c.plus(arc[origin.0].rotate_to(origin.1)),
        origin.1.reflects() ==> 1 <= origin.0 <= reflected_end(arc),
        i == replicated_index(arc.len() as int, reflected_end(arc), origin.0, origin.1),
{
    let n = arc.len() as int;
    let m = reflected_end(arc);
    let l = n + m;
    if i < l {
        if i < n {
            (i, OctantRotation::Octant0)
        } else {
            (m - (i - n), OctantRotation::Octant45)
        }
    } else if i < 2 * l {
        if i - l < n {
            (i - l, OctantRotation::Octant90)
        } else {
            (m - (i - l - n), OctantRotation::Octant135)
        }
    } else if i < 3 * l {
        if i - 2 * l < n {
            (i - 2 * l, OctantRotation::Octant180)
        } else {
            (m - (i - 2 * l - n), OctantRotation::Octant225)
        }
    } else {
        if i - 3 * l < n {
            (i - 3 * l, OctantRotation::Octant270)
        } else {
            (m - (i - 3 * l - n), OctantRotation::Octant315)
        }
    }
}

/// The index in a replicated arc of `n` pixels, `m` of them mirrored, of the
/// image of the arc's pixel `j` under `to`.
pub open spec fn replicated_index(n: int, m: int, j: int, to: OctantRotation) -> int {
    match to {
        OctantRotation::Octant0 => j,
        OctantRotation::Octant45 => n + m - j,
        OctantRotation::Octant90 => (n + m) + j,
        OctantRotation::Octant135 => (n + m) + n + m - j,
        OctantRotation::Octant180 => 2 * (n + m) + j,
        OctantRotation::Octant225 => 2 * (n + m) + n + m - j,
        OctantRotation::Octant270 => 3 * (n + m) + j,
        OctantRotation::Octant315 => 3 * (n + m) + n + m - j,
    }
}

/// No pixel occurs twice in a replicated arc.
pub proof fn lemma_replicated_no_duplicates(arc: Seq<Coord>, c: Coord)
    requires
        is_arc(arc),
    ensures
        replicated(arc, c).no_duplicates(),
{
    let full = replicated(arc, c);
    let n = arc.len() as int;
    let m = reflected_end(arc);
    assert forall|i: int| 0 <= i < full.len() implies position(n, m, (#[trigger] full[i]).minus(c))
        == i by {
        let (j, to) = lemma_replicated_member(arc, c, i);
        let q = arc[j];
        assert(full[i].minus(c) == q.rotate_to(to));
    }
}

/// No pixel occurs twice in a circle.
pub proof fn lemma_circle_no_duplicates(r: int, c: Coord)
    ensures
        pixels_on_circle(r, c).no_duplicates(),
{
    if r != 0 {
        let arc = octant_arc(r);
        assert forall|j: int| 0 <= j < arc.len() implies {
            let q = #[trigger] arc[j];
            &&& q.y == j
            &&& q.in_octant_zero()
            &&& q.x >= 1
            &&& q.x == q.y ==> j == arc.len() - 1
        } by {
            lemma_octant_arc_rows(r, j);
        }
        lemma_replicated_no_duplicates(arc, c);
    }
}

/// Every pixel of a circle is, up to symmetry, a pixel of its arc: the
/// canonical form of its offset from the centre is the rightmost pixel of
/// its row whose lower neighbour lies within `r + 1/2` of the centre. So
/// the pixel lies within `r` columns and rows of the centre, and its
/// distance from the centre is more than `r - 1/2` and less than `r + 3/2`.
pub proof fn lemma_circle_pixels_near_radius(r: int, c: Coord, i: int)
    requires
        0 <= i < pixels_on_circle(r, c).len(),
    ensures
        r >= 0,
        ({
            let q = pixels_on_circle(r, c)[i].minus(c);
            let d2 = q.x * q.x + q.y * q.y;
            &&& on_octant_arc(r, q.canonical())
            &&& q.canonical().x <= r
            &&& r == 0 ==> d2 == 0
            &&& r >= 1 ==> (2 * r - 1) * (2 * r - 1) < 4 * d2 < (2 * r + 3) * (2 * r + 3)
        }),
{
    if r != 0 {
        let arc = octant_arc(r);
        let (j, to) = lemma_replicated_member(arc, c, i);
        lemma_octant_arc_rows(r, j);
        let a = arc[j];
        let q = pixels_on_circle(r, c)[i].minus(c);
        assert(q == a.rotate_to(to));
        lemma_canonical_of_rotated(a, to);
        assert(q.x * q.x + q.y * q.y == a.x * a.x + a.y * a.y) by (nonlinear_arith)
            requires
                (q.x == a.x || q.x == -a.x) && (q.y == a.y || q.y == -a.y) || (q.x == a.y || q.x
                    == -a.y) && (q.y == a.x || q.y == -a.x),
        ;
        let d2 = a.x * a.x + a.y * a.y;
        let bound = r * (r + 1);
        if a.y == 0 {
            assert((2 * r - 1) * (2 * r - 1) < 4 * (r * r) < (2 * r + 3) * (2 * r + 3))
                by (nonlinear_arith)
                requires
                    r >= 1,
            ;
        } else {
            assert((2 * r - 1) * (2 * r - 1) < 4 * d2 < (2 * r + 3) * (2 * r + 3))
                by (nonlinear_arith)
                requires
                    r >= 1,
                    1 <= a.y <= a.x <= r,
                    d2 == a.x * a.x + a.y * a.y,
                    a.x * a.x + (a.y - 1) * (a.y - 1) <= r * (r + 1),
                    r * (r + 1) < (a.x + 1) * (a.x + 1) + (a.y - 1) * (a.y - 1),
            ;
        }
    }
}

/// An arc continues from each of its pixels as the arc that begins there.
proof fn lemma_arc_from_suffix(bound: int, p: Coord, k: int)
    requires
        p.in_octant_zero(),
        0 <= k < arc_from(bound, p).len(),
    ensures
        arc_from(bound, p).skip(k) == arc_from(bound, arc_from(bound, p)[k]),
    decreases k,
{
    let arc = arc_from(bound, p);
    let next = arc_step(bound, p);
    let rest = arc_from(bound, next);
    assert(arc =~= seq![p] + rest);
    if k == 0 {
        assert(arc.skip(0) =~= arc);
    } else {
        lemma_arc_from_suffix(bound, next, k - 1);
        assert(arc.skip(k) =~= rest.skip(k - 1));
    }
}

/// Among the pixels of one row at most one hugs the circle.
proof fn lemma_one_pixel_hugs_per_row(bound: int, p: Coord, q: Coord)
    requires
        p.y == q.y,
        0 <= p.x,
        0 <= q.x,
        hugs_circle(bound, p),
        hugs_circle(bound, q),
    ensures
        p == q,
{
    if p.x < q.x {
        assert((p.x + 1) * (p.x + 1) <= q.x * q.x) by (nonlinear_arith)
            requires
                0 <= p.x + 1 <= q.x,
        ;
    }
    if q.x < p.x {
        assert((q.x + 1) * (q.x + 1) <= p.x * p.x) by (nonlinear_arith)
            requires
                0 <= q.x + 1 <= p.x,
        ;
    }
}

/// The arc of radius `r` holds every pixel that `on_octant_arc` describes,
/// in the row of the pixel.
pub proof fn lemma_octant_arc_holds(r: int, a: Coord, y: int)
    requires
        r >= 0,
        a.in_octant_zero(),
        on_octant_arc(r, a),
        0 <= y <= a.y,
    ensures
        y < octant_arc(r).len(),
        y == a.y ==> octant_arc(r)[y] == a,
    decreases y,
{
    let bound = r * (r + 1);
    let start = Coord { x: r, y: 0 };
    let arc = octant_arc(r);
    assert(arc =~= seq![start] + arc_from(bound, arc_step(bound, start)));
    if y == 0 {
        lemma_octant_arc_rows(r, 0);
    } else {
        lemma_octant_arc_holds(r, a, y - 1);
        lemma_octant_arc_rows(r, y - 1);
        let below = arc[y - 1];
        let next = arc_step(bound, below);
        lemma_arc_from_suffix(bound, start, y - 1);
        assert(arc.skip(y - 1) =~= seq![below] + arc_from(bound, next));
        assert(hugs_circle(bound, next)) by {
            if y == 1 {
                assert(r * r <= bound && bound < (r + 1) * (r + 1)) by (nonlinear_arith)
                    requires
                        bound == r * (r + 1),
                        r >= 0,
                ;
            } else {
                lemma_arc_step_hugs_circle(bound, below);
            }
        }
        if next.x < y {
            assert((next.x + 1) * (next.x + 1) <= a.x * a.x) by (nonlinear_arith)
                requires
                    0 <= next.x + 1 <= a.x,
            ;
            assert((y - 1) * (y - 1) <= (a.y - 1) * (a.y - 1)) by (nonlinear_arith)
                requires
                    0 <= y - 1 <= a.y - 1,
            ;
        }
        assert(next.in_octant_zero());
        assert(arc_from(bound, next).len() >= 1);
        assert(arc.skip(y - 1).len() >= 2);
        assert(arc[y] == arc.skip(y - 1)[1]);
        assert(arc[y] == next);
        if y == a.y {
            lemma_one_pixel_hugs_per_row(bound, next, a);
        }
    }
}

/// Where a replicated arc holds the image of its pixel `j` under `to`. Of
/// the mirror images it holds those of the pixels from 1 to the last
/// mirrored.
pub proof fn lemma_replicated_at(arc: Seq<Coord>, c: Coord, j: int, to: OctantRotation)
    requires
        0 <= j < arc.len(),
        to.reflects() ==> 1 <= j <= reflected_end(arc),
    ensures
        0 <= replicated_index(arc.len() as int, reflected_end(arc), j, to) < replicated(
            arc,
            c,
        ).len(),
        replicated(arc, c)[replicated_index(arc.len() as int, reflected_end(arc), j, to)]
            == c.plus(arc[j].rotate_to(to)),
{
}

/// A circle holds exactly the pixels whose offset from the centre is, up to
/// symmetry, a pixel of the arc.
pub proof fn lemma_circle_membership(r: int, c: Coord, p: Coord)
    requires
        r >= 0,
    ensures
        pixels_on_circle(r, c).contains(p) <==> on_octant_arc(r, p.minus(c).canonical()),
{
    let circle = pixels_on_circle(r, c);
    let q = p.minus(c);
    let a = q.canonical();
    lemma_rotate_to_inverts_unrotate_from(q);
    if circle.contains(p) {
        let i = choose|i: int| 0 <= i < circle.len() && circle[i] == p;
        lemma_circle_pixels_near_radius(r, c, i);
    }
    if on_octant_arc(r, a) {
        if r == 0 {
            if a.y > 0 {
                assert(a.x * a.x > 0) by (nonlinear_arith)
                    requires
                        a.x > 0,
                ;
                assert((a.y - 1) * (a.y - 1) >= 0) by (nonlinear_arith);
            }
            assert(circle[0] == p);
        } else {
            let arc = octant_arc(r);
            lemma_octant_arc_holds(r, a, a.y);
            lemma_octant_arc_rows(r, a.y);
            lemma_octant_arc_rows(r, arc.len() - 1);
            let to = if a.y == 0 && q.octant() == OctantRotation::Octant45 {
                OctantRotation::Octant90
            } else if a.y == 0 && q.octant() == OctantRotation::Octant135 {
                OctantRotation::Octant180
            } else {
                q.octant()
            };
            assert(a.rotate_to(to) == q);
            lemma_replicated_at(arc, c, a.y, to);
            let i = replicated_index(arc.len() as int, reflected_end(arc), a.y, to);
            assert(circle[i] == p);
        }
    }
}

} // verus!
