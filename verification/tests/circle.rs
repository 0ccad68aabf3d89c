use pixel_rays::pixel_math::circle::{
    circle_octant_pixels, replicate_octant, CirclePixelOctant, CirclePixels,
};
use pixel_rays::pixel_math::iter_pixels_in_circle;
use pixel_rays::pixel_math::octant::OctantZeroVector;
use pixel_rays::pixel_math::vector::Point;

fn collect(mut pixels: CirclePixels) -> Vec<(i32, i32)> {
    let mut out = Vec::new();
    while let Some(p) = pixels.next() {
        out.push((p.x, p.y));
    }
    out
}

fn circle(radius: i32, center: (i32, i32)) -> Vec<(i32, i32)> {
    collect(iter_pixels_in_circle(radius, Point::new(center.0, center.1)))
}

fn replicate(arc: &[(i64, i64)], center: (i32, i32)) -> Vec<(i32, i32)> {
    let arc = arc.iter().map(|p| OctantZeroVector::from_unchecked(p.0, p.1)).collect();
    collect(replicate_octant(arc, Point::new(center.0, center.1)))
}

fn arc(radius: i32) -> Vec<(i64, i64)> {
    circle_octant_pixels(radius).iter().map(|p| (p.x(), p.y())).collect()
}

#[test]
fn circle_of_radius_3_about_3_3() {
    assert_eq!(
        circle(3, (3, 3)),
        vec![
            (6, 3),
            (6, 4),
            (6, 5),
            (5, 6),
            (4, 6),
            (3, 6),
            (2, 6),
            (1, 6),
            (0, 5),
            (0, 4),
            (0, 3),
            (0, 2),
            (0, 1),
            (1, 0),
            (2, 0),
            (3, 0),
            (4, 0),
            (5, 0),
            (6, 1),
            (6, 2),
        ]
    );
}

#[test]
fn circle_of_radius_1_is_the_ring_about_the_centre() {
    assert_eq!(
        circle(1, (0, 0)),
        vec![(1, 0), (1, 1), (0, 1), (-1, 1), (-1, 0), (-1, -1), (0, -1), (1, -1)]
    );
}

#[test]
fn circle_of_radius_2_drops_the_mirrored_diagonal_pixel() {
    assert_eq!(
        circle(2, (10, -10)),
        vec![
            (12, -10),
            (12, -9),
            (12, -8),
            (11, -8),
            (10, -8),
            (9, -8),
            (8, -8),
            (8, -9),
            (8, -10),
            (8, -11),
            (8, -12),
            (9, -12),
            (10, -12),
            (11, -12),
            (12, -12),
            (12, -11),
        ]
    );
}

#[test]
fn circle_of_radius_0_is_its_centre() {
    assert_eq!(circle(0, (4, -9)), vec![(4, -9)]);
    assert_eq!(circle(0, (i32::MAX, i32::MIN)), vec![(i32::MAX, i32::MIN)]);
}

#[test]
fn circle_of_negative_radius_is_empty() {
    assert_eq!(circle(-1, (0, 0)), vec![]);
    assert_eq!(circle(i32::MIN, (7, 7)), vec![]);
}

#[test]
fn circle_at_the_edge_of_the_address_range() {
    let c = circle(2, (i32::MAX - 2, i32::MIN + 2));
    assert_eq!(c.len(), 16);
    assert_eq!(c[0], (i32::MAX, i32::MIN + 2));
    assert_eq!(c[2], (i32::MAX, i32::MIN + 4));
    assert_eq!(c[10], (i32::MAX - 4, i32::MIN));
}

#[test]
fn circles_hold_no_pixel_twice() {
    for r in 0..=60 {
        let mut c = circle(r, (r, r));
        let n = c.len();
        c.sort();
        c.dedup();
        assert_eq!(c.len(), n, "radius {}", r);
    }
}

#[test]
fn circle_pixels_hug_the_circle() {
    for r in 1i64..=60 {
        for (x, y) in circle(r as i32, (0, 0)) {
            let a = (x.abs().max(y.abs())) as i64;
            let b = (x.abs().min(y.abs())) as i64;
            assert!(a <= r);
            if b == 0 {
                assert_eq!(a, r);
            } else {
                let below = a * a + (b - 1) * (b - 1);
                let beside = (a + 1) * (a + 1) + (b - 1) * (b - 1);
                assert!(below <= r * (r + 1) && r * (r + 1) < beside);
            }
            let d2 = a * a + b * b;
            assert!((2 * r - 1) * (2 * r - 1) < 4 * d2);
            assert!(4 * d2 < (2 * r + 3) * (2 * r + 3));
        }
    }
}

#[test]
fn circle_holds_every_pixel_that_hugs_it() {
    let r = 9i64;
    let c = circle(r as i32, (0, 0));
    let mut expected = 0;
    for x in -12i64..=12 {
        for y in -12i64..=12 {
            let a = x.abs().max(y.abs());
            let b = x.abs().min(y.abs());
            let on = if b == 0 {
                a == r
            } else {
                a * a + (b - 1) * (b - 1) <= r * (r + 1)
                    && r * (r + 1) < (a + 1) * (a + 1) + (b - 1) * (b - 1)
            };
            assert_eq!(c.contains(&(x as i32, y as i32)), on, "pixel ({}, {})", x, y);
            if on {
                expected += 1;
            }
        }
    }
    assert_eq!(c.len(), expected);
}

#[test]
fn circle_runs_counter_clockwise_by_quadrants() {
    let c = circle(10, (0, 0));
    let quarter = c.len() / 4;
    assert_eq!(c.len(), 4 * quarter);
    assert_eq!(c[0], (10, 0));
    assert_eq!(c[quarter], (0, 10));
    assert_eq!(c[2 * quarter], (-10, 0));
    assert_eq!(c[3 * quarter], (0, -10));
    for k in 0..3 * quarter {
        let (x, y) = c[k];
        assert_eq!(c[k + quarter], (-y, x));
    }
}

#[test]
fn arc_of_radius_10() {
    assert_eq!(
        arc(10),
        vec![(10, 0), (10, 1), (10, 2), (10, 3), (10, 4), (9, 5), (9, 6), (8, 7)]
    );
}

#[test]
fn small_arcs() {
    assert_eq!(arc(0), vec![(0, 0)]);
    assert_eq!(arc(1), vec![(1, 0), (1, 1)]);
    assert_eq!(arc(2), vec![(2, 0), (2, 1), (2, 2)]);
    assert_eq!(arc(3), vec![(3, 0), (3, 1), (3, 2)]);
    assert_eq!(arc(5), vec![(5, 0), (5, 1), (5, 2), (5, 3), (4, 4)]);
    assert_eq!(arc(-3), vec![]);
}

#[test]
fn arc_stepper_ends_where_the_arc_leaves_the_octant() {
    let mut steps = CirclePixelOctant::new(1);
    let first = steps.next().unwrap();
    assert_eq!((first.x(), first.y()), (1, 0));
    let second = steps.next().unwrap();
    assert_eq!((second.x(), second.y()), (1, 1));
    assert!(steps.next().is_none());
    assert!(steps.next().is_none());
}

#[test]
fn arc_stepper_of_radius_0_yields_one_pixel() {
    let mut steps = CirclePixelOctant::new(0);
    let only = steps.next().unwrap();
    assert_eq!((only.x(), only.y()), (0, 0));
    assert!(steps.next().is_none());
}

#[test]
fn arc_of_the_largest_radius_starts_on_the_axis() {
    let mut steps = CirclePixelOctant::new(i32::MAX);
    let first = steps.next().unwrap();
    assert_eq!((first.x(), first.y()), (i32::MAX as i64, 0));
    let second = steps.next().unwrap();
    assert_eq!((second.x(), second.y()), (i32::MAX as i64, 1));
}

#[test]
fn circle_stepper_stays_exhausted() {
    let mut pixels = iter_pixels_in_circle(1, Point::new(0, 0));
    for _ in 0..8 {
        assert!(pixels.next().is_some());
    }
    assert_eq!(pixels.next(), None);
    assert_eq!(pixels.next(), None);
    let mut lone = iter_pixels_in_circle(0, Point::new(2, 3));
    assert_eq!(lone.next(), Some(Point::new(2, 3)));
    assert_eq!(lone.next(), None);
    let mut none = iter_pixels_in_circle(-2, Point::new(2, 3));
    assert_eq!(none.next(), None);
}

#[test]
fn a_fresh_call_starts_a_fresh_circle() {
    let mut first = iter_pixels_in_circle(4, Point::new(0, 0));
    first.next();
    first.next();
    let mut second = iter_pixels_in_circle(4, Point::new(0, 0));
    assert_eq!(second.next(), Some(Point::new(4, 0)));
    assert_eq!(first.next(), Some(Point::new(4, 2)));
}

#[test]
fn replicate_mirrors_all_but_the_first_pixel_of_an_arc_off_the_diagonal() {
    assert_eq!(
        replicate(&[(3, 0), (3, 1)], (0, 0)),
        vec![
            (3, 0),
            (3, 1),
            (1, 3),
            (0, 3),
            (-1, 3),
            (-3, 1),
            (-3, 0),
            (-3, -1),
            (-1, -3),
            (0, -3),
            (1, -3),
            (3, -1),
        ]
    );
}

#[test]
fn replicate_does_not_mirror_a_last_pixel_on_the_diagonal() {
    let pixels = replicate(&[(2, 0), (2, 1), (2, 2)], (5, 5));
    assert_eq!(pixels.len(), 16);
    assert_eq!(pixels[2], (7, 7));
    assert_eq!(pixels[3], (6, 7));
    assert_eq!(pixels[4], (5, 7));
}

#[test]
fn replicate_of_short_lists() {
    assert_eq!(replicate(&[], (1, 1)), vec![]);
    assert_eq!(replicate(&[(4, 0)], (1, 1)), vec![(5, 1), (1, 5), (-3, 1), (1, -3)]);
    assert_eq!(replicate(&[(2, 2)], (0, 0)), vec![(2, 2), (-2, 2), (-2, -2), (2, -2)]);
    assert_eq!(replicate(&[(0, 0)], (6, 7)), vec![(6, 7), (6, 7), (6, 7), (6, 7)]);
}
