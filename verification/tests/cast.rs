use pixel_rays::cast::{CastGrid, CastResults};
use pixel_rays::config::RaycastConfig;
use pixel_rays::pixel_math::iter_pixels_in_line;
use pixel_rays::pixel_math::vector::Point;

fn run(
    grid: &mut CastGrid,
    from: (i32, i32),
    to: (i32, i32),
    result: &mut CastResults,
) -> Vec<(i32, i32)> {
    grid.cast(&Point::new(from.0, from.1), &Point::new(to.0, to.1), result);
    result.out_pixels.iter().map(|p| (p.x, p.y)).collect()
}

fn line(from: Point, to: Point) -> Vec<Point> {
    let mut pixels = iter_pixels_in_line(from, to);
    let mut out = Vec::new();
    while let Some(p) = pixels.next() {
        out.push(p);
    }
    out
}

#[test]
fn new_results_are_empty() {
    let result = CastResults::new();
    assert!(result.out_pixels.is_empty());
    assert_eq!(result.pixel_count, 0);
    assert_eq!(result.cast_distance_squared, 0);
}

#[test]
fn first_ray_claims_its_whole_segment() {
    let config = RaycastConfig::new(5, false);
    let mut grid = CastGrid::new(&config);
    let mut result = CastResults::new();
    let pixels = run(&mut grid, (0, 0), (4, 2), &mut result);
    assert_eq!(pixels, vec![(0, 0), (1, 1), (2, 1), (3, 2), (4, 2)]);
    assert_eq!(result.pixel_count, 5);
    assert_eq!(result.cast_distance_squared, 20);
}

#[test]
fn second_ray_along_a_claimed_row_claims_nothing() {
    let config = RaycastConfig::new(5, false);
    let mut grid = CastGrid::new(&config);
    let mut result = CastResults::new();
    let first = run(&mut grid, (0, 0), (10, 0), &mut result);
    assert_eq!(first, (0..=10).map(|x| (x, 0)).collect::<Vec<_>>());
    assert_eq!(result.pixel_count, 11);
    assert_eq!(result.cast_distance_squared, 100);
    let second = run(&mut grid, (1, 0), (10, 0), &mut result);
    assert_eq!(second, vec![]);
    assert_eq!(result.pixel_count, 0);
    assert_eq!(result.cast_distance_squared, 0);
}

#[test]
fn ray_stops_before_the_first_claimed_pixel() {
    let config = RaycastConfig::new(5, false);
    let mut grid = CastGrid::new(&config);
    let mut result = CastResults::new();
    run(&mut grid, (5, 0), (5, 10), &mut result);
    let crossing = run(&mut grid, (0, 3), (10, 3), &mut result);
    assert_eq!(crossing, vec![(0, 3), (1, 3), (2, 3), (3, 3), (4, 3)]);
    assert_eq!(result.pixel_count, 5);
    assert_eq!(result.cast_distance_squared, 16);
}

#[test]
fn ray_does_not_resume_behind_a_claimed_pixel() {
    let config = RaycastConfig::new(5, false);
    let mut grid = CastGrid::new(&config);
    let mut result = CastResults::new();
    run(&mut grid, (5, 0), (5, 10), &mut result);
    run(&mut grid, (0, 3), (10, 3), &mut result);
    let again = run(&mut grid, (0, 3), (10, 3), &mut result);
    assert_eq!(again, vec![]);
    let beyond = run(&mut grid, (6, 3), (10, 3), &mut result);
    assert_eq!(beyond, vec![(6, 3), (7, 3), (8, 3), (9, 3), (10, 3)]);
}

#[test]
fn ray_of_one_pixel() {
    let config = RaycastConfig::new(2, false);
    let mut grid = CastGrid::new(&config);
    let mut result = CastResults::new();
    assert_eq!(run(&mut grid, (2, 2), (2, 2), &mut result), vec![(2, 2)]);
    assert_eq!(result.pixel_count, 1);
    assert_eq!(result.cast_distance_squared, 0);
    assert_eq!(run(&mut grid, (2, 2), (2, 2), &mut result), vec![]);
    assert_eq!(result.pixel_count, 0);
    assert_eq!(result.cast_distance_squared, 0);
}

#[test]
fn results_are_overwritten_by_each_cast() {
    let config = RaycastConfig::new(3, false);
    let mut grid = CastGrid::new(&config);
    let mut result = CastResults::new();
    run(&mut grid, (0, 0), (6, 6), &mut result);
    assert_eq!(result.pixel_count, 7);
    assert_eq!(result.cast_distance_squared, 72);
    let short = run(&mut grid, (6, 0), (4, 0), &mut result);
    assert_eq!(short, vec![(6, 0), (5, 0), (4, 0)]);
    assert_eq!(result.pixel_count, 3);
    assert_eq!(result.cast_distance_squared, 4);
}

#[test]
fn grids_of_one_set_up_do_not_share_claims() {
    let config = RaycastConfig::new(3, false);
    let mut one = CastGrid::new(&config);
    let mut other = CastGrid::new(&config);
    let mut result = CastResults::new();
    assert_eq!(run(&mut one, (0, 0), (2, 0), &mut result).len(), 3);
    assert_eq!(run(&mut other, (0, 0), (2, 0), &mut result).len(), 3);
    assert_eq!(run(&mut one, (0, 0), (2, 0), &mut result).len(), 0);
}

#[test]
fn rays_of_a_run_claim_disjoint_prefixes_of_their_segments() {
    let config = RaycastConfig::new(12, false);
    let mut grid = CastGrid::new(&config);
    let mut result = CastResults::new();
    let mut seen: Vec<Point> = Vec::new();
    let mut full_runs = 0;
    for origin in config.origin_pixels.iter() {
        grid.cast(origin, &config.target_pixel, &mut result);
        let whole = line(*origin, config.target_pixel);
        assert!(result.out_pixels.len() <= whole.len());
        assert_eq!(result.out_pixels[..], whole[..result.out_pixels.len()]);
        assert_eq!(result.pixel_count, result.out_pixels.len());
        if result.out_pixels.len() == whole.len() {
            full_runs += 1;
        }
        for p in result.out_pixels.iter() {
            assert!(!seen.contains(p));
            seen.push(*p);
        }
        assert_eq!(result.out_pixels[0], *origin);
    }
    assert_eq!(full_runs, 1);
    assert!(seen.contains(&config.target_pixel));
}

#[test]
fn distance_is_taken_between_the_ends_of_the_claimed_run() {
    let config = RaycastConfig::new(10, false);
    let mut grid = CastGrid::new(&config);
    let mut result = CastResults::new();
    run(&mut grid, (0, 12), (20, 6), &mut result);
    assert_eq!(result.pixel_count, 21);
    assert_eq!(result.cast_distance_squared, 436);
    let cut = run(&mut grid, (0, 0), (20, 20), &mut result);
    assert_eq!(cut, (0..=8).map(|i| (i, i)).collect::<Vec<_>>());
    assert_eq!(result.pixel_count, 9);
    assert_eq!(result.cast_distance_squared, 128);
}

#[test]
fn rays_may_cross_between_pixels() {
    let config = RaycastConfig::new(10, false);
    let mut grid = CastGrid::new(&config);
    let mut result = CastResults::new();
    run(&mut grid, (20, 0), (0, 15), &mut result);
    assert_eq!(result.pixel_count, 21);
    assert_eq!(result.cast_distance_squared, 625);
    let crossing = run(&mut grid, (0, 0), (20, 20), &mut result);
    assert_eq!(crossing.len(), 21);
    assert_eq!(result.cast_distance_squared, 800);
}
