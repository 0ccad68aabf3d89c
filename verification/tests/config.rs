use pixel_rays::config::{RaycastConfig, MAX_RADIUS};
use pixel_rays::pixel_math::iter_pixels_in_circle;
use pixel_rays::pixel_math::vector::Point;

fn sorted(pixels: &[Point]) -> Vec<(i32, i32)> {
    let mut v: Vec<(i32, i32)> = pixels.iter().map(|p| (p.x, p.y)).collect();
    v.sort();
    v
}

#[test]
fn set_up_of_radius_3() {
    let config = RaycastConfig::new(3, false);
    assert_eq!(config.radius, 3);
    assert_eq!(config.target_pixel, Point::new(3, 3));
    assert_eq!(config.output_dim, 7);
    assert_eq!(config.total_rays, 20);
    let mut circle = iter_pixels_in_circle(3, Point::new(3, 3));
    for origin in config.origin_pixels.iter() {
        assert_eq!(circle.next(), Some(*origin));
    }
    assert_eq!(circle.next(), None);
    assert_eq!(config.origin_pixels[0], Point::new(6, 3));
    assert_eq!(config.origin_pixels[19], Point::new(6, 2));
}

#[test]
fn set_up_of_radius_0() {
    let config = RaycastConfig::new(0, true);
    assert_eq!(config.radius, 0);
    assert_eq!(config.target_pixel, Point::new(0, 0));
    assert_eq!(config.output_dim, 1);
    assert_eq!(config.total_rays, 1);
    assert_eq!(config.origin_pixels, vec![Point::new(0, 0)]);
}

#[test]
fn origins_lie_on_the_canvas() {
    let config = RaycastConfig::new(40, false);
    assert_eq!(config.output_dim, 81);
    assert_eq!(config.total_rays, config.origin_pixels.len());
    for p in config.origin_pixels.iter() {
        assert!(0 <= p.x && (p.x as usize) < config.output_dim);
        assert!(0 <= p.y && (p.y as usize) < config.output_dim);
    }
}

#[test]
fn randomized_origins_are_the_pixels_of_the_circle() {
    let plain = RaycastConfig::new(50, false);
    let shuffled = RaycastConfig::new(50, true);
    assert_eq!(shuffled.radius, 50);
    assert_eq!(shuffled.target_pixel, Point::new(50, 50));
    assert_eq!(shuffled.output_dim, 101);
    assert_eq!(shuffled.total_rays, plain.total_rays);
    assert_eq!(sorted(&shuffled.origin_pixels), sorted(&plain.origin_pixels));
}

fn shuffled(radius: usize, seed: u64) -> RaycastConfig {
    let mut config = RaycastConfig::new(radius, false);
    config.shuffle_origins(seed);
    config
}

#[test]
fn seeded_origins_are_the_pixels_of_the_circle_in_another_order() {
    let plain = RaycastConfig::new(50, false);
    let config = shuffled(50, 7);
    assert_eq!(config.radius, 50);
    assert_eq!(config.target_pixel, Point::new(50, 50));
    assert_eq!(config.output_dim, 101);
    assert_eq!(config.total_rays, 288);
    assert_eq!(sorted(&config.origin_pixels), sorted(&plain.origin_pixels));
    assert_ne!(config.origin_pixels, plain.origin_pixels);
}

#[test]
fn the_same_seed_gives_the_same_order() {
    let one = shuffled(30, 12345);
    let two = shuffled(30, 12345);
    let three = shuffled(30, 12346);
    assert_eq!(one.origin_pixels, two.origin_pixels);
    assert_ne!(one.origin_pixels, three.origin_pixels);
}

#[test]
fn shuffling_twice_shuffles_the_shuffled_order() {
    let mut twice = shuffled(30, 1);
    let once = shuffled(30, 1);
    twice.shuffle_origins(1);
    assert_eq!(sorted(&twice.origin_pixels), sorted(&once.origin_pixels));
    assert_ne!(twice.origin_pixels, once.origin_pixels);
}

#[test]
fn shuffle_of_one_origin() {
    let config = shuffled(0, 99);
    assert_eq!(config.origin_pixels, vec![Point::new(0, 0)]);
    assert_eq!(config.total_rays, 1);
}

#[test]
fn largest_radius_fits_the_address_range() {
    assert_eq!(2 * MAX_RADIUS + 1, i32::MAX as usize);
}
