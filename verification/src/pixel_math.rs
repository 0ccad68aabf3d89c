//! Pixel geometry: integer vectors, the eight octants, and the two pixel
//! sequences built on them.

pub mod vector;
pub mod octant;
pub mod line;
pub mod circle;
pub mod circle_laws;

pub use self::circle::iter_pixels_in_circle;
pub use self::line::iter_pixels_in_line;
