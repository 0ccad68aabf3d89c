//! Exact integer rasterisation of line segments and circles by octant
//! symmetry, and a ray caster that shares one grid of claimed pixels among
//! all the rays of a run.

pub mod pixel_math;
pub mod config;
pub mod cast;
