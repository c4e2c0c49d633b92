//! Functions on tiles and their cost.

pub mod accum_fn;
pub mod elementwise;
pub mod map_accum_fn;
pub mod map_fn;
