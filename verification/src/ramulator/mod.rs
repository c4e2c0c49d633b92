//! The off-chip memory as a simulation sees it.

pub mod hbm_context;
