//! Walks through shapes, rounding and other helpers.

pub mod calculation;
pub mod decimal;
pub mod id_list;
pub mod indexing;
pub mod mapping;
