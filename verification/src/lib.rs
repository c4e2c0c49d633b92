//! Stream operators, tile functions and address generators of a dataflow
//! performance simulator.

pub mod build_sim;
pub mod functions;
pub mod memory;
pub mod memory_simple;
pub mod operator;
pub mod primitives;
pub mod ramulator;
pub mod utils;
