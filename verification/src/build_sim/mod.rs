//! Building the graph of a simulation.

pub mod channel;
