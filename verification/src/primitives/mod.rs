//! What flows through a program: streams of tiles, buffers and selections.

pub mod array;
pub mod buffer;
pub mod elem;
pub mod select;
pub mod tensor;
pub mod tile;
