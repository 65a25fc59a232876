//! Turns low-level kernel execution traces (CPU program-counter samples or
//! memory-allocator events) into aggregated, symbol-resolved folded stacks
//! for flame-graph rendering.

pub mod decode;
pub mod errors;
pub mod folded;
pub mod memory;
pub mod output;
pub mod symbols;
