//! Draw-order computation for multi-cell objects on a staggered isometric grid.

pub mod cells;
