//! Grid cells, the footprints objects occupy on them, and the depth sorts.

pub mod cell;
pub mod current;
pub mod depth;
pub mod error;
pub mod pending;
pub mod saved;
pub mod sort;
