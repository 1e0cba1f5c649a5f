//! Random fleet layouts for a naval-combat game: ships are straight runs of
//! cells on a square grid, inside its bounds, and no two ships touch, not even
//! diagonally.

pub mod grid;
pub mod ship;
pub mod placement;
mod random;
pub mod fleet;
