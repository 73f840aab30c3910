//! Tile catalogs with edge signatures, and a grid of cells resolved one at a
//! time, each resolution pruning the chosen tile from the cell's orthogonal
//! neighbours.

pub mod collapse;
pub mod grid;
pub mod raster;
pub mod tile;

pub use collapse::{collapse, step, TickOutcome};
pub use grid::{grid_dimensions, init_grid, Cell, Grid};
pub use raster::{Raster, Rgba};
pub use tile::{build_catalog, Tile, TileError, MAX_SIDE};
