//! Verified grid and control logic for moving-least-squares (MLS) midpoint
//! projection over a counting-sort cell grid.
//!
//! Coordinates travel through the library as IEEE 754 binary32 encodings
//! (`binary32`); the library bins points into cells (`grid`, `counting`),
//! lists the support candidates of a query (`neighbours`, `walk`), reorders
//! vertex buffers and checks projection inputs (`layout`), and chooses the
//! backend that runs a projection (`backend`, `names`).

pub mod backend;
pub mod binary32;
pub mod counting;
pub mod grid;
pub mod layout;
pub mod names;
pub mod neighbours;
pub mod permutation;
pub mod properties;
pub mod walk;

pub use backend::Backend;
pub use grid::{linear_cell, ArenaError, GridGeometry, MlsArena};
