//! Wave function collapse on grids of any number of dimensions.
//!
//! A [`Grid`] holds one [`Pixel`] per cell. A pixel lists the values it may still take, each
//! with a weight, and the value it has taken once only one is left or one was picked.
//! [`Grid::wfc`] fills a grid under a constraint that says which value may stand where, and
//! how much it weighs there: it picks a cell, makes it take a value, carries what follows
//! from that to the cells around it, and takes the grid back when that leaves a cell without
//! any value.
use vstd::prelude::*;

pub mod grid;
pub mod layout;
pub mod neighborhood;
pub mod pixel;
pub mod propagate;
pub mod random;
pub mod rule;
pub mod solver;
pub mod unique;

pub use grid::Grid;
pub use grid::SizeErr;
pub use pixel::Pixel;
pub use pixel::PixelChangeResult;
pub use pixel::PossibleValues;
pub use solver::Chance;
pub use solver::Round;
pub use unique::Unique;
