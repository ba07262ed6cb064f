//! Wave function collapse on a rectangular grid of tiles.
//!
//! A catalog of tiles describes, for each tile, the pattern drawn on each of
//! its four sides. Every grid cell starts out with the whole catalog as its
//! candidates; collapsing a cell commits it to one candidate, and propagation
//! removes from the other cells the candidates that no neighbour can sit next
//! to any more.
//!
//! - [`tiles`] holds the catalog and the rule that says which tiles fit.
//! - [`wave`], [`propagation`] and [`steps`] are the mathematical model: sets
//!   of candidates, what constraining and propagating do to them, and how a
//!   generation proceeds.
//! - [`cell`] and [`grid`] are the executable cells and grid.
//! - [`model`] drives a grid to its end.
//! - `random` is where the library draws random numbers.
//!
//! # Contradictions
//!
//! Removing candidates can leave a cell with none. Such a cell is a
//! contradiction: the choices made so far cannot be completed. Nothing is
//! undone in that case. The cell stays empty, it is never selected for
//! collapse, and the generation goes on with the cells that are still open
//! until none is left. [`grid::Grid::has_contradiction`] tells afterwards
//! whether the grid could be filled.
//!
//! A collapsed cell is never constrained. So a finished grid without a
//! contradiction need not fit everywhere: two cells that were each left with
//! one candidate by other neighbours are not held against each other.

pub mod tiles;
mod random;
pub mod wave;
pub mod propagation;
pub mod steps;
pub mod cell;
pub mod grid;
pub mod model;
