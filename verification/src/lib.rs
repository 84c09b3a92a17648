//! Abelian sandpile (chip-firing) automaton on a fixed rectangular grid.
//!
//! A grid of integer heights is *stable* when every cell holds less than 4
//! units. An unstable cell fires: it loses 4 units and sends 1 unit to each
//! orthogonal neighbour that exists; units sent past the boundary are lost.
//! The library constructs grids, adds them cell-wise, and drives any grid to
//! a stable configuration.

pub mod laws;
pub mod model;
pub mod sandpile;

pub use self::sandpile::Sandpile;
