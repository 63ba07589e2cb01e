//! A signal-propagation engine over a grid of wire cells.

pub mod cell;
pub mod circuit;
pub mod laws;
pub mod rule;
pub mod schedule;

pub use cell::{Cell, CellBits};
pub use circuit::Circuit;
