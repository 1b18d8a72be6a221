//! Core library for picross (nonogram) frontends.
//!
//! A board of tri-state cells is played against a puzzle: an ordered list of
//! run constraints for every row and every column.  The controller applies
//! player edits, re-checks the affected lines, and keeps a cache of per-line
//! solved bits together with an auto-annotation pass over completed lines.

pub mod board;
pub mod cell;
pub mod picross;
pub mod puzzle;
pub mod simple_cell;

pub use board::Board;
pub use cell::{Cell, CellValue};
pub use picross::Picross;
pub use puzzle::{Constraint, ConstraintEntry, ConstraintGroup, Puzzle};
pub use simple_cell::SimpleCell;
