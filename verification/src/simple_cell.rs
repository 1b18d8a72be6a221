//! A minimal cell value for plain black-and-white puzzles.

use vstd::prelude::*;
use crate::cell::Cell;
use crate::cell::CellValue;

verus! {

/// Binary cell. Either full or empty.
#[derive(Debug, PartialEq, Eq, Structural, Copy, Clone)]
pub struct SimpleCell;

impl CellValue for SimpleCell {
    fn eq_value(&self, other: &Self) -> (r: bool)
        ensures
            r == (*self == *other),
    {
        true
    }
}

impl SimpleCell {
    /// Gets the character representation of the given simple cell.
    pub fn char_repr(cell: &Cell<SimpleCell>) -> (r: char)
        ensures
            r == (match *cell {
                Cell::Empty => '.',
                Cell::CrossedOut => '/',
                Cell::Filled(_) => '#',
            }),
    {
        match *cell {
            Cell::Empty => '.',
            Cell::CrossedOut => '/',
            Cell::Filled(_) => '#',
        }
    }
}

} // verus!
