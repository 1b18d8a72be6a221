//! The tri-state cell that fills a picross board.

use vstd::prelude::*;

verus! {

/// Trait for types that can be cell values.
///
/// A value type must be copyable and must supply an equality test that agrees
/// with mathematical equality: run detection groups adjacent filled cells by
/// value, so the grouping is only meaningful when the test is exact.
pub trait CellValue: Copy + PartialEq + Sized {
    /// Compares two values for equality.
    fn eq_value(&self, other: &Self) -> (r: bool)
        ensures
            r == (*self == *other),
    ;
}

/// A cell in a picross board.
#[derive(PartialEq, Copy, Clone, Debug)]
pub enum Cell<C: CellValue> {
    /// An empty cell.
    Empty,
    /// A crossed out cell.
    CrossedOut,
    /// A cell with a value.
    Filled(C),
}

/// Whether a cell takes no part in run detection: `Empty` and `CrossedOut`
/// cells are skipped when a line is grouped into runs.
pub open spec fn spec_ignored<C: CellValue>(cell: Cell<C>) -> bool {
    match cell {
        Cell::Empty => true,
        Cell::CrossedOut => true,
        Cell::Filled(_) => false,
    }
}

impl<C: CellValue> Cell<C> {
    /// Whether or not this cell is ignored by constraints.
    pub fn is_ignored(&self) -> (r: bool)
        ensures
            r == spec_ignored(*self),
    {
        match self {
            Cell::Empty | Cell::CrossedOut => true,
            Cell::Filled(_) => false,
        }
    }
}

} // verus!
