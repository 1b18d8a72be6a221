//! Run constraints, puzzles, and the matcher that decides whether a line of
//! cells satisfies its ordered list of runs.

use vstd::prelude::*;
use crate::board::Board;
use crate::board::col_of;
use crate::cell::Cell;
use crate::cell::CellValue;
use crate::cell::spec_ignored;

verus! {

/// An entry in a constraint.
#[derive(Clone, Copy, Debug)]
pub struct ConstraintEntry<C> {
    /// The cell value this entry expects.
    pub value: C,
    /// The number of contiguous cells this entry expects.
    pub size: usize,
}

impl<C> From<(usize, C)> for ConstraintEntry<C> {
    fn from(pair: (usize, C)) -> (r: Self) {
        ConstraintEntry { value: pair.1, size: pair.0 }
    }
}

impl<C> vstd::std_specs::convert::FromSpecImpl<(usize, C)> for ConstraintEntry<C> {
    open spec fn obeys_from_spec() -> bool {
        true
    }

    open spec fn from_spec(pair: (usize, C)) -> Self {
        ConstraintEntry { value: pair.1, size: pair.0 }
    }
}

/// A constraint. Fully describes a row, column, etc.
pub type Constraint<C> = Vec<ConstraintEntry<C>>;

/// A group of constraints. Fully describes all rows, all columns, etc.
pub type ConstraintGroup<C> = Vec<Constraint<C>>;

/// The expected run `(value, length)` of a constraint entry.
pub open spec fn entry_view<C>(e: ConstraintEntry<C>) -> (C, nat) {
    (e.value, e.size as nat)
}

/// The ordered expected runs of a whole constraint.
pub open spec fn entries_view<C>(k: Seq<ConstraintEntry<C>>) -> Seq<(C, nat)> {
    k.map_values(|e: ConstraintEntry<C>| entry_view(e))
}

/// The view of a constraint group: each line's constraint as a sequence.
pub open spec fn group_view<C>(g: ConstraintGroup<C>) -> Seq<Seq<ConstraintEntry<C>>> {
    g@.map_values(|k: Constraint<C>| k@)
}

/// Every entry of the group demands at least one cell; zero-length runs are
/// not meaningful and must not be constructed.
pub open spec fn group_wf<C>(g: Seq<Seq<ConstraintEntry<C>>>) -> bool {
    forall|i: int, j: int|
        0 <= i < g.len() && 0 <= j < g[i].len() ==> (#[trigger] g[i][j]).size >= 1
}

/// The ordered runs observed in a line of cells, left to right: maximal
/// groups of adjacent `Filled` cells that carry equal values, each recorded
/// as `(value, length)`.  Ignored cells separate runs; so does a change of
/// value between adjacent filled cells.
pub open spec fn line_runs<C: CellValue>(line: Seq<Cell<C>>) -> Seq<(C, nat)>
    decreases line.len(),
{
    if line.len() == 0 {
        Seq::empty()
    } else {
        let front = line_runs(line.drop_last());
        match line.last() {
            Cell::Filled(v) => {
                if line.len() >= 2 && (line[line.len() - 2] matches Cell::Filled(w) && w == v) {
                    front.update(front.len() - 1, (v, (front.last().1 + 1) as nat))
                } else {
                    front.push((v, 1nat))
                }
            }
            _ => front,
        }
    }
}

/// A line satisfies a constraint when the observed runs are exactly the
/// expected runs: same values, same lengths, same order.
pub open spec fn line_satisfies<C: CellValue>(k: Seq<ConstraintEntry<C>>, line: Seq<Cell<C>>) -> bool {
    entries_view(k) == line_runs(line)
}

/// A line ending in a filled cell always ends in an observed run carrying
/// that cell's value.
pub proof fn lemma_runs_last_filled<C: CellValue>(line: Seq<Cell<C>>, v: C)
    requires
        line.len() > 0,
        line.last() == Cell::Filled(v),
    ensures
        line_runs(line).len() > 0,
        line_runs(line).last().0 == v,
        line_runs(line).last().1 >= 1,
    decreases line.len(),
{
    if line.len() >= 2 && (line[line.len() - 2] matches Cell::Filled(w) && w == v) {
        lemma_runs_last_filled(line.drop_last(), v);
    }
}

/// Two lines that differ only at positions where both are ignored cells have
/// the same observed runs.
pub open spec fn ignored_eq_lines<C: CellValue>(l1: Seq<Cell<C>>, l2: Seq<Cell<C>>) -> bool {
    &&& l1.len() == l2.len()
    &&& forall|i: int|
        0 <= i < l1.len()
            ==> (#[trigger] l1[i]) == l2[i] || (spec_ignored(l1[i]) && spec_ignored(l2[i]))
}

/// Run detection never looks at whether an ignored cell is `Empty` or
/// `CrossedOut`: toggling ignored cells leaves the observed runs unchanged.
pub proof fn lemma_runs_ignored_eq<C: CellValue>(l1: Seq<Cell<C>>, l2: Seq<Cell<C>>)
    requires
        ignored_eq_lines(l1, l2),
    ensures
        line_runs(l1) == line_runs(l2),
    decreases l1.len(),
{
    if l1.len() > 0 {
        assert(ignored_eq_lines(l1.drop_last(), l2.drop_last()));
        lemma_runs_ignored_eq(l1.drop_last(), l2.drop_last());
    }
}

/// A line has no observed runs exactly when every one of its cells is
/// ignored.
pub proof fn lemma_no_runs_iff_all_ignored<C: CellValue>(line: Seq<Cell<C>>)
    ensures
        line_runs(line).len() == 0 <==> (forall|i: int|
            0 <= i < line.len() ==> spec_ignored(#[trigger] line[i])),
    decreases line.len(),
{
    if line.len() > 0 {
        lemma_no_runs_iff_all_ignored(line.drop_last());
        match line.last() {
            Cell::Filled(v) => {
                lemma_runs_last_filled(line, v);
                assert(!spec_ignored(line[line.len() - 1]));
            }
            _ => {
                assert forall|i: int|
                    0 <= i < line.len() && (forall|j: int|
                        0 <= j < line.drop_last().len()
                            ==> spec_ignored(#[trigger] line.drop_last()[j]))
                    implies spec_ignored(#[trigger] line[i]) by {
                    if i < line.len() - 1 {
                        assert(line.drop_last()[i] == line[i]);
                    }
                }
            }
        }
    }
}

/// The empty constraint is satisfied by exactly the lines whose cells are all
/// ignored: `Empty` or `CrossedOut`.
pub proof fn lemma_empty_constraint_iff_all_ignored<C: CellValue>(
    k: Seq<ConstraintEntry<C>>,
    line: Seq<Cell<C>>,
)
    requires
        k.len() == 0,
    ensures
        line_satisfies(k, line) <==> (forall|i: int|
            0 <= i < line.len() ==> spec_ignored(#[trigger] line[i])),
{
    lemma_no_runs_iff_all_ignored(line);
    if line_runs(line).len() == 0 {
        assert(entries_view(k) =~= line_runs(line));
    } else {
        assert(entries_view(k).len() == 0);
    }
}

/// A line whose cells are all ignored satisfies exactly the constraints with
/// no entries.
pub proof fn lemma_ignored_line_solved<C: CellValue>(
    k: Seq<ConstraintEntry<C>>,
    line: Seq<Cell<C>>,
)
    requires
        forall|i: int| 0 <= i < line.len() ==> spec_ignored(#[trigger] line[i]),
    ensures
        line_satisfies(k, line) == (k.len() == 0),
{
    lemma_no_runs_iff_all_ignored(line);
    if k.len() == 0 {
        assert(entries_view(k) =~= line_runs(line));
    } else {
        assert(entries_view(k).len() == k.len());
    }
}

/// The matcher is order-sensitive: two observed unit runs of one value never
/// collapse into a single expected run of length two.
pub proof fn lemma_order_sensitive<C: CellValue>(
    k: Seq<ConstraintEntry<C>>,
    line: Seq<Cell<C>>,
    v: C,
)
    requires
        line_runs(line) == seq![(v, 1nat), (v, 1nat)],
        entries_view(k) == seq![(v, 2nat)],
    ensures
        !line_satisfies(k, line),
{
    assert(line_runs(line).len() == 2);
    assert(entries_view(k).len() == 1);
}

/// A picross puzzle: one run constraint per row and one per column.
pub struct Puzzle<C> {
    row_constraints: ConstraintGroup<C>,
    column_constraints: ConstraintGroup<C>,
}

impl<C> Puzzle<C> {
    /// The row constraints, one per row of a matching board, top to bottom.
    pub closed spec fn spec_rows(self) -> Seq<Seq<ConstraintEntry<C>>> {
        group_view(self.row_constraints)
    }

    /// The column constraints, one per column of a matching board, left to
    /// right.
    pub closed spec fn spec_cols(self) -> Seq<Seq<ConstraintEntry<C>>> {
        group_view(self.column_constraints)
    }

    /// Every entry of the puzzle demands at least one cell.
    pub open spec fn wf(self) -> bool {
        group_wf(self.spec_rows()) && group_wf(self.spec_cols())
    }

    /// Creates a new puzzle with the given constraint groups.
    pub fn new(row_constraints: ConstraintGroup<C>, column_constraints: ConstraintGroup<C>) -> (puzzle: Self)
        requires
            group_wf(group_view(row_constraints)),
            group_wf(group_view(column_constraints)),
        ensures
            puzzle.wf(),
            puzzle.spec_rows() == group_view(row_constraints),
            puzzle.spec_cols() == group_view(column_constraints),
    {
        Self { row_constraints, column_constraints }
    }

    /// Returns the row constraint group.
    pub fn row_constraints(&self) -> (r: &ConstraintGroup<C>)
        ensures
            group_view(*r) == self.spec_rows(),
    {
        &self.row_constraints
    }

    /// Returns the column constraint group.
    pub fn column_constraints(&self) -> (r: &ConstraintGroup<C>)
        ensures
            group_view(*r) == self.spec_cols(),
    {
        &self.column_constraints
    }
}

impl<C: CellValue> Puzzle<C> {
    /// Decides whether `cells` satisfies `constraint`: observed runs are
    /// grouped left to right and compared entry by entry with the expected
    /// ones.
    pub fn is_solved(constraint: &Constraint<C>, cells: &Vec<Cell<C>>) -> (r: bool)
        ensures
            r == line_satisfies(constraint@, cells@),
    {
        let ghost line = cells@;
        let mut runs: Vec<(C, usize)> = Vec::new();
        let n = cells.len();
        let mut i: usize = 0;
        while i < n
            invariant
                i <= n,
                n == line.len(),
                line == cells@,
                runs_view(runs@) == line_runs(line.take(i as int)),
                forall|t: int| 0 <= t < runs@.len() ==> 1 <= (#[trigger] runs@[t]).1 <= i,
            decreases n - i,
        {
            let ghost prefix = line.take(i as int);
            let ghost longer = line.take(i as int + 1);
            proof {
                assert(longer.drop_last() =~= prefix);
                assert(longer.last() == line[i as int]);
            }
            match cells[i] {
                Cell::Filled(v) => {
                    let mut extend = false;
                    if i > 0 {
                        match cells[i - 1] {
                            Cell::Filled(w) => {
                                extend = w.eq_value(&v);
                                proof {
                                    if extend {
                                        lemma_runs_last_filled(prefix, v);
                                    }
                                }
                            }
                            _ => {}
                        }
                    }
                    if extend {
                        let last = runs.len() - 1;
                        let (lv, lsize) = runs[last];
                        proof {
                            assert(runs_view(runs@)[last as int] == (lv, lsize as nat));
                            assert(line_runs(prefix).last() == (lv, lsize as nat));
                            assert(lv == v);
                        }
                        runs.set(last, (lv, lsize + 1));
                        proof {
                            assert(runs_view(runs@) =~= line_runs(longer));
                        }
                    } else {
                        runs.push((v, 1));
                        proof {
                            assert(line_runs(longer) == line_runs(prefix).push((v, 1nat)));
                            assert(runs_view(runs@) =~= line_runs(longer));
                        }
                    }
                }
                _ => {
                    proof {
                        assert(line_runs(longer) == line_runs(prefix));
                    }
                }
            }
            i = i + 1;
        }
        proof {
            assert(line.take(n as int) =~= line);
        }
        let m = constraint.len();
        if m != runs.len() {
            proof {
                assert(entries_view(constraint@).len() == m);
                assert(line_runs(line).len() == runs@.len());
            }
            return false;
        }
        let mut j: usize = 0;
        while j < m
            invariant
                j <= m,
                m == constraint@.len(),
                m == runs@.len(),
                line == cells@,
                runs_view(runs@) == line_runs(line),
                forall|t: int|
                    0 <= t < j ==> #[trigger] entries_view(constraint@)[t] == runs_view(runs@)[t],
            decreases m - j,
        {
            let e = constraint[j];
            let (rv, rs) = runs[j];
            let values_eq = e.value.eq_value(&rv);
            if !(values_eq && e.size == rs) {
                proof {
                    assert(entries_view(constraint@)[j as int] == (e.value, e.size as nat));
                    assert(runs_view(runs@)[j as int] == (rv, rs as nat));
                }
                return false;
            }
            j = j + 1;
        }
        proof {
            assert(entries_view(constraint@) =~= runs_view(runs@));
        }
        true
    }

    /// Checks whether the row in `board` at `index` is valid.
    pub fn row_is_solved(&self, board: &Board<C>, index: usize) -> (r: bool)
        requires
            board.wf(),
            board.spec_height() == self.spec_rows().len(),
            index < self.spec_rows().len(),
        ensures
            r == line_satisfies(self.spec_rows()[index as int], board@[index as int]),
    {
        let row = board.row(index);
        Self::is_solved(&self.row_constraints[index], &row)
    }

    /// Checks whether the column in `board` at `index` is valid.
    pub fn column_is_solved(&self, board: &Board<C>, index: usize) -> (r: bool)
        requires
            board.wf(),
            board.spec_width() == self.spec_cols().len(),
            index < self.spec_cols().len(),
        ensures
            r == line_satisfies(self.spec_cols()[index as int], col_of(board@, index as int)),
    {
        let column = board.column(index);
        Self::is_solved(&self.column_constraints[index], &column)
    }

    /// Checks whether the given board is a solution for this puzzle: every
    /// row and every column satisfies its constraint.
    /// Assumes the board has the same width and height as this puzzle.
    pub fn is_solved_by(&self, board: &Board<C>) -> (r: bool)
        requires
            board.wf(),
            board.spec_height() == self.spec_rows().len(),
            board.spec_width() == self.spec_cols().len(),
        ensures
            r == ((forall|i: int|
                0 <= i < self.spec_rows().len()
                    ==> line_satisfies(#[trigger] self.spec_rows()[i], board@[i])) && (forall|j: int|
                0 <= j < self.spec_cols().len()
                    ==> line_satisfies(#[trigger] self.spec_cols()[j], col_of(board@, j)))),
    {
        let height = self.row_constraints.len();
        let mut i: usize = 0;
        while i < height
            invariant
                i <= height,
                height == self.spec_rows().len(),
                board.wf(),
                board.spec_height() == self.spec_rows().len(),
                forall|t: int|
                    0 <= t < i ==> line_satisfies(#[trigger] self.spec_rows()[t], board@[t]),
            decreases height - i,
        {
            if !self.row_is_solved(board, i) {
                return false;
            }
            i = i + 1;
        }
        let width = self.column_constraints.len();
        let mut j: usize = 0;
        while j < width
            invariant
                j <= width,
                width == self.spec_cols().len(),
                board.wf(),
                board.spec_width() == self.spec_cols().len(),
                forall|i2: int|
                    0 <= i2 < self.spec_rows().len()
                        ==> line_satisfies(#[trigger] self.spec_rows()[i2], board@[i2]),
                forall|t: int|
                    0 <= t < j ==> line_satisfies(#[trigger] self.spec_cols()[t], col_of(board@, t)),
            decreases width - j,
        {
            if !self.column_is_solved(board, j) {
                return false;
            }
            j = j + 1;
        }
        true
    }
}

/// The observed runs that an executable run vector stands for.
pub open spec fn runs_view<C: CellValue>(rs: Seq<(C, usize)>) -> Seq<(C, nat)> {
    rs.map_values(|p: (C, usize)| (p.0, p.1 as nat))
}

} // verus!

