//! The game controller: a board played against a puzzle, with cached
//! per-line solved bits and the auto-annotation policy.

use vstd::prelude::*;
use crate::board::Board;
use crate::board::col_of;
use crate::cell::Cell;
use crate::cell::CellValue;
use crate::cell::spec_ignored;
use crate::puzzle::ConstraintEntry;
use crate::puzzle::ConstraintGroup;
use crate::puzzle::Puzzle;
use crate::puzzle::ignored_eq_lines;
use crate::puzzle::lemma_ignored_line_solved;
use crate::puzzle::lemma_runs_ignored_eq;
use crate::puzzle::line_satisfies;

verus! {

/// A grid with `h` rows, each of width `w`.
pub open spec fn grid_shape<C: CellValue>(g: Seq<Seq<Cell<C>>>, h: int, w: int) -> bool {
    &&& g.len() == h
    &&& forall|r: int| 0 <= r < g.len() ==> (#[trigger] g[r]).len() == w
}

/// Whether row `r` of `g` satisfies its constraint in the row group `rc`.
pub open spec fn row_solved<C: CellValue>(
    rc: Seq<Seq<ConstraintEntry<C>>>,
    g: Seq<Seq<Cell<C>>>,
    r: int,
) -> bool {
    line_satisfies(rc[r], g[r])
}

/// Whether column `c` of `g` satisfies its constraint in the column group
/// `cc`.
pub open spec fn col_solved<C: CellValue>(
    cc: Seq<Seq<ConstraintEntry<C>>>,
    g: Seq<Seq<Cell<C>>>,
    c: int,
) -> bool {
    line_satisfies(cc[c], col_of(g, c))
}

/// Two grids of equal shape whose cells agree except that ignored cells may
/// be toggled between `Empty` and `CrossedOut`.
pub open spec fn grids_ignored_eq<C: CellValue>(
    g1: Seq<Seq<Cell<C>>>,
    g2: Seq<Seq<Cell<C>>>,
) -> bool {
    &&& g1.len() == g2.len()
    &&& forall|r: int|
        0 <= r < g1.len() ==> ignored_eq_lines(#[trigger] g1[r], #[trigger] g2[r])
}

/// Toggling ignored cells changes no row's solved state.
pub proof fn lemma_row_solved_ignored_eq<C: CellValue>(
    rc: Seq<Seq<ConstraintEntry<C>>>,
    g1: Seq<Seq<Cell<C>>>,
    g2: Seq<Seq<Cell<C>>>,
    r: int,
)
    requires
        grids_ignored_eq(g1, g2),
        0 <= r < g1.len(),
    ensures
        row_solved(rc, g1, r) == row_solved(rc, g2, r),
{
    lemma_runs_ignored_eq(g1[r], g2[r]);
}

/// Toggling ignored cells changes no column's solved state.
pub proof fn lemma_col_solved_ignored_eq<C: CellValue>(
    cc: Seq<Seq<ConstraintEntry<C>>>,
    g1: Seq<Seq<Cell<C>>>,
    g2: Seq<Seq<Cell<C>>>,
    c: int,
    w: int,
)
    requires
        grids_ignored_eq(g1, g2),
        forall|r: int| 0 <= r < g1.len() ==> (#[trigger] g1[r]).len() == w,
        0 <= c < w,
    ensures
        col_solved(cc, g1, c) == col_solved(cc, g2, c),
{
    assert(ignored_eq_lines(col_of(g1, c), col_of(g2, c))) by {
        assert forall|r: int| 0 <= r < col_of(g1, c).len() implies (#[trigger] col_of(g1, c)[r])
            == col_of(g2, c)[r] || (spec_ignored(col_of(g1, c)[r]) && spec_ignored(
            col_of(g2, c)[r],
        )) by {
            assert(ignored_eq_lines(g1[r], g2[r]));
            assert(col_of(g1, c)[r] == g1[r][c]);
            assert(col_of(g2, c)[r] == g2[r][c]);
        }
    }
    lemma_runs_ignored_eq(col_of(g1, c), col_of(g2, c));
}

/// The annotation pass over row `r`: if the row is solved, every `Empty`
/// cell of the row is crossed out; if it is not, every `CrossedOut` cell
/// whose own column is not solved is reverted to `Empty`.
pub open spec fn annotate_row<C: CellValue>(
    rc: Seq<Seq<ConstraintEntry<C>>>,
    cc: Seq<Seq<ConstraintEntry<C>>>,
    g: Seq<Seq<Cell<C>>>,
    r: int,
) -> Seq<Seq<Cell<C>>> {
    if row_solved(rc, g, r) {
        g.update(
            r,
            Seq::new(g[r].len(), |c: int| if g[r][c] is Empty { Cell::CrossedOut } else { g[r][c] }),
        )
    } else {
        g.update(
            r,
            Seq::new(
                g[r].len(),
                |c: int|
                    if g[r][c] is CrossedOut && !col_solved(cc, g, c) {
                        Cell::Empty
                    } else {
                        g[r][c]
                    },
            ),
        )
    }
}

/// The annotation pass over column `c`, mirroring `annotate_row`.
pub open spec fn annotate_col<C: CellValue>(
    rc: Seq<Seq<ConstraintEntry<C>>>,
    cc: Seq<Seq<ConstraintEntry<C>>>,
    g: Seq<Seq<Cell<C>>>,
    c: int,
) -> Seq<Seq<Cell<C>>> {
    if col_solved(cc, g, c) {
        Seq::new(
            g.len(),
            |r: int| if g[r][c] is Empty { g[r].update(c, Cell::CrossedOut) } else { g[r] },
        )
    } else {
        Seq::new(
            g.len(),
            |r: int|
                if g[r][c] is CrossedOut && !row_solved(rc, g, r) {
                    g[r].update(c, Cell::Empty)
                } else {
                    g[r]
                },
        )
    }
}

/// The full re-check of row `r` and column `c` after an edit: both solved
/// bits are recomputed first, then the row's annotation pass runs, then the
/// column's.  Without the auto-cross option the board is left as it is.
pub open spec fn apply_check<C: CellValue>(
    rc: Seq<Seq<ConstraintEntry<C>>>,
    cc: Seq<Seq<ConstraintEntry<C>>>,
    auto: bool,
    g: Seq<Seq<Cell<C>>>,
    r: int,
    c: int,
) -> Seq<Seq<Cell<C>>> {
    if auto {
        annotate_col(rc, cc, annotate_row(rc, cc, g, r), c)
    } else {
        g
    }
}

/// The board after writing `cell` at `(r, c)` and re-checking that row and
/// column.
pub open spec fn apply_edit<C: CellValue>(
    rc: Seq<Seq<ConstraintEntry<C>>>,
    cc: Seq<Seq<ConstraintEntry<C>>>,
    auto: bool,
    g: Seq<Seq<Cell<C>>>,
    r: int,
    c: int,
    cell: Cell<C>,
) -> Seq<Seq<Cell<C>>> {
    apply_check(rc, cc, auto, g.update(r, g[r].update(c, cell)), r, c)
}

/// The annotation passes only toggle ignored cells: they preserve the shape
/// of the grid and the solved state of every line.
pub proof fn lemma_annotate_row_ignored_eq<C: CellValue>(
    rc: Seq<Seq<ConstraintEntry<C>>>,
    cc: Seq<Seq<ConstraintEntry<C>>>,
    g: Seq<Seq<Cell<C>>>,
    r: int,
)
    requires
        0 <= r < g.len(),
    ensures
        grids_ignored_eq(g, annotate_row(rc, cc, g, r)),
{
    let g2 = annotate_row(rc, cc, g, r);
    assert forall|r2: int| 0 <= r2 < g.len() implies ignored_eq_lines(
        #[trigger] g[r2],
        #[trigger] g2[r2],
    ) by {
        if r2 == r {
            assert(g2[r].len() == g[r].len());
            assert forall|c: int| 0 <= c < g[r].len() implies (#[trigger] g[r][c]) == g2[r][c] || (
            spec_ignored(g[r][c]) && spec_ignored(g2[r][c])) by {}
        }
    }
}

/// Mirror of `lemma_annotate_row_ignored_eq` for a column pass.
pub proof fn lemma_annotate_col_ignored_eq<C: CellValue>(
    rc: Seq<Seq<ConstraintEntry<C>>>,
    cc: Seq<Seq<ConstraintEntry<C>>>,
    g: Seq<Seq<Cell<C>>>,
    c: int,
    w: int,
)
    requires
        forall|r: int| 0 <= r < g.len() ==> (#[trigger] g[r]).len() == w,
        0 <= c < w,
    ensures
        grids_ignored_eq(g, annotate_col(rc, cc, g, c)),
        forall|r: int|
            0 <= r < g.len() ==> (#[trigger] annotate_col(rc, cc, g, c)[r]).len() == w,
{
    let g2 = annotate_col(rc, cc, g, c);
    assert forall|r: int| 0 <= r < g.len() implies ignored_eq_lines(
        #[trigger] g[r],
        #[trigger] g2[r],
    ) by {
        assert(g2[r].len() == g[r].len());
        assert forall|c2: int| 0 <= c2 < g[r].len() implies (#[trigger] g[r][c2]) == g2[r][c2] || (
        spec_ignored(g[r][c2]) && spec_ignored(g2[r][c2])) by {}
    }
}

/// One cell's part of the stability invariant: an `Empty` cell can only sit
/// on lines that are not solved (a solved line has had its blanks crossed
/// out), and a `CrossedOut` cell is justified by at least one of its two
/// lines being solved (an unjustified cross-out is reverted).
pub open spec fn stable_at<C: CellValue>(
    rc: Seq<Seq<ConstraintEntry<C>>>,
    cc: Seq<Seq<ConstraintEntry<C>>>,
    g: Seq<Seq<Cell<C>>>,
    r: int,
    c: int,
) -> bool {
    &&& (g[r][c] is Empty ==> !row_solved(rc, g, r) && !col_solved(cc, g, c))
    &&& (g[r][c] is CrossedOut ==> row_solved(rc, g, r) || col_solved(cc, g, c))
}

/// A grid on which the auto-annotation passes have nothing left to do.
pub open spec fn stable<C: CellValue>(
    rc: Seq<Seq<ConstraintEntry<C>>>,
    cc: Seq<Seq<ConstraintEntry<C>>>,
    g: Seq<Seq<Cell<C>>>,
) -> bool {
    forall|r: int, c: int|
        0 <= r < g.len() && 0 <= c < g[r].len() ==> #[trigger] stable_at(rc, cc, g, r, c)
}

/// On a stable grid the row annotation pass changes nothing.
pub proof fn lemma_annotate_row_fixed<C: CellValue>(
    rc: Seq<Seq<ConstraintEntry<C>>>,
    cc: Seq<Seq<ConstraintEntry<C>>>,
    g: Seq<Seq<Cell<C>>>,
    r: int,
)
    requires
        stable(rc, cc, g),
        0 <= r < g.len(),
    ensures
        annotate_row(rc, cc, g, r) == g,
{
    if row_solved(rc, g, r) {
        let newrow = Seq::new(
            g[r].len(),
            |c: int| if g[r][c] is Empty { Cell::CrossedOut } else { g[r][c] },
        );
        assert(newrow =~= g[r]) by {
            assert forall|c: int| 0 <= c < g[r].len() implies !((#[trigger] g[r][c]) is Empty) by {
                assert(stable_at(rc, cc, g, r, c));
            }
        }
    } else {
        let newrow = Seq::new(
            g[r].len(),
            |c: int|
                if g[r][c] is CrossedOut && !col_solved(cc, g, c) {
                    Cell::Empty
                } else {
                    g[r][c]
                },
        );
        assert(newrow =~= g[r]) by {
            assert forall|c: int| 0 <= c < g[r].len() implies !((#[trigger] g[r][c]) is CrossedOut
                && !col_solved(cc, g, c)) by {
                assert(stable_at(rc, cc, g, r, c));
            }
        }
    }
    assert(annotate_row(rc, cc, g, r) =~= g);
}

/// On a stable grid the column annotation pass changes nothing.
pub proof fn lemma_annotate_col_fixed<C: CellValue>(
    rc: Seq<Seq<ConstraintEntry<C>>>,
    cc: Seq<Seq<ConstraintEntry<C>>>,
    g: Seq<Seq<Cell<C>>>,
    c: int,
    w: int,
)
    requires
        stable(rc, cc, g),
        forall|r: int| 0 <= r < g.len() ==> (#[trigger] g[r]).len() == w,
        0 <= c < w,
    ensures
        annotate_col(rc, cc, g, c) == g,
{
    let g2 = annotate_col(rc, cc, g, c);
    assert forall|r: int| 0 <= r < g.len() implies #[trigger] g2[r] == g[r] by {
        assert(stable_at(rc, cc, g, r, c));
    }
    assert(g2 =~= g);
}

/// Auto-annotation convergence: re-checking a row and a column of a stable
/// grid is a fixed point, so repeated re-checks with no intervening edit
/// change no cell.
pub proof fn lemma_recheck_fixed_point<C: CellValue>(
    rc: Seq<Seq<ConstraintEntry<C>>>,
    cc: Seq<Seq<ConstraintEntry<C>>>,
    g: Seq<Seq<Cell<C>>>,
    r: int,
    c: int,
)
    requires
        stable(rc, cc, g),
        forall|r2: int| 0 <= r2 < g.len() ==> (#[trigger] g[r2]).len() == cc.len(),
        0 <= r < g.len(),
        0 <= c < cc.len(),
    ensures
        apply_check(rc, cc, true, g, r, c) == g,
{
    lemma_annotate_row_fixed(rc, cc, g, r);
    lemma_annotate_col_fixed(rc, cc, g, c, cc.len() as int);
}

/// Writing one cell and re-checking its row and column restores stability:
/// the pipeline run by every edit keeps the auto-annotation invariant.
pub proof fn lemma_edit_stable<C: CellValue>(
    rc: Seq<Seq<ConstraintEntry<C>>>,
    cc: Seq<Seq<ConstraintEntry<C>>>,
    g0: Seq<Seq<Cell<C>>>,
    row: int,
    col: int,
    x: Cell<C>,
)
    requires
        grid_shape(g0, rc.len() as int, cc.len() as int),
        stable(rc, cc, g0),
        0 <= row < g0.len(),
        0 <= col < cc.len(),
    ensures
        grid_shape(apply_edit(rc, cc, true, g0, row, col, x), rc.len() as int, cc.len() as int),
        stable(rc, cc, apply_edit(rc, cc, true, g0, row, col, x)),
{
    let h = rc.len() as int;
    let w = cc.len() as int;
    let g1 = g0.update(row, g0[row].update(col, x));
    let gr = annotate_row(rc, cc, g1, row);
    let g3 = annotate_col(rc, cc, gr, col);
    assert(apply_edit(rc, cc, true, g0, row, col, x) == g3);

    assert(grid_shape(g1, h, w));
    assert(grid_shape(gr, h, w));
    lemma_annotate_row_ignored_eq(rc, cc, g1, row);
    lemma_annotate_col_ignored_eq(rc, cc, gr, col, w);
    assert(grid_shape(g3, h, w));

    // The two annotation passes only toggle ignored cells, so every line's
    // solved state is the same in g1, gr, and g3.
    assert forall|i: int| 0 <= i < h implies (#[trigger] row_solved(rc, gr, i)) == row_solved(
        rc,
        g1,
        i,
    ) by {
        lemma_row_solved_ignored_eq(rc, g1, gr, i);
    }
    assert forall|i: int| 0 <= i < h implies (#[trigger] row_solved(rc, g3, i)) == row_solved(
        rc,
        gr,
        i,
    ) by {
        lemma_row_solved_ignored_eq(rc, gr, g3, i);
    }
    assert forall|j: int| 0 <= j < w implies (#[trigger] col_solved(cc, gr, j)) == col_solved(
        cc,
        g1,
        j,
    ) by {
        lemma_col_solved_ignored_eq(cc, g1, gr, j, w);
    }
    assert forall|j: int| 0 <= j < w implies (#[trigger] col_solved(cc, g3, j)) == col_solved(
        cc,
        gr,
        j,
    ) by {
        lemma_col_solved_ignored_eq(cc, gr, g3, j, w);
    }

    // Away from the edited column, the edit leaves every column unchanged.
    assert forall|j: int| 0 <= j < w && j != col implies (#[trigger] col_of(g1, j)) == col_of(
        g0,
        j,
    ) by {
        assert(col_of(g1, j) =~= col_of(g0, j));
    }

    assert forall|r: int, c: int|
        0 <= r < g3.len() && 0 <= c < g3[r].len() implies #[trigger] stable_at(
        rc,
        cc,
        g3,
        r,
        c,
    ) by {
        assert(stable_at(rc, cc, g0, r, c));
        if r == row {
            if c != col {
                // This cell was not edited; the row pass may have toggled it.
                assert(g1[r][c] == g0[r][c]);
                if !row_solved(rc, g1, row) && g0[r][c] is Empty {
                    assert(!col_solved(cc, g0, c));
                }
            }
        } else {
            assert(g1[r] == g0[r]);
            assert(gr[r] == g1[r]);
            lemma_row_solved_ignored_eq(rc, g1, gr, r);
            if c == col {
                if g0[r][c] is Empty {
                    assert(!row_solved(rc, g0, r));
                }
            } else {
                assert(g3[r][c] == gr[r][c]);
            }
        }
    }
}

/// A picross game. Manages constraints, board, and completion.
///
/// The solved bit of every row and column is cached and kept exact: after
/// every operation it equals what the run-matcher says of the current board.
pub struct Picross<C: CellValue> {
    puzzle: Puzzle<C>,
    board: Board<C>,
    row_status: Vec<bool>,
    column_status: Vec<bool>,
    auto_cross_completed: bool,
}

impl<C: CellValue> Picross<C> {
    /// The puzzle this game is played against.
    pub closed spec fn spec_puzzle(self) -> Puzzle<C> {
        self.puzzle
    }

    /// The current board contents, as a grid of rows.
    pub closed spec fn grid(self) -> Seq<Seq<Cell<C>>> {
        self.board@
    }

    /// The cached solved bit of every row.
    pub closed spec fn spec_row_status(self) -> Seq<bool> {
        self.row_status@
    }

    /// The cached solved bit of every column.
    pub closed spec fn spec_col_status(self) -> Seq<bool> {
        self.column_status@
    }

    /// Whether completed lines are automatically crossed out.
    pub closed spec fn spec_auto(self) -> bool {
        self.auto_cross_completed
    }

    /// The whole puzzle is solved exactly when every cached row bit and
    /// every cached column bit is set.
    pub open spec fn spec_is_solved(self) -> bool {
        &&& forall|i: int| 0 <= i < self.spec_row_status().len() ==> #[trigger] self.spec_row_status()[i]
        &&& forall|j: int| 0 <= j < self.spec_col_status().len() ==> #[trigger] self.spec_col_status()[j]
    }

    /// The sizes of board, status caches and constraint groups agree.
    spec fn shape_ok(self) -> bool {
        &&& self.board.wf()
        &&& self.board.spec_height() == self.puzzle.spec_rows().len()
        &&& self.board.spec_width() == self.puzzle.spec_cols().len()
        &&& self.row_status@.len() == self.puzzle.spec_rows().len()
        &&& self.column_status@.len() == self.puzzle.spec_cols().len()
    }

    /// The game invariant: shapes agree, the puzzle is well formed, every
    /// cached solved bit equals what the matcher says of the current board,
    /// and, with auto-crossing on, the board is stable under annotation.
    pub closed spec fn wf(self) -> bool {
        &&& self.shape_ok()
        &&& self.puzzle.wf()
        &&& forall|i: int|
            0 <= i < self.row_status@.len()
                ==> #[trigger] self.row_status@[i] == row_solved(
                self.puzzle.spec_rows(),
                self.board@,
                i,
            )
        &&& forall|j: int|
            0 <= j < self.column_status@.len()
                ==> #[trigger] self.column_status@[j] == col_solved(
                self.puzzle.spec_cols(),
                self.board@,
                j,
            )
        &&& (self.auto_cross_completed ==> stable(
            self.puzzle.spec_rows(),
            self.puzzle.spec_cols(),
            self.board@,
        ))
    }

    /// What the game invariant guarantees, stated over the public view: the
    /// grid has one row per row constraint and one column per column
    /// constraint, the cached bits are exact, and the board is stable.
    pub proof fn lemma_wf_facts(self)
        requires
            self.wf(),
        ensures
            self.spec_puzzle().wf(),
            grid_shape(
                self.grid(),
                self.spec_puzzle().spec_rows().len() as int,
                self.spec_puzzle().spec_cols().len() as int,
            ),
            self.spec_row_status().len() == self.spec_puzzle().spec_rows().len(),
            self.spec_col_status().len() == self.spec_puzzle().spec_cols().len(),
            forall|i: int|
                0 <= i < self.spec_row_status().len()
                    ==> #[trigger] self.spec_row_status()[i] == row_solved(
                    self.spec_puzzle().spec_rows(),
                    self.grid(),
                    i,
                ),
            forall|j: int|
                0 <= j < self.spec_col_status().len()
                    ==> #[trigger] self.spec_col_status()[j] == col_solved(
                    self.spec_puzzle().spec_cols(),
                    self.grid(),
                    j,
                ),
            self.spec_auto() ==> stable(
                self.spec_puzzle().spec_rows(),
                self.spec_puzzle().spec_cols(),
                self.grid(),
            ),
    {
        self.board.lemma_shape();
    }

    /// The game reports itself solved exactly when every row and every
    /// column of the current board satisfies its constraint: the cached bits
    /// never diverge from the matcher.
    pub proof fn lemma_is_solved_means_all_lines(self)
        requires
            self.wf(),
        ensures
            self.spec_is_solved() <==> ((forall|i: int|
                0 <= i < self.spec_puzzle().spec_rows().len() ==> #[trigger] row_solved(
                    self.spec_puzzle().spec_rows(),
                    self.grid(),
                    i,
                )) && (forall|j: int|
                0 <= j < self.spec_puzzle().spec_cols().len() ==> #[trigger] col_solved(
                    self.spec_puzzle().spec_cols(),
                    self.grid(),
                    j,
                ))),
    {
        let rc = self.spec_puzzle().spec_rows();
        let cc = self.spec_puzzle().spec_cols();
        if self.spec_is_solved() {
            assert forall|i: int| 0 <= i < rc.len() implies #[trigger] row_solved(
                rc,
                self.grid(),
                i,
            ) by {
                assert(self.row_status@[i]);
            }
            assert forall|j: int| 0 <= j < cc.len() implies #[trigger] col_solved(
                cc,
                self.grid(),
                j,
            ) by {
                assert(self.column_status@[j]);
            }
        } else {
            if exists|i: int| 0 <= i < self.spec_row_status().len() && !self.spec_row_status()[i] {
                let i = choose|i: int|
                    0 <= i < self.spec_row_status().len() && !self.spec_row_status()[i];
                assert(!row_solved(rc, self.grid(), i));
            } else {
                let j = choose|j: int|
                    0 <= j < self.spec_col_status().len() && !self.spec_col_status()[j];
                assert(!col_solved(cc, self.grid(), j));
            }
        }
    }

    /// Recomputes the solved bit of `row` against the current board, then
    /// runs the row's annotation pass.
    fn check_row(&mut self, row: usize)
        requires
            old(self).shape_ok(),
            row < old(self).puzzle.spec_rows().len(),
        ensures
            final(self).shape_ok(),
            final(self).puzzle == old(self).puzzle,
            final(self).auto_cross_completed == old(self).auto_cross_completed,
            final(self).column_status@ == old(self).column_status@,
            final(self).row_status@ == old(self).row_status@.update(
                row as int,
                row_solved(old(self).puzzle.spec_rows(), old(self).board@, row as int),
            ),
            final(self).board@ == (if old(self).auto_cross_completed {
                annotate_row(
                    old(self).puzzle.spec_rows(),
                    old(self).puzzle.spec_cols(),
                    old(self).board@,
                    row as int,
                )
            } else {
                old(self).board@
            }),
    {
        let ghost rc = self.puzzle.spec_rows();
        let ghost cc = self.puzzle.spec_cols();
        let ghost g0 = self.board@;
        let ghost puzzle0 = self.puzzle;
        proof {
            self.board.lemma_shape();
        }
        let completed = self.puzzle.row_is_solved(&self.board, row);
        self.row_status.set(row, completed);
        let ghost bits = self.row_status@;
        if self.auto_cross_completed {
            let width = self.board.width();
            if completed {
                let ghost target_row = Seq::new(
                    g0[row as int].len(),
                    |c: int| if g0[row as int][c] is Empty { Cell::CrossedOut } else { g0[row as int][c] },
                );
                let mut c: usize = 0;
                while c < width
                    invariant
                        c <= width,
                        self.puzzle == puzzle0,
                        self.row_status@ == bits,
                        self.column_status@ == old(self).column_status@,
                        self.auto_cross_completed == old(self).auto_cross_completed,
                        self.board.wf(),
                        self.board.spec_height() == old(self).board.spec_height(),
                        self.board.spec_width() == old(self).board.spec_width(),
                        width == self.board.spec_width(),
                        row < self.board.spec_height(),
                        grid_shape(g0, self.board.spec_height() as int, width as int),
                        target_row == Seq::new(
                            g0[row as int].len(),
                            |d: int| if g0[row as int][d] is Empty { Cell::CrossedOut } else { g0[row as int][d] },
                        ),
                        self.board@.len() == g0.len(),
                        forall|r2: int|
                            0 <= r2 < g0.len() && r2 != row ==> #[trigger] self.board@[r2] == g0[r2],
                        self.board@[row as int].len() == width,
                        forall|d: int|
                            0 <= d < c ==> #[trigger] self.board@[row as int][d] == target_row[d],
                        forall|d: int|
                            c <= d < width ==> #[trigger] self.board@[row as int][d] == g0[row as int][d],
                    decreases width - c,
                {
                    match self.board.get(row, c) {
                        Cell::Empty => {
                            self.board.set(row, c, Cell::CrossedOut);
                        }
                        _ => {}
                    }
                    c = c + 1;
                }
                proof {
                    assert(self.board@[row as int] =~= target_row);
                    assert(self.board@ =~= g0.update(row as int, target_row));
                    assert(row_solved(rc, g0, row as int));
                }
            } else {
                let ghost target_row = Seq::new(
                    g0[row as int].len(),
                    |d: int|
                        if g0[row as int][d] is CrossedOut && !col_solved(cc, g0, d) {
                            Cell::Empty
                        } else {
                            g0[row as int][d]
                        },
                );
                let mut c: usize = 0;
                while c < width
                    invariant
                        c <= width,
                        self.puzzle == puzzle0,
                        rc == puzzle0.spec_rows(),
                        cc == puzzle0.spec_cols(),
                        self.row_status@ == bits,
                        self.column_status@ == old(self).column_status@,
                        self.auto_cross_completed == old(self).auto_cross_completed,
                        self.board.wf(),
                        self.board.spec_height() == old(self).board.spec_height(),
                        self.board.spec_width() == old(self).board.spec_width(),
                        self.board.spec_width() == cc.len(),
                        width == self.board.spec_width(),
                        row < self.board.spec_height(),
                        grid_shape(g0, self.board.spec_height() as int, width as int),
                        target_row == Seq::new(
                            g0[row as int].len(),
                            |d: int|
                                if g0[row as int][d] is CrossedOut && !col_solved(cc, g0, d) {
                                    Cell::Empty
                                } else {
                                    g0[row as int][d]
                                },
                        ),
                        self.board@.len() == g0.len(),
                        forall|r2: int|
                            0 <= r2 < g0.len() && r2 != row ==> #[trigger] self.board@[r2] == g0[r2],
                        self.board@[row as int].len() == width,
                        forall|d: int|
                            0 <= d < c ==> #[trigger] self.board@[row as int][d] == target_row[d],
                        forall|d: int|
                            c <= d < width ==> #[trigger] self.board@[row as int][d] == g0[row as int][d],
                    decreases width - c,
                {
                    match self.board.get(row, c) {
                        Cell::CrossedOut => {
                            proof {
                                self.board.lemma_shape();
                                assert(grids_ignored_eq(self.board@, g0)) by {
                                    assert forall|r2: int|
                                        0 <= r2 < self.board@.len() implies ignored_eq_lines(
                                        #[trigger] self.board@[r2],
                                        #[trigger] g0[r2],
                                    ) by {
                                        if r2 == row {
                                            assert forall|d: int|
                                                0 <= d < width implies (#[trigger] self.board@[row as int][d])
                                                == g0[row as int][d] || (spec_ignored(
                                                self.board@[row as int][d],
                                            ) && spec_ignored(g0[row as int][d])) by {}
                                        }
                                    }
                                }
                                lemma_col_solved_ignored_eq(cc, self.board@, g0, c as int, width as int);
                            }
                            if !self.puzzle.column_is_solved(&self.board, c) {
                                self.board.set(row, c, Cell::Empty);
                            }
                        }
                        _ => {}
                    }
                    c = c + 1;
                }
                proof {
                    assert(self.board@[row as int] =~= target_row);
                    assert(self.board@ =~= g0.update(row as int, target_row));
                    assert(!row_solved(rc, g0, row as int));
                }
            }
        }
    }

    /// Recomputes the solved bit of `column` against the current board, then
    /// runs the column's annotation pass.
    fn check_column(&mut self, column: usize)
        requires
            old(self).shape_ok(),
            column < old(self).puzzle.spec_cols().len(),
        ensures
            final(self).shape_ok(),
            final(self).puzzle == old(self).puzzle,
            final(self).auto_cross_completed == old(self).auto_cross_completed,
            final(self).row_status@ == old(self).row_status@,
            final(self).column_status@ == old(self).column_status@.update(
                column as int,
                col_solved(old(self).puzzle.spec_cols(), old(self).board@, column as int),
            ),
            final(self).board@ == (if old(self).auto_cross_completed {
                annotate_col(
                    old(self).puzzle.spec_rows(),
                    old(self).puzzle.spec_cols(),
                    old(self).board@,
                    column as int,
                )
            } else {
                old(self).board@
            }),
    {
        let ghost rc = self.puzzle.spec_rows();
        let ghost cc = self.puzzle.spec_cols();
        let ghost g0 = self.board@;
        let ghost puzzle0 = self.puzzle;
        proof {
            self.board.lemma_shape();
        }
        let completed = self.puzzle.column_is_solved(&self.board, column);
        self.column_status.set(column, completed);
        let ghost bits = self.column_status@;
        if self.auto_cross_completed {
            let ghost target = annotate_col(rc, cc, g0, column as int);
            let height = self.board.height();
            let mut r: usize = 0;
            while r < height
                invariant
                    r <= height,
                    self.puzzle == puzzle0,
                    rc == puzzle0.spec_rows(),
                    cc == puzzle0.spec_cols(),
                    self.row_status@ == old(self).row_status@,
                    self.column_status@ == bits,
                    self.auto_cross_completed == old(self).auto_cross_completed,
                    self.board.wf(),
                    self.board.spec_height() == old(self).board.spec_height(),
                    self.board.spec_width() == old(self).board.spec_width(),
                    self.board.spec_height() == rc.len(),
                    height == self.board.spec_height(),
                    column < self.board.spec_width(),
                    grid_shape(g0, height as int, self.board.spec_width() as int),
                    completed == col_solved(cc, g0, column as int),
                    target == annotate_col(rc, cc, g0, column as int),
                    self.board@.len() == g0.len(),
                    forall|r2: int| 0 <= r2 < r ==> #[trigger] self.board@[r2] == target[r2],
                    forall|r2: int| r <= r2 < height ==> #[trigger] self.board@[r2] == g0[r2],
                decreases height - r,
            {
                if completed {
                    match self.board.get(r, column) {
                        Cell::Empty => {
                            self.board.set(r, column, Cell::CrossedOut);
                        }
                        _ => {}
                    }
                } else {
                    match self.board.get(r, column) {
                        Cell::CrossedOut => {
                            proof {
                                assert(self.board@[r as int] == g0[r as int]);
                            }
                            if !self.puzzle.row_is_solved(&self.board, r) {
                                self.board.set(r, column, Cell::Empty);
                            }
                        }
                        _ => {}
                    }
                }
                r = r + 1;
            }
            proof {
                assert(self.board@ =~= target);
            }
        }
    }

    /// Checks whether or not the given row and column are solved and stores
    /// the result, then runs both annotation passes.  Both solved bits are
    /// recomputed before either pass mutates a cell, and the passes only
    /// toggle ignored cells, so each stored bit is exact for the final board
    /// as well.
    fn check(&mut self, row: usize, column: usize)
        requires
            old(self).shape_ok(),
            row < old(self).puzzle.spec_rows().len(),
            column < old(self).puzzle.spec_cols().len(),
        ensures
            final(self).shape_ok(),
            final(self).puzzle == old(self).puzzle,
            final(self).auto_cross_completed == old(self).auto_cross_completed,
            final(self).board@ == apply_check(
                old(self).puzzle.spec_rows(),
                old(self).puzzle.spec_cols(),
                old(self).auto_cross_completed,
                old(self).board@,
                row as int,
                column as int,
            ),
            final(self).row_status@ == old(self).row_status@.update(
                row as int,
                row_solved(old(self).puzzle.spec_rows(), final(self).board@, row as int),
            ),
            final(self).column_status@ == old(self).column_status@.update(
                column as int,
                col_solved(old(self).puzzle.spec_cols(), final(self).board@, column as int),
            ),
    {
        let ghost rc = self.puzzle.spec_rows();
        let ghost cc = self.puzzle.spec_cols();
        let ghost g0 = self.board@;
        let ghost h = rc.len() as int;
        let ghost w = cc.len() as int;
        proof {
            self.board.lemma_shape();
            assert(grid_shape(g0, h, w));
        }
        self.check_row(row);
        let ghost gr = self.board@;
        self.check_column(column);
        proof {
            let g3 = self.board@;
            if old(self).auto_cross_completed {
                assert(gr == annotate_row(rc, cc, g0, row as int));
                assert(g3 == annotate_col(rc, cc, gr, column as int));
                assert(grid_shape(gr, h, w));
                lemma_annotate_row_ignored_eq(rc, cc, g0, row as int);
                lemma_annotate_col_ignored_eq(rc, cc, gr, column as int, w);
                lemma_row_solved_ignored_eq(rc, g0, gr, row as int);
                lemma_row_solved_ignored_eq(rc, gr, g3, row as int);
                lemma_col_solved_ignored_eq(cc, gr, g3, column as int, w);
            }
        }
    }

    /// Writes `cell` at `(row, column)`, re-checks that row and column, and
    /// reports whether the puzzle is now solved.
    fn edit(&mut self, cell: Cell<C>, row: usize, column: usize) -> (r: bool)
        requires
            old(self).wf(),
            row < old(self).puzzle.spec_rows().len(),
            column < old(self).puzzle.spec_cols().len(),
        ensures
            final(self).wf(),
            final(self).puzzle == old(self).puzzle,
            final(self).auto_cross_completed == old(self).auto_cross_completed,
            final(self).board@ == apply_edit(
                old(self).puzzle.spec_rows(),
                old(self).puzzle.spec_cols(),
                old(self).auto_cross_completed,
                old(self).board@,
                row as int,
                column as int,
                cell,
            ),
            final(self).row_status@ == old(self).row_status@.update(
                row as int,
                row_solved(old(self).puzzle.spec_rows(), final(self).board@, row as int),
            ),
            final(self).column_status@ == old(self).column_status@.update(
                column as int,
                col_solved(old(self).puzzle.spec_cols(), final(self).board@, column as int),
            ),
            r == final(self).spec_is_solved(),
    {
        let ghost rc = self.puzzle.spec_rows();
        let ghost cc = self.puzzle.spec_cols();
        let ghost g0 = self.board@;
        let ghost auto = self.auto_cross_completed;
        let ghost h = rc.len() as int;
        let ghost w = cc.len() as int;
        proof {
            self.board.lemma_shape();
            assert(grid_shape(g0, h, w));
        }
        self.board.set(row, column, cell);
        let ghost g1 = self.board@;
        self.check(row, column);
        let solved = self.is_solved();
        proof {
            let g3 = self.board@;
            assert(g1 == g0.update(row as int, g0[row as int].update(column as int, cell)));
            assert(g3 == apply_edit(rc, cc, auto, g0, row as int, column as int, cell));
            assert(grid_shape(g1, h, w));
            if auto {
                lemma_edit_stable(rc, cc, g0, row as int, column as int, cell);
            }
            let gr = annotate_row(rc, cc, g1, row as int);
            if auto {
                assert(grid_shape(gr, h, w));
                lemma_annotate_row_ignored_eq(rc, cc, g1, row as int);
                lemma_annotate_col_ignored_eq(rc, cc, gr, column as int, w);
            }
            assert forall|i: int| 0 <= i < h && i != row implies (#[trigger] row_solved(rc, g3, i))
                == row_solved(rc, g0, i) by {
                assert(g1[i] == g0[i]);
                if auto {
                    lemma_row_solved_ignored_eq(rc, g1, gr, i);
                    lemma_row_solved_ignored_eq(rc, gr, g3, i);
                }
            }
            assert forall|j: int| 0 <= j < w && j != column implies (#[trigger] col_solved(
                cc,
                g3,
                j,
            )) == col_solved(cc, g0, j) by {
                assert(col_of(g1, j) =~= col_of(g0, j));
                if auto {
                    lemma_col_solved_ignored_eq(cc, g1, gr, j, w);
                    lemma_col_solved_ignored_eq(cc, gr, g3, j, w);
                }
            }
        }
        solved
    }

    /// Creates a new Picross game for `puzzle`.  The board starts empty and
    /// every line is checked once, so lines whose constraint is empty count
    /// as solved immediately and are crossed out by the annotation pass.
    pub fn new(puzzle: Puzzle<C>) -> (game: Self)
        requires
            puzzle.wf(),
            puzzle.spec_rows().len() * puzzle.spec_cols().len() <= usize::MAX,
        ensures
            game.wf(),
            game.spec_puzzle() == puzzle,
            game.spec_auto() == true,
            forall|r: int, c: int|
                0 <= r < puzzle.spec_rows().len() && 0 <= c < puzzle.spec_cols().len()
                    ==> (#[trigger] game.grid()[r][c]) == (if puzzle.spec_rows()[r].len() == 0
                        || puzzle.spec_cols()[c].len() == 0 {
                        Cell::<C>::CrossedOut
                    } else {
                        Cell::<C>::Empty
                    }),
            forall|i: int|
                0 <= i < puzzle.spec_rows().len()
                    ==> #[trigger] game.spec_row_status()[i] == (puzzle.spec_rows()[i].len() == 0),
            forall|j: int|
                0 <= j < puzzle.spec_cols().len()
                    ==> #[trigger] game.spec_col_status()[j] == (puzzle.spec_cols()[j].len() == 0),
    {
        let ghost rc = puzzle.spec_rows();
        let ghost cc = puzzle.spec_cols();
        let height = puzzle.row_constraints().len();
        let width = puzzle.column_constraints().len();
        proof {
            assert((width as int) * (height as int) == (height as int) * (width as int))
                by (nonlinear_arith);
        }
        let board = Board::new_empty(width, height);
        let row_status = falses(height);
        let column_status = falses(width);
        let mut game = Picross {
            puzzle,
            board,
            row_status,
            column_status,
            auto_cross_completed: true,
        };
        let mut i: usize = 0;
        while i < height
            invariant
                i <= height,
                game.puzzle == puzzle,
                rc == puzzle.spec_rows(),
                cc == puzzle.spec_cols(),
                game.auto_cross_completed == true,
                game.shape_ok(),
                height == rc.len(),
                width == cc.len(),
                game.board.spec_height() == height,
                game.board.spec_width() == width,
                forall|j: int| 0 <= j < width ==> !(#[trigger] game.column_status@[j]),
                forall|t: int|
                    0 <= t < height
                        ==> #[trigger] game.row_status@[t] == (t < i && rc[t].len() == 0),
                forall|r2: int, c2: int|
                    0 <= r2 < height && 0 <= c2 < width
                        ==> (#[trigger] game.board@[r2][c2]) == (if r2 < i && rc[r2].len() == 0 {
                            Cell::<C>::CrossedOut
                        } else {
                            Cell::<C>::Empty
                        }),
            decreases height - i,
        {
            let ghost gp = game.board@;
            proof {
                game.board.lemma_shape();
                assert forall|t: int| 0 <= t < gp[i as int].len() implies spec_ignored(
                    #[trigger] gp[i as int][t],
                ) by {}
                lemma_ignored_line_solved(rc[i as int], gp[i as int]);
            }
            game.check_row(i);
            proof {
                let ga = game.board@;
                game.board.lemma_shape();
                assert forall|r2: int, c2: int|
                    0 <= r2 < height && 0 <= c2 < width implies (#[trigger] ga[r2][c2]) == (if r2
                    < i + 1 && rc[r2].len() == 0 {
                    Cell::<C>::CrossedOut
                } else {
                    Cell::<C>::Empty
                }) by {
                    if r2 == i as int {
                        assert(ga == annotate_row(rc, cc, gp, i as int));
                    } else {
                        assert(ga[r2] == gp[r2]);
                    }
                }
            }
            i = i + 1;
        }
        let mut j: usize = 0;
        while j < width
            invariant
                j <= width,
                game.puzzle == puzzle,
                rc == puzzle.spec_rows(),
                cc == puzzle.spec_cols(),
                game.auto_cross_completed == true,
                game.shape_ok(),
                height == rc.len(),
                width == cc.len(),
                game.board.spec_height() == height,
                game.board.spec_width() == width,
                forall|t: int|
                    0 <= t < width
                        ==> #[trigger] game.column_status@[t] == (t < j && cc[t].len() == 0),
                forall|t: int|
                    0 <= t < height ==> #[trigger] game.row_status@[t] == (rc[t].len() == 0),
                forall|r2: int, c2: int|
                    0 <= r2 < height && 0 <= c2 < width
                        ==> (#[trigger] game.board@[r2][c2]) == (if rc[r2].len() == 0 || (c2 < j
                            && cc[c2].len() == 0) {
                            Cell::<C>::CrossedOut
                        } else {
                            Cell::<C>::Empty
                        }),
            decreases width - j,
        {
            let ghost gp = game.board@;
            proof {
                game.board.lemma_shape();
                assert(col_of(gp, j as int).len() == height);
                assert forall|t: int| 0 <= t < col_of(gp, j as int).len() implies spec_ignored(
                    #[trigger] col_of(gp, j as int)[t],
                ) by {
                    assert(col_of(gp, j as int)[t] == gp[t][j as int]);
                }
                lemma_ignored_line_solved(cc[j as int], col_of(gp, j as int));
            }
            game.check_column(j);
            proof {
                let ga = game.board@;
                game.board.lemma_shape();
                assert(ga == annotate_col(rc, cc, gp, j as int));
                assert forall|r2: int, c2: int|
                    0 <= r2 < height && 0 <= c2 < width implies (#[trigger] ga[r2][c2]) == (if rc[r2].len()
                    == 0 || (c2 < j + 1 && cc[c2].len() == 0) {
                    Cell::<C>::CrossedOut
                } else {
                    Cell::<C>::Empty
                }) by {
                    if cc[j as int].len() == 0 {
                        assert(col_solved(cc, gp, j as int));
                    } else {
                        assert(!col_solved(cc, gp, j as int));
                        if gp[r2][c2] is CrossedOut && c2 == j as int {
                            assert forall|t: int| 0 <= t < gp[r2].len() implies spec_ignored(
                                #[trigger] gp[r2][t],
                            ) by {}
                            lemma_ignored_line_solved(rc[r2], gp[r2]);
                        }
                    }
                }
            }
            j = j + 1;
        }
        proof {
            let gf = game.board@;
            game.board.lemma_shape();
            assert forall|r2: int| 0 <= r2 < height implies #[trigger] row_solved(rc, gf, r2) == (
            rc[r2].len() == 0) by {
                assert forall|t: int| 0 <= t < gf[r2].len() implies spec_ignored(
                    #[trigger] gf[r2][t],
                ) by {}
                lemma_ignored_line_solved(rc[r2], gf[r2]);
            }
            assert forall|c2: int| 0 <= c2 < width implies #[trigger] col_solved(cc, gf, c2) == (
            cc[c2].len() == 0) by {
                assert forall|t: int| 0 <= t < col_of(gf, c2).len() implies spec_ignored(
                    #[trigger] col_of(gf, c2)[t],
                ) by {
                    assert(col_of(gf, c2)[t] == gf[t][c2]);
                }
                lemma_ignored_line_solved(cc[c2], col_of(gf, c2));
            }
            assert forall|r2: int, c2: int|
                0 <= r2 < gf.len() && 0 <= c2 < gf[r2].len() implies #[trigger] stable_at(
                rc,
                cc,
                gf,
                r2,
                c2,
            ) by {}
        }
        game
    }

    /// Returns the cells in this game's board together with their positions,
    /// in row-major order.
    pub fn cells(&self) -> (r: Vec<(usize, usize, Cell<C>)>)
        requires
            self.wf(),
        ensures
            r@.len() == self.spec_puzzle().spec_rows().len() * self.spec_puzzle().spec_cols().len(),
            forall|i: int, c: int|
                0 <= i < self.spec_puzzle().spec_rows().len() && 0 <= c
                    < self.spec_puzzle().spec_cols().len()
                    ==> #[trigger] r@[i * (self.spec_puzzle().spec_cols().len() as int) + c] == (
                    i as usize,
                    c as usize,
                    self.grid()[i][c],
                ),
    {
        self.board.cells()
    }

    /// Crosses out the cell at `row` and `column`.
    /// Returns whether or not the puzzle is solved afterwards.
    pub fn cross_out(&mut self, row: usize, column: usize) -> (r: bool)
        requires
            old(self).wf(),
            row < old(self).spec_puzzle().spec_rows().len(),
            column < old(self).spec_puzzle().spec_cols().len(),
        ensures
            final(self).wf(),
            final(self).spec_puzzle() == old(self).spec_puzzle(),
            final(self).spec_auto() == old(self).spec_auto(),
            final(self).grid() == apply_edit(
                old(self).spec_puzzle().spec_rows(),
                old(self).spec_puzzle().spec_cols(),
                old(self).spec_auto(),
                old(self).grid(),
                row as int,
                column as int,
                Cell::CrossedOut,
            ),
            final(self).spec_row_status() == old(self).spec_row_status().update(
                row as int,
                row_solved(old(self).spec_puzzle().spec_rows(), final(self).grid(), row as int),
            ),
            final(self).spec_col_status() == old(self).spec_col_status().update(
                column as int,
                col_solved(old(self).spec_puzzle().spec_cols(), final(self).grid(), column as int),
            ),
            r == final(self).spec_is_solved(),
    {
        self.edit(Cell::CrossedOut, row, column)
    }

    /// Clears the cell at `row` and `column`.
    /// Returns whether or not the puzzle is solved afterwards.
    ///
    /// Clearing a cell that is already `Empty` changes nothing: the board
    /// and both solved-bit caches are left exactly as they were.
    pub fn clear_at(&mut self, row: usize, column: usize) -> (r: bool)
        requires
            old(self).wf(),
            row < old(self).spec_puzzle().spec_rows().len(),
            column < old(self).spec_puzzle().spec_cols().len(),
        ensures
            final(self).wf(),
            final(self).spec_puzzle() == old(self).spec_puzzle(),
            final(self).spec_auto() == old(self).spec_auto(),
            final(self).grid() == apply_edit(
                old(self).spec_puzzle().spec_rows(),
                old(self).spec_puzzle().spec_cols(),
                old(self).spec_auto(),
                old(self).grid(),
                row as int,
                column as int,
                Cell::Empty,
            ),
            final(self).spec_row_status() == old(self).spec_row_status().update(
                row as int,
                row_solved(old(self).spec_puzzle().spec_rows(), final(self).grid(), row as int),
            ),
            final(self).spec_col_status() == old(self).spec_col_status().update(
                column as int,
                col_solved(old(self).spec_puzzle().spec_cols(), final(self).grid(), column as int),
            ),
            r == final(self).spec_is_solved(),
            old(self).grid()[row as int][column as int] is Empty ==> (
                final(self).grid() == old(self).grid()
                && final(self).spec_row_status() == old(self).spec_row_status()
                && final(self).spec_col_status() == old(self).spec_col_status()
            ),
    {
        let ghost rc = self.puzzle.spec_rows();
        let ghost cc = self.puzzle.spec_cols();
        let ghost g0 = self.board@;
        let ghost auto = self.auto_cross_completed;
        proof {
            self.board.lemma_shape();
        }
        let r = self.edit(Cell::Empty, row, column);
        proof {
            if g0[row as int][column as int] is Empty {
                let g1 = g0.update(row as int, g0[row as int].update(column as int, Cell::Empty));
                assert(g0[row as int].update(column as int, Cell::Empty) =~= g0[row as int]);
                assert(g1 =~= g0);
                if auto {
                    lemma_recheck_fixed_point(rc, cc, g0, row as int, column as int);
                }
                assert(self.board@ == g0);
                assert(self.row_status@ =~= old(self).row_status@);
                assert(self.column_status@ =~= old(self).column_status@);
            }
        }
        r
    }

    /// Places `value` into the cell at `row` and `column`.
    /// Returns whether or not the puzzle is solved afterwards.
    pub fn place_at(&mut self, value: C, row: usize, column: usize) -> (r: bool)
        requires
            old(self).wf(),
            row < old(self).spec_puzzle().spec_rows().len(),
            column < old(self).spec_puzzle().spec_cols().len(),
        ensures
            final(self).wf(),
            final(self).spec_puzzle() == old(self).spec_puzzle(),
            final(self).spec_auto() == old(self).spec_auto(),
            final(self).grid() == apply_edit(
                old(self).spec_puzzle().spec_rows(),
                old(self).spec_puzzle().spec_cols(),
                old(self).spec_auto(),
                old(self).grid(),
                row as int,
                column as int,
                Cell::Filled(value),
            ),
            final(self).spec_row_status() == old(self).spec_row_status().update(
                row as int,
                row_solved(old(self).spec_puzzle().spec_rows(), final(self).grid(), row as int),
            ),
            final(self).spec_col_status() == old(self).spec_col_status().update(
                column as int,
                col_solved(old(self).spec_puzzle().spec_cols(), final(self).grid(), column as int),
            ),
            r == final(self).spec_is_solved(),
    {
        self.edit(Cell::Filled(value), row, column)
    }

    /// Returns the status of the puzzle's rows and columns.
    pub fn status(&self) -> (r: (Vec<bool>, Vec<bool>))
        ensures
            r.0@ == self.spec_row_status(),
            r.1@ == self.spec_col_status(),
    {
        (copy_bools(&self.row_status), copy_bools(&self.column_status))
    }

    /// Checks whether or not the puzzle is solved: all the row and column
    /// constraints are satisfied.
    pub fn is_solved(&self) -> (r: bool)
        ensures
            r == self.spec_is_solved(),
    {
        let n = self.row_status.len();
        let mut i: usize = 0;
        while i < n
            invariant
                i <= n,
                n == self.row_status@.len(),
                forall|t: int| 0 <= t < i ==> #[trigger] self.row_status@[t],
            decreases n - i,
        {
            if !self.row_status[i] {
                proof {
                    assert(!self.spec_row_status()[i as int]);
                }
                return false;
            }
            i = i + 1;
        }
        let m = self.column_status.len();
        let mut j: usize = 0;
        while j < m
            invariant
                j <= m,
                m == self.column_status@.len(),
                forall|t: int| 0 <= t < self.row_status@.len() ==> #[trigger] self.row_status@[t],
                forall|t: int| 0 <= t < j ==> #[trigger] self.column_status@[t],
            decreases m - j,
        {
            if !self.column_status[j] {
                proof {
                    assert(!self.spec_col_status()[j as int]);
                }
                return false;
            }
            j = j + 1;
        }
        true
    }

    /// Gets the cell at `row` and `column`.
    pub fn get(&self, row: usize, column: usize) -> (r: Cell<C>)
        requires
            self.wf(),
            row < self.spec_puzzle().spec_rows().len(),
            column < self.spec_puzzle().spec_cols().len(),
        ensures
            r == self.grid()[row as int][column as int],
    {
        self.board.get(row, column)
    }

    /// Returns the row constraint group.
    pub fn row_constraints(&self) -> (r: &ConstraintGroup<C>)
        ensures
            crate::puzzle::group_view(*r) == self.spec_puzzle().spec_rows(),
    {
        self.puzzle.row_constraints()
    }

    /// Returns the column constraint group.
    pub fn column_constraints(&self) -> (r: &ConstraintGroup<C>)
        ensures
            crate::puzzle::group_view(*r) == self.spec_puzzle().spec_cols(),
    {
        self.puzzle.column_constraints()
    }

    /// The width of this board.
    pub fn width(&self) -> (r: usize)
        requires
            self.wf(),
        ensures
            r == self.spec_puzzle().spec_cols().len(),
    {
        self.board.width()
    }

    /// The height of this board.
    pub fn height(&self) -> (r: usize)
        requires
            self.wf(),
        ensures
            r == self.spec_puzzle().spec_rows().len(),
    {
        self.board.height()
    }
}

/// A vector of `n` cleared bits.
fn falses(n: usize) -> (r: Vec<bool>)
    ensures
        r@.len() == n,
        forall|i: int| 0 <= i < n ==> !(#[trigger] r@[i]),
{
    let mut r: Vec<bool> = Vec::new();
    let mut i: usize = 0;
    while i < n
        invariant
            i <= n,
            r@.len() == i,
            forall|t: int| 0 <= t < i ==> !(#[trigger] r@[t]),
        decreases n - i,
    {
        r.push(false);
        i = i + 1;
    }
    r
}

/// A fresh copy of a bit vector.
fn copy_bools(v: &Vec<bool>) -> (r: Vec<bool>)
    ensures
        r@ == v@,
{
    let mut r: Vec<bool> = Vec::new();
    let mut i: usize = 0;
    let n = v.len();
    while i < n
        invariant
            i <= n,
            n == v@.len(),
            r@ == v@.take(i as int),
        decreases n - i,
    {
        r.push(v[i]);
        proof {
            assert(r@ =~= v@.take(i as int + 1));
        }
        i = i + 1;
    }
    proof {
        assert(v@.take(n as int) =~= v@);
    }
    r
}

} // verus!

