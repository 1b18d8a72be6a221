//! The rectangular grid of cells that a game is played on.

use vstd::prelude::*;
use crate::cell::Cell;
use crate::cell::CellValue;

verus! {

/// The column at `col` of a grid of cells, read top to bottom.
pub open spec fn col_of<C: CellValue>(grid: Seq<Seq<Cell<C>>>, col: int) -> Seq<Cell<C>> {
    Seq::new(grid.len(), |r: int| grid[r][col])
}

/// A Picross board.
///
/// Cells are stored in row-major order; the board is viewed as the sequence
/// of its rows, each a sequence of `width` cells.
pub struct Board<C: CellValue> {
    items: Vec<Cell<C>>,
    width: usize,
    height: usize,
}

impl<C: CellValue> View for Board<C> {
    type V = Seq<Seq<Cell<C>>>;

    closed spec fn view(&self) -> Seq<Seq<Cell<C>>> {
        Seq::new(
            self.height as nat,
            |r: int| self.items@.subrange(r * (self.width as int), r * (self.width as int) + (self.width as int)),
        )
    }
}

proof fn lemma_flat_index(width: int, height: int, row: int, col: int)
    by (nonlinear_arith)
    requires
        0 <= row < height,
        0 <= col < width,
    ensures
        0 <= row * width + col,
        row * width + col < row * width + width,
        row * width + width <= height * width,
        row * width + width <= width * height,
{
}

proof fn lemma_flat_index_injective(width: int, r1: int, c1: int, r2: int, c2: int)
    by (nonlinear_arith)
    requires
        0 <= c1 < width,
        0 <= c2 < width,
        0 <= r1,
        0 <= r2,
        r1 * width + c1 == r2 * width + c2,
    ensures
        r1 == r2,
        c1 == c2,
{
}

impl<C: CellValue> Board<C> {
    /// The number of columns, as seen by specifications.
    pub closed spec fn spec_width(self) -> nat {
        self.width as nat
    }

    /// The number of rows, as seen by specifications.
    pub closed spec fn spec_height(self) -> nat {
        self.height as nat
    }

    /// Internal consistency: the flat storage holds exactly one cell per
    /// position of the `width * height` grid.
    pub closed spec fn wf(self) -> bool {
        self.items@.len() == self.spec_width() * self.spec_height()
    }

    /// The view of a consistent board is a `height`-row grid whose rows all
    /// have length `width`.
    pub proof fn lemma_shape(self)
        requires
            self.wf(),
        ensures
            self@.len() == self.spec_height(),
            forall|r: int| 0 <= r < self@.len() ==> (#[trigger] self@[r]).len() == self.spec_width(),
    {
        assert forall|r: int| 0 <= r < self@.len() implies (#[trigger] self@[r]).len() == self.spec_width() by {
            if self.width > 0 {
                lemma_flat_index(self.width as int, self.height as int, r, 0);
            } else {
                assert(r * 0 == 0) by (nonlinear_arith);
            }
        }
    }

    /// Each cell of the view is the cell stored at its flat row-major index.
    proof fn lemma_view_index(self, row: int, col: int)
        requires
            self.wf(),
            0 <= row < self.spec_height(),
            0 <= col < self.spec_width(),
        ensures
            self@[row][col] == self.items@[row * (self.width as int) + col],
    {
        lemma_flat_index(self.width as int, self.height as int, row, col);
    }

    /// Creates a new board with `width` columns and `height` rows, every cell
    /// empty.
    pub fn new_empty(width: usize, height: usize) -> (board: Self)
        requires
            width * height <= usize::MAX,
        ensures
            board.wf(),
            board.spec_width() == width,
            board.spec_height() == height,
            board@.len() == height,
            forall|r: int| 0 <= r < height ==> (#[trigger] board@[r]).len() == width,
            forall|r: int, c: int|
                0 <= r < height && 0 <= c < width ==> (#[trigger] board@[r][c]) is Empty,
    {
        let n = width * height;
        let mut items: Vec<Cell<C>> = Vec::new();
        let mut i: usize = 0;
        while i < n
            invariant
                i <= n,
                items@.len() == i,
                forall|k: int| 0 <= k < i ==> (#[trigger] items@[k]) is Empty,
            decreases n - i,
        {
            items.push(Cell::Empty);
            i = i + 1;
        }
        let board = Board { items, width, height };
        proof {
            assert(board.items@.len() == width * height);
            board.lemma_shape();
            assert forall|r: int, c: int|
                0 <= r < height && 0 <= c < width implies (#[trigger] board@[r][c]) is Empty by {
                lemma_flat_index(width as int, height as int, r, c);
                board.lemma_view_index(r, c);
                assert(board.items@[r * (width as int) + c] is Empty);
            }
        }
        board
    }

    /// Creates a board directly from a row-major list of cells.
    pub fn new_raw(items: Vec<Cell<C>>, width: usize, height: usize) -> (board: Self)
        requires
            items@.len() == width * height,
        ensures
            board.wf(),
            board.spec_width() == width,
            board.spec_height() == height,
            board@.len() == height,
            forall|r: int| 0 <= r < height ==> (#[trigger] board@[r]).len() == width,
            forall|r: int| 0 <= r < height
                ==> #[trigger] board@[r]
                    == items@.subrange(r * (width as int), r * (width as int) + (width as int)),
    {
        let board = Board { items, width, height };
        proof {
            board.lemma_shape();
        }
        board
    }

    /// The width of this board.
    pub fn width(&self) -> (r: usize)
        ensures
            r == self.spec_width(),
    {
        self.width
    }

    /// The height of this board.
    pub fn height(&self) -> (r: usize)
        ensures
            r == self.spec_height(),
    {
        self.height
    }

    /// Returns the item at `row` and `col`.
    pub fn get(&self, row: usize, col: usize) -> (r: Cell<C>)
        requires
            self.wf(),
            row < self.spec_height(),
            col < self.spec_width(),
        ensures
            r == self@[row as int][col as int],
    {
        let n = self.items.len();
        proof {
            self.lemma_view_index(row as int, col as int);
            lemma_flat_index(self.width as int, self.height as int, row as int, col as int);
            assert(n == self.items@.len());
        }
        self.items[row * self.width + col]
    }

    /// Overwrites the item at `row` and `col` with `value`.
    pub fn set(&mut self, row: usize, col: usize, value: Cell<C>)
        requires
            old(self).wf(),
            row < old(self).spec_height(),
            col < old(self).spec_width(),
        ensures
            final(self).wf(),
            final(self).spec_width() == old(self).spec_width(),
            final(self).spec_height() == old(self).spec_height(),
            final(self)@ == old(self)@.update(
                row as int,
                old(self)@[row as int].update(col as int, value),
            ),
    {
        let n = self.items.len();
        proof {
            lemma_flat_index(self.width as int, self.height as int, row as int, col as int);
            assert(n == self.items@.len());
        }
        let idx = row * self.width + col;
        self.items.set(idx, value);
        proof {
            let w = self.width as int;
            let h = self.height as int;
            let target = old(self)@.update(row as int, old(self)@[row as int].update(col as int, value));
            old(self).lemma_shape();
            self.lemma_shape();
            assert forall|r: int| 0 <= r < h implies self@[r] == target[r] by {
                assert forall|c: int| 0 <= c < w implies self@[r][c] == target[r][c] by {
                    lemma_flat_index(w, h, r, c);
                    self.lemma_view_index(r, c);
                    old(self).lemma_view_index(r, c);
                    if r * w + c != row as int * w + col as int {
                        assert(self.items@[r * w + c] == old(self).items@[r * w + c]);
                    } else {
                        lemma_flat_index_injective(w, r, c, row as int, col as int);
                    }
                }
                assert(self@[r] =~= target[r]);
            }
            assert(self@ =~= target);
        }
    }

    /// Returns a copy of the row at `index`.
    pub fn row(&self, index: usize) -> (r: Vec<Cell<C>>)
        requires
            self.wf(),
            index < self.spec_height(),
        ensures
            r@ == self@[index as int],
    {
        proof {
            self.lemma_shape();
        }
        let mut r: Vec<Cell<C>> = Vec::new();
        let mut c: usize = 0;
        let width = self.width;
        while c < width
            invariant
                self.wf(),
                index < self.spec_height(),
                width == self.spec_width(),
                c <= width,
                r@ == self@[index as int].take(c as int),
            decreases width - c,
        {
            r.push(self.get(index, c));
            proof {
                self.lemma_shape();
                assert(r@ =~= self@[index as int].take(c as int + 1));
            }
            c = c + 1;
        }
        proof {
            self.lemma_shape();
            assert(self@[index as int].take(width as int) =~= self@[index as int]);
        }
        r
    }

    /// Returns a copy of the column at `index`, read top to bottom.
    pub fn column(&self, index: usize) -> (r: Vec<Cell<C>>)
        requires
            self.wf(),
            index < self.spec_width(),
        ensures
            r@ == col_of(self@, index as int),
    {
        proof {
            self.lemma_shape();
        }
        let mut r: Vec<Cell<C>> = Vec::new();
        let mut row: usize = 0;
        let height = self.height;
        while row < height
            invariant
                self.wf(),
                index < self.spec_width(),
                height == self.spec_height(),
                row <= height,
                r@ == col_of(self@, index as int).take(row as int),
            decreases height - row,
        {
            r.push(self.get(row, index));
            proof {
                self.lemma_shape();
                assert(r@ =~= col_of(self@, index as int).take(row as int + 1));
            }
            row = row + 1;
        }
        proof {
            assert(col_of(self@, index as int).take(height as int) =~= col_of(self@, index as int));
        }
        r
    }

    /// Returns copies of all rows of this board, top to bottom.
    pub fn rows(&self) -> (r: Vec<Vec<Cell<C>>>)
        requires
            self.wf(),
        ensures
            r@.len() == self.spec_height(),
            forall|i: int| 0 <= i < r@.len() ==> (#[trigger] r@[i])@ == self@[i],
    {
        let mut r: Vec<Vec<Cell<C>>> = Vec::new();
        let mut i: usize = 0;
        let height = self.height;
        while i < height
            invariant
                self.wf(),
                height == self.spec_height(),
                i <= height,
                r@.len() == i,
                forall|k: int| 0 <= k < i ==> (#[trigger] r@[k])@ == self@[k],
            decreases height - i,
        {
            let row = self.row(i);
            r.push(row);
            i = i + 1;
        }
        r
    }

    /// Returns copies of all columns of this board, left to right.
    pub fn columns(&self) -> (r: Vec<Vec<Cell<C>>>)
        requires
            self.wf(),
        ensures
            r@.len() == self.spec_width(),
            forall|i: int| 0 <= i < r@.len() ==> (#[trigger] r@[i])@ == col_of(self@, i),
    {
        let mut r: Vec<Vec<Cell<C>>> = Vec::new();
        let mut i: usize = 0;
        let width = self.width;
        while i < width
            invariant
                self.wf(),
                width == self.spec_width(),
                i <= width,
                r@.len() == i,
                forall|k: int| 0 <= k < i ==> (#[trigger] r@[k])@ == col_of(self@, k),
            decreases width - i,
        {
            let col = self.column(i);
            r.push(col);
            i = i + 1;
        }
        r
    }

    /// Returns the cells in this board together with their positions, in
    /// row-major order.
    pub fn cells(&self) -> (r: Vec<(usize, usize, Cell<C>)>)
        requires
            self.wf(),
        ensures
            r@.len() == self.spec_height() * self.spec_width(),
            forall|i: int, c: int|
                0 <= i < self.spec_height() && 0 <= c < self.spec_width()
                    ==> #[trigger] r@[i * (self.spec_width() as int) + c]
                        == (i as usize, c as usize, self@[i][c]),
    {
        proof {
            self.lemma_shape();
        }
        let mut r: Vec<(usize, usize, Cell<C>)> = Vec::new();
        let mut i: usize = 0;
        let height = self.height;
        let width = self.width;
        while i < height
            invariant
                self.wf(),
                height == self.spec_height(),
                width == self.spec_width(),
                i <= height,
                r@.len() == i * (width as int),
                forall|k: int, c: int|
                    0 <= k < i && 0 <= c < width
                        ==> #[trigger] r@[k * (width as int) + c] == (k as usize, c as usize, self@[k][c]),
            decreases height - i,
        {
            let mut c: usize = 0;
            while c < width
                invariant
                    self.wf(),
                    height == self.spec_height(),
                    width == self.spec_width(),
                    i < height,
                    c <= width,
                    r@.len() == i * (width as int) + c,
                    forall|k: int, d: int|
                        0 <= k < i && 0 <= d < width
                            ==> #[trigger] r@[k * (width as int) + d]
                                == (k as usize, d as usize, self@[k][d]),
                    forall|d: int|
                        0 <= d < c
                            ==> #[trigger] r@[i as int * (width as int) + d]
                                == (i as usize, d as usize, self@[i as int][d]),
                decreases width - c,
            {
                proof {
                    lemma_flat_index(width as int, height as int, i as int, c as int);
                }
                let cell = self.get(i, c);
                r.push((i, c, cell));
                proof {
                    assert forall|k: int, d: int|
                        0 <= k < i && 0 <= d < width implies #[trigger] r@[k * (width as int) + d]
                            == (k as usize, d as usize, self@[k][d]) by {
                        lemma_flat_index(width as int, i as int, k, d);
                        lemma_flat_index(width as int, height as int, i as int, c as int);
                        assert(k * (width as int) + width <= i * (width as int)) by (nonlinear_arith)
                            requires 0 <= k < i, 0 <= width;
                    }
                }
                c = c + 1;
            }
            i = i + 1;
            proof {
                assert((i - 1) * (width as int) + width == i * (width as int)) by (nonlinear_arith);
            }
        }
        proof {
            assert(r@.len() == self.spec_height() * self.spec_width());
        }
        r
    }
}

} // verus!
