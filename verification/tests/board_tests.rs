use picore::Board;
use picore::Cell;
use picore::SimpleCell;

fn test_board() -> Board<SimpleCell> {
    let f = Cell::Filled(SimpleCell);
    let e: Cell<SimpleCell> = Cell::Empty;

    Board::new_raw(
        vec![
            e, f, f, e, e, //
            f, e, e, f, e, //
            e, f, f, e, e,
        ],
        5,
        3,
    )
}

#[test]
fn row_works() {
    let f = Cell::Filled(SimpleCell);
    let e: Cell<SimpleCell> = Cell::Empty;

    let puzzle = test_board();

    let expected_rows: Vec<Vec<Cell<SimpleCell>>> = vec![
        vec![e, f, f, e, e],
        vec![f, e, e, f, e],
        vec![e, f, f, e, e],
    ];

    assert_eq!(puzzle.row(0), expected_rows[0]);
    assert_eq!(puzzle.row(1), expected_rows[1]);
    assert_eq!(puzzle.row(2), expected_rows[2]);

    for (expected_row, actual_row) in expected_rows.iter().zip(puzzle.rows()) {
        assert_eq!(*expected_row, actual_row);
    }
}

#[test]
fn col_works() {
    let f = Cell::Filled(SimpleCell);
    let e: Cell<SimpleCell> = Cell::Empty;

    let puzzle = test_board();

    let expected_cols: Vec<Vec<Cell<SimpleCell>>> = vec![
        vec![e, f, e],
        vec![f, e, f],
        vec![f, e, f],
        vec![e, f, e],
        vec![e, e, e],
    ];

    assert_eq!(puzzle.column(0), expected_cols[0]);
    assert_eq!(puzzle.column(1), expected_cols[1]);
    assert_eq!(puzzle.column(2), expected_cols[2]);
    assert_eq!(puzzle.column(3), expected_cols[3]);
    assert_eq!(puzzle.column(4), expected_cols[4]);

    for (expected_col, actual_col) in expected_cols.iter().zip(puzzle.columns()) {
        assert_eq!(*expected_col, actual_col);
    }
}

#[test]
fn get_works() {
    let filled = Cell::Filled(SimpleCell);

    let puzzle = test_board();
    assert_eq!(puzzle.get(0, 3), Cell::Empty);
    assert_eq!(puzzle.get(2, 1), filled);
    assert_eq!(puzzle.get(1, 4), Cell::Empty);
}

#[test]
fn dimensions_and_cells_work() {
    let puzzle = test_board();
    assert_eq!(puzzle.width(), 5);
    assert_eq!(puzzle.height(), 3);

    let cells = puzzle.cells();
    assert_eq!(cells.len(), 15);
    for (r, c, cell) in cells {
        assert_eq!(cell, puzzle.get(r, c));
    }
    assert_eq!(puzzle.cells()[3], (0, 3, Cell::Empty));
    assert_eq!(puzzle.cells()[2 * 5 + 1], (2, 1, Cell::Filled(SimpleCell)));
}

#[test]
fn new_empty_starts_blank() {
    let board: Board<SimpleCell> = Board::new_empty(4, 2);
    assert_eq!(board.width(), 4);
    assert_eq!(board.height(), 2);
    for r in 0..2 {
        for c in 0..4 {
            assert_eq!(board.get(r, c), Cell::Empty);
        }
    }
}

#[test]
fn set_overwrites_one_cell() {
    let mut board: Board<SimpleCell> = Board::new_empty(3, 2);
    board.set(1, 2, Cell::Filled(SimpleCell));
    assert_eq!(board.get(1, 2), Cell::Filled(SimpleCell));
    assert_eq!(board.get(1, 1), Cell::Empty);
    assert_eq!(board.get(0, 2), Cell::Empty);
}
