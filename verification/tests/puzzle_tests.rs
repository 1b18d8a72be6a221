use picore::Board;
use picore::Cell;
use picore::ConstraintEntry;
use picore::ConstraintGroup;
use picore::Puzzle;
use picore::SimpleCell;

fn make(constraints: Vec<Vec<(usize, SimpleCell)>>) -> ConstraintGroup<SimpleCell> {
    constraints
        .into_iter()
        .map(|constraint| constraint.into_iter().map(From::from).collect())
        .collect()
}

fn test_board() -> Board<SimpleCell> {
    let f = Cell::Filled(SimpleCell);
    let e: Cell<SimpleCell> = Cell::Empty;

    Board::new_raw(
        vec![
            e, f, f, e, e, //
            f, e, e, f, e, //
            e, f, f, e, e,
        ],
        5,
        3,
    )
}

fn test_puzzle() -> Puzzle<SimpleCell> {
    Puzzle::new(
        make(vec![
            vec![(2, SimpleCell)],
            vec![(1, SimpleCell), (1, SimpleCell)],
            vec![(2, SimpleCell)],
        ]),
        make(vec![
            vec![(1, SimpleCell)],
            vec![(1, SimpleCell), (1, SimpleCell)],
            vec![(1, SimpleCell), (1, SimpleCell)],
            vec![(1, SimpleCell)],
            vec![],
        ]),
    )
}

#[test]
fn check_works() {
    let board = test_board();
    let puzzle = test_puzzle();

    assert!(puzzle.is_solved_by(&board));
}

#[test]
fn check_fails() {
    let board = {
        let f = Cell::Filled(SimpleCell);
        let e: Cell<SimpleCell> = Cell::Empty;

        Board::new_raw(
            vec![
                e, f, f, e, f, //
                f, e, e, f, e, //
                e, f, f, e, f,
            ],
            5,
            3,
        )
    };
    let puzzle = test_puzzle();

    assert!(!puzzle.is_solved_by(&board));
}

#[test]
fn empty_constraint_accepts_only_ignored_cells() {
    let empty_constraint: Vec<ConstraintEntry<SimpleCell>> = vec![];

    // Every cell ignored: satisfied.
    let ignored_line: Vec<Cell<SimpleCell>> = vec![Cell::Empty, Cell::CrossedOut, Cell::Empty];
    assert!(Puzzle::is_solved(&empty_constraint, &ignored_line));

    // A wholly empty line is satisfied too.
    let blank_line: Vec<Cell<SimpleCell>> = vec![];
    assert!(Puzzle::is_solved(&empty_constraint, &blank_line));

    // One filled cell breaks it.
    let one_filled: Vec<Cell<SimpleCell>> =
        vec![Cell::Empty, Cell::Filled(SimpleCell), Cell::CrossedOut];
    assert!(!Puzzle::is_solved(&empty_constraint, &one_filled));
}

#[test]
fn matcher_is_order_sensitive() {
    let f = Cell::Filled(SimpleCell);

    // Two separated unit runs never satisfy one run of size two.
    let two_units: Vec<Cell<SimpleCell>> = vec![f, Cell::Empty, f];
    let one_pair: Vec<ConstraintEntry<SimpleCell>> =
        vec![ConstraintEntry { value: SimpleCell, size: 2 }];
    assert!(!Puzzle::is_solved(&one_pair, &two_units));

    // Two adjacent filled cells do form one run of size two.
    let adjacent: Vec<Cell<SimpleCell>> = vec![f, f, Cell::Empty];
    assert!(Puzzle::is_solved(&one_pair, &adjacent));

    // And the separated line satisfies exactly two unit entries.
    let two_entries: Vec<ConstraintEntry<SimpleCell>> = vec![
        ConstraintEntry { value: SimpleCell, size: 1 },
        ConstraintEntry { value: SimpleCell, size: 1 },
    ];
    assert!(Puzzle::is_solved(&two_entries, &two_units));
    assert!(!Puzzle::is_solved(&two_entries, &adjacent));
}

#[test]
fn crossed_out_cells_split_runs_like_empty_ones() {
    let f = Cell::Filled(SimpleCell);

    let line: Vec<Cell<SimpleCell>> = vec![f, Cell::CrossedOut, f];
    let one_pair: Vec<ConstraintEntry<SimpleCell>> =
        vec![ConstraintEntry { value: SimpleCell, size: 2 }];
    let two_units: Vec<ConstraintEntry<SimpleCell>> = vec![
        ConstraintEntry { value: SimpleCell, size: 1 },
        ConstraintEntry { value: SimpleCell, size: 1 },
    ];
    assert!(!Puzzle::is_solved(&one_pair, &line));
    assert!(Puzzle::is_solved(&two_units, &line));
}

#[test]
fn too_few_or_too_many_runs_fail() {
    let f = Cell::Filled(SimpleCell);

    let two_entries: Vec<ConstraintEntry<SimpleCell>> = vec![
        ConstraintEntry { value: SimpleCell, size: 1 },
        ConstraintEntry { value: SimpleCell, size: 1 },
    ];
    let one_run: Vec<Cell<SimpleCell>> = vec![f, Cell::Empty, Cell::Empty];
    assert!(!Puzzle::is_solved(&two_entries, &one_run));

    let three_runs: Vec<Cell<SimpleCell>> = vec![f, Cell::Empty, f, Cell::Empty, f];
    assert!(!Puzzle::is_solved(&two_entries, &three_runs));
}

#[test]
fn row_and_column_checks_read_the_right_lines() {
    let board = test_board();
    let puzzle = test_puzzle();

    for i in 0..3 {
        assert!(puzzle.row_is_solved(&board, i));
    }
    for j in 0..5 {
        assert!(puzzle.column_is_solved(&board, j));
    }

    // Clearing one filled cell breaks exactly its row and column.
    let mut broken = test_board();
    broken.set(1, 0, Cell::Empty);
    assert!(!puzzle.row_is_solved(&broken, 1));
    assert!(!puzzle.column_is_solved(&broken, 0));
    assert!(puzzle.row_is_solved(&broken, 0));
    assert!(puzzle.column_is_solved(&broken, 1));
}

#[test]
fn constraint_entry_from_pair() {
    let entry: ConstraintEntry<SimpleCell> = ConstraintEntry::from((3, SimpleCell));
    assert_eq!(entry.size, 3);
    assert_eq!(entry.value, SimpleCell);
}

#[test]
fn constraint_groups_are_returned_as_given() {
    let puzzle = test_puzzle();
    let rows = puzzle.row_constraints();
    assert_eq!(rows.len(), 3);
    assert_eq!(rows[0].len(), 1);
    assert_eq!(rows[0][0].size, 2);
    assert_eq!(rows[1].len(), 2);
    let cols = puzzle.column_constraints();
    assert_eq!(cols.len(), 5);
    assert_eq!(cols[4].len(), 0);
}

#[test]
fn char_repr_covers_all_cell_kinds() {
    assert_eq!(SimpleCell::char_repr(&Cell::Empty), '.');
    assert_eq!(SimpleCell::char_repr(&Cell::CrossedOut), '/');
    assert_eq!(SimpleCell::char_repr(&Cell::Filled(SimpleCell)), '#');
}

#[test]
fn is_ignored_matches_cell_kind() {
    assert!(Cell::<SimpleCell>::Empty.is_ignored());
    assert!(Cell::<SimpleCell>::CrossedOut.is_ignored());
    assert!(!Cell::Filled(SimpleCell).is_ignored());
}
