use picore::Cell;
use picore::ConstraintGroup;
use picore::Picross;
use picore::Puzzle;
use picore::SimpleCell;

fn make(constraints: Vec<Vec<(usize, SimpleCell)>>) -> ConstraintGroup<SimpleCell> {
    constraints
        .into_iter()
        .map(|constraint| constraint.into_iter().map(From::from).collect())
        .collect()
}

/// A 5 columns by 3 rows puzzle whose last column must stay blank.
fn scenario_puzzle() -> Puzzle<SimpleCell> {
    Puzzle::new(
        make(vec![
            vec![(2, SimpleCell)],
            vec![(1, SimpleCell), (1, SimpleCell)],
            vec![(2, SimpleCell)],
        ]),
        make(vec![
            vec![(1, SimpleCell)],
            vec![(1, SimpleCell), (1, SimpleCell)],
            vec![(1, SimpleCell), (1, SimpleCell)],
            vec![(1, SimpleCell)],
            vec![],
        ]),
    )
}

#[test]
fn new_game_checks_every_line_once() {
    let game = Picross::new(scenario_puzzle());
    assert_eq!(game.width(), 5);
    assert_eq!(game.height(), 3);
    assert!(!game.is_solved());

    // The empty constraint of column 4 is satisfied by the blank board, so
    // its bit is set and its cells are auto-crossed right away.
    let (rows, cols) = game.status();
    assert_eq!(rows, vec![false, false, false]);
    assert_eq!(cols, vec![false, false, false, false, true]);
    assert_eq!(game.get(0, 4), Cell::CrossedOut);
    assert_eq!(game.get(1, 4), Cell::CrossedOut);
    assert_eq!(game.get(2, 4), Cell::CrossedOut);

    // Every other cell starts empty.
    for r in 0..3 {
        for c in 0..4 {
            assert_eq!(game.get(r, c), Cell::Empty);
        }
    }
}

#[test]
fn scenario_reaches_solved() {
    let mut game = Picross::new(scenario_puzzle());

    assert!(!game.place_at(SimpleCell, 0, 1));
    assert!(!game.place_at(SimpleCell, 0, 2));

    // Row 0 is now complete: its blanks are auto-crossed.
    let (rows, _) = game.status();
    assert!(rows[0]);
    assert_eq!(game.get(0, 0), Cell::CrossedOut);
    assert_eq!(game.get(0, 3), Cell::CrossedOut);

    assert!(!game.place_at(SimpleCell, 1, 0));
    assert!(!game.place_at(SimpleCell, 1, 3));
    assert!(!game.place_at(SimpleCell, 2, 1));
    assert!(game.place_at(SimpleCell, 2, 2));
    assert!(game.is_solved());

    let (rows, cols) = game.status();
    assert_eq!(rows, vec![true, true, true]);
    assert_eq!(cols, vec![true, true, true, true, true]);
}

#[test]
fn extra_run_breaks_solved_row() {
    let mut game = Picross::new(scenario_puzzle());
    for (r, c) in [(0, 1), (0, 2), (1, 0), (1, 3), (2, 1), (2, 2)] {
        game.place_at(SimpleCell, r, c);
    }
    assert!(game.is_solved());

    // A second run appears in row 0: observed [2, 1] against expected [2].
    let solved = game.place_at(SimpleCell, 0, 4);
    assert!(!solved);
    let (rows, cols) = game.status();
    assert!(!rows[0]);
    assert!(!cols[4]);
    assert!(rows[1] && rows[2]);
    assert!(cols[0] && cols[1] && cols[2] && cols[3]);

    // Row 0's auto-crossed cells keep their cross-outs: the columns they
    // belong to are still solved on their own.
    assert_eq!(game.get(0, 0), Cell::CrossedOut);
    assert_eq!(game.get(0, 3), Cell::CrossedOut);
    // Column 4's other cross-outs survive too, justified by their rows.
    assert_eq!(game.get(1, 4), Cell::CrossedOut);
    assert_eq!(game.get(2, 4), Cell::CrossedOut);
}

#[test]
fn stale_cross_outs_are_reverted_when_row_breaks() {
    let mut game = Picross::new(scenario_puzzle());
    game.place_at(SimpleCell, 0, 1);
    game.place_at(SimpleCell, 0, 2);
    assert_eq!(game.get(0, 0), Cell::CrossedOut);
    assert_eq!(game.get(0, 3), Cell::CrossedOut);

    // Break row 0 again: its auto-crossed cells sit on columns that are not
    // solved, so they are reverted to empty.
    game.clear_at(0, 2);
    assert_eq!(game.get(0, 0), Cell::Empty);
    assert_eq!(game.get(0, 3), Cell::Empty);
    // The cross-out on the solved column 4 is kept.
    assert_eq!(game.get(0, 4), Cell::CrossedOut);
}

#[test]
fn premature_cross_out_is_reverted() {
    let mut game = Picross::new(scenario_puzzle());
    // Neither row 1 nor column 1 is solved, so the cross-out cannot be
    // justified and the re-check reverts it at once.
    assert!(!game.cross_out(1, 1));
    assert_eq!(game.get(1, 1), Cell::Empty);
    // On the solved column 4 a cross-out sticks.
    assert!(!game.cross_out(1, 4));
    assert_eq!(game.get(1, 4), Cell::CrossedOut);
}

#[test]
fn clear_on_empty_cell_is_a_no_op() {
    let mut game = Picross::new(scenario_puzzle());
    game.place_at(SimpleCell, 0, 1);

    let cells_before = game.cells();
    let status_before = game.status();
    let solved = game.clear_at(2, 0);
    assert!(!solved);
    assert_eq!(game.cells(), cells_before);
    assert_eq!(game.status(), status_before);
}

#[test]
fn repeated_re_checks_are_a_fixed_point() {
    let mut game = Picross::new(scenario_puzzle());
    game.place_at(SimpleCell, 0, 1);
    game.place_at(SimpleCell, 0, 2);

    // Re-checking the same row and column over and over, with no effective
    // edit in between, changes nothing.
    let cells_before = game.cells();
    let status_before = game.status();
    game.clear_at(1, 1);
    assert_eq!(game.cells(), cells_before);
    assert_eq!(game.status(), status_before);
    game.clear_at(1, 1);
    assert_eq!(game.cells(), cells_before);
    assert_eq!(game.status(), status_before);
}

#[test]
fn accessors_reflect_the_puzzle() {
    let game = Picross::new(scenario_puzzle());
    assert_eq!(game.row_constraints().len(), 3);
    assert_eq!(game.column_constraints().len(), 5);
    assert_eq!(game.row_constraints()[0][0].size, 2);
    assert_eq!(game.column_constraints()[4].len(), 0);

    let cells = game.cells();
    assert_eq!(cells.len(), 15);
    for (r, c, cell) in cells {
        assert_eq!(cell, game.get(r, c));
    }
}
