use nonogram::Board;
use nonogram::BoardError;
use nonogram::Cell;
use nonogram::Side;
use nonogram::SolveState;

fn side(len: usize, constraints: Vec<Vec<u32>>) -> Side {
    Side { len, constraints }
}

#[test]
fn new_board_is_all_unknown_without_cursor() {
    let b = Board::new(3, 2);
    assert_eq!(b.x.len, 3);
    assert_eq!(b.y.len, 2);
    assert_eq!(b.state.len(), 3);
    for row in &b.state {
        assert_eq!(row.len(), 2);
        for &cell in row {
            assert_eq!(cell, Cell::Unknown);
        }
    }
    assert!(b.solve_state.is_none());
    assert_eq!(b.x.constraints.len(), 3);
    assert_eq!(b.y.constraints.len(), 2);
}

#[test]
fn cell_default_is_unknown() {
    assert_eq!(Cell::default(), Cell::Unknown);
}

#[test]
fn by_sides_rejects_shape_mismatch() {
    let x = side(2, vec![vec![]]);
    let y = side(1, vec![vec![]]);
    let r = Board::by_sides(x, y);
    assert_eq!(r.err(), Some(BoardError::ShapeMismatch));
}

#[test]
fn by_sides_rejects_runs_that_cannot_fit() {
    // the x line of two cells would have to hold a run of three
    let x = side(1, vec![vec![3]]);
    let y = side(2, vec![vec![], vec![]]);
    let r = Board::by_sides(x, y);
    assert_eq!(r.err(), Some(BoardError::InvalidConstraints));
}

#[test]
fn by_sides_rejects_zero_length_runs() {
    let x = side(1, vec![vec![0]]);
    let y = side(1, vec![vec![]]);
    let r = Board::by_sides(x, y);
    assert_eq!(r.err(), Some(BoardError::InvalidConstraints));
}

#[test]
fn first_step_only_places_the_cursor() {
    let mut b = Board::new(2, 2);
    assert!(b.solve_state.is_none());
    assert_eq!(b.next(), Some(()));
    assert_eq!(
        b.solve_state,
        Some(SolveState { counter: 0, is_x: true, idx: 0 })
    );
    for row in &b.state {
        for &cell in row {
            assert_eq!(cell, Cell::Unknown);
        }
    }
}

#[test]
fn cursor_visits_all_rows_then_all_columns() {
    let x = side(2, vec![vec![], vec![]]);
    let y = side(3, vec![vec![], vec![], vec![]]);
    let mut b = Board::by_sides(x, y).unwrap();
    b.next(); // lazy init
    let mut seen: Vec<(bool, usize)> = Vec::new();
    for _ in 0..5 {
        b.next();
        let st = b.solve_state.unwrap();
        seen.push((st.is_x, st.idx));
    }
    assert_eq!(
        seen,
        vec![(true, 0), (true, 1), (false, 0), (false, 1), (false, 2)]
    );
    // after one full rotation the counter has wrapped
    assert_eq!(b.solve_state.unwrap().counter, 0);
    b.next();
    let st = b.solve_state.unwrap();
    assert_eq!((st.is_x, st.idx), (true, 0));
}

#[test]
fn stepping_solves_rows_then_columns() {
    // row 0 must hold a run of two (both cells), row 1 nothing
    let x = side(2, vec![vec![2], vec![]]);
    let y = side(2, vec![vec![1], vec![1]]);
    let mut b = Board::by_sides(x, y).unwrap();
    for _ in 0..5 {
        assert_eq!(b.next(), Some(()));
    }
    assert_eq!(
        b.state,
        vec![
            vec![Cell::Determined(true), Cell::Determined(true)],
            vec![Cell::Determined(false), Cell::Determined(false)],
        ]
    );
}

#[test]
fn unsatisfiable_line_leaves_grid_untouched() {
    // an empty line constraint with a filled cell is unsatisfiable, so the
    // grid must stay as it is rather than be corrupted
    let x = side(2, vec![vec![], vec![]]);
    let y = side(2, vec![vec![], vec![]]);
    let mut b = Board::by_sides(x, y).unwrap();
    b.state[0][0] = Cell::Determined(true);
    b.next(); // init
    b.next(); // row 0: empty constraints, filled cell: no update
    assert_eq!(b.state[0][0], Cell::Determined(true));
    assert_eq!(b.state[0][1], Cell::Unknown);
}

#[test]
fn column_deductions_are_scattered_across_rows() {
    // the rows say nothing definite; the first column fills itself, the
    // second clears itself
    let x = side(2, vec![vec![1], vec![1]]);
    let y = side(2, vec![vec![2], vec![]]);
    let mut b = Board::by_sides(x, y).unwrap();
    for _ in 0..5 {
        b.next();
    }
    assert_eq!(
        b.state,
        vec![
            vec![Cell::Determined(true), Cell::Determined(false)],
            vec![Cell::Determined(true), Cell::Determined(false)],
        ]
    );
}

#[test]
fn determined_cells_never_revert() {
    let x = side(2, vec![vec![2], vec![1]]);
    let y = side(2, vec![vec![2], vec![1]]);
    let mut b = Board::by_sides(x, y).unwrap();
    let mut determined: Vec<(usize, usize, Cell)> = Vec::new();
    for _ in 0..13 {
        b.next();
        for (i, j, c) in &determined {
            assert_eq!(b.state[*i][*j], *c);
        }
        determined.clear();
        for i in 0..2 {
            for j in 0..2 {
                if b.state[i][j] != Cell::Unknown {
                    determined.push((i, j, b.state[i][j]));
                }
            }
        }
    }
}

#[test]
fn zero_sized_board_steps_without_effect() {
    let mut b = Board::new(0, 0);
    assert_eq!(b.next(), Some(()));
    assert_eq!(b.next(), Some(()));
    assert_eq!(
        b.solve_state,
        Some(SolveState { counter: 0, is_x: true, idx: 0 })
    );
}
