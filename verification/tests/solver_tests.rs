use nonogram::solve_line;
use nonogram::Cell;

fn unknowns(n: usize) -> Vec<Cell> {
    vec![Cell::Unknown; n]
}

#[test]
fn single_run_of_three_in_five_fixes_middle_cell() {
    let constraints: Vec<u32> = vec![3];
    let current = unknowns(5);
    let out = solve_line(&constraints, &current);
    assert_eq!(
        out,
        Some(vec![
            Cell::Unknown,
            Cell::Unknown,
            Cell::Determined(true),
            Cell::Unknown,
            Cell::Unknown,
        ])
    );
}

#[test]
fn run_filling_whole_line_fixes_every_cell() {
    let constraints: Vec<u32> = vec![4];
    let current = unknowns(4);
    let out = solve_line(&constraints, &current);
    assert_eq!(out, Some(vec![Cell::Determined(true); 4]));
}

#[test]
fn two_single_runs_around_known_blank() {
    let constraints: Vec<u32> = vec![1, 1];
    let current = vec![Cell::Unknown, Cell::Determined(false), Cell::Unknown];
    let out = solve_line(&constraints, &current);
    assert_eq!(
        out,
        Some(vec![
            Cell::Determined(true),
            Cell::Determined(false),
            Cell::Determined(true),
        ])
    );
}

#[test]
fn empty_constraints_clear_an_unknown_line() {
    let constraints: Vec<u32> = vec![];
    let current = vec![Cell::Unknown, Cell::Determined(false), Cell::Unknown];
    let out = solve_line(&constraints, &current);
    assert_eq!(out, Some(vec![Cell::Determined(false); 3]));
}

#[test]
fn empty_constraints_reject_a_filled_cell() {
    let constraints: Vec<u32> = vec![];
    let current = vec![Cell::Unknown, Cell::Determined(true), Cell::Unknown];
    let out = solve_line(&constraints, &current);
    assert_eq!(out, None);
}

#[test]
fn exact_fit_of_two_runs_is_fully_determined() {
    let constraints: Vec<u32> = vec![2, 2];
    let current = unknowns(5);
    let out = solve_line(&constraints, &current);
    assert_eq!(
        out,
        Some(vec![
            Cell::Determined(true),
            Cell::Determined(true),
            Cell::Determined(false),
            Cell::Determined(true),
            Cell::Determined(true),
        ])
    );
}

#[test]
fn unsatisfiable_snapshot_yields_no_update() {
    let constraints: Vec<u32> = vec![1];
    let current = vec![Cell::Determined(false)];
    let out = solve_line(&constraints, &current);
    assert_eq!(out, None);
}

#[test]
fn undecided_everywhere_yields_no_update() {
    // a single cell among two: the placements disagree on every position
    let constraints: Vec<u32> = vec![1];
    let current = unknowns(2);
    let out = solve_line(&constraints, &current);
    assert_eq!(out, None);
}

#[test]
fn rerunning_on_own_output_is_a_fixed_point() {
    let constraints: Vec<u32> = vec![3];
    let current = unknowns(5);
    let first = solve_line(&constraints, &current).unwrap();
    let second = solve_line(&constraints, &first);
    assert_eq!(second, Some(first));
}

#[test]
fn partial_snapshot_narrows_the_placements() {
    // length 5, run of 3, leftmost cell known filled: only one placement
    let constraints: Vec<u32> = vec![3];
    let mut current = unknowns(5);
    current[0] = Cell::Determined(true);
    let out = solve_line(&constraints, &current);
    assert_eq!(
        out,
        Some(vec![
            Cell::Determined(true),
            Cell::Determined(true),
            Cell::Determined(true),
            Cell::Determined(false),
            Cell::Determined(false),
        ])
    );
}

#[test]
fn known_filled_cell_in_the_middle_extends_nothing_but_blanks_far_ends() {
    // length 5, run of 2, middle cell filled: run covers cell 2 and one
    // neighbour, so cells 0 and 4 can never be filled
    let constraints: Vec<u32> = vec![2];
    let mut current = unknowns(5);
    current[2] = Cell::Determined(true);
    let out = solve_line(&constraints, &current).unwrap();
    assert_eq!(out[0], Cell::Determined(false));
    assert_eq!(out[2], Cell::Determined(true));
    assert_eq!(out[4], Cell::Determined(false));
    assert_eq!(out[1], Cell::Unknown);
    assert_eq!(out[3], Cell::Unknown);
}
