use tic_tac_go::board::Board;
use tic_tac_go::movement::{attempt_move_reverse, attempt_move_runtime};

fn full_board(rows: usize, cols: usize) -> Board {
    Board::new(vec![cols; rows], vec![true; rows * cols]).expect("a full rectangle is a board")
}

fn board_with_hole(rows: usize, cols: usize, hole: (usize, usize)) -> Board {
    let mut cells = vec![true; rows * cols];
    cells[hole.0 * cols + hole.1] = false;
    Board::new(vec![cols; rows], cells).expect("one hole keeps the board connected")
}

#[test]
fn push_moves_circle_and_cross() {
    let board = full_board(5, 5);
    let mut circles = vec![(2, 2), (0, 0), (4, 0)];
    let mut crosses = vec![(2, 3), (4, 4)];
    attempt_move_runtime(&mut circles, &mut crosses, 0, 0, 1, &board);
    assert_eq!(circles, vec![(2, 3), (0, 0), (4, 0)]);
    assert_eq!(crosses, vec![(2, 4), (4, 4)]);
}

#[test]
fn push_into_absent_cell_is_refused() {
    let board = board_with_hole(5, 5, (2, 4));
    let mut circles = vec![(2, 2), (0, 0), (4, 0)];
    let mut crosses = vec![(2, 3), (4, 4)];
    attempt_move_runtime(&mut circles, &mut crosses, 0, 0, 1, &board);
    assert_eq!(circles, vec![(2, 2), (0, 0), (4, 0)]);
    assert_eq!(crosses, vec![(2, 3), (4, 4)]);
}

#[test]
fn push_into_occupied_cell_is_refused() {
    let board = full_board(5, 5);
    let mut circles = vec![(2, 2), (0, 0), (4, 0)];
    let mut crosses = vec![(2, 3), (2, 4)];
    attempt_move_runtime(&mut circles, &mut crosses, 0, 0, 1, &board);
    assert_eq!(circles, vec![(2, 2), (0, 0), (4, 0)]);
    assert_eq!(crosses, vec![(2, 3), (2, 4)]);
}

#[test]
fn push_of_circle_moves_both_circles() {
    let board = full_board(3, 4);
    let mut circles = vec![(1, 0), (1, 1), (0, 3)];
    let mut crosses = vec![(2, 2)];
    attempt_move_runtime(&mut circles, &mut crosses, 0, 0, 1, &board);
    assert_eq!(circles, vec![(1, 1), (1, 2), (0, 3)]);
    assert_eq!(crosses, vec![(2, 2)]);
}

#[test]
fn step_onto_free_cell() {
    let board = full_board(3, 3);
    let mut circles = vec![(1, 1), (0, 0), (2, 2)];
    let mut crosses = vec![(0, 2)];
    attempt_move_runtime(&mut circles, &mut crosses, 0, -1, 0, &board);
    assert_eq!(circles, vec![(0, 1), (0, 0), (2, 2)]);
    assert_eq!(crosses, vec![(0, 2)]);
}

#[test]
fn step_off_the_board_is_refused() {
    let board = full_board(3, 3);
    let mut circles = vec![(0, 1), (1, 1), (2, 2)];
    let mut crosses = vec![(2, 0)];
    attempt_move_runtime(&mut circles, &mut crosses, 0, -1, 0, &board);
    assert_eq!(circles, vec![(0, 1), (1, 1), (2, 2)]);
    assert_eq!(crosses, vec![(2, 0)]);
}

#[test]
fn step_onto_hole_is_refused() {
    let board = board_with_hole(3, 3, (1, 2));
    let mut circles = vec![(1, 1), (0, 0), (2, 2)];
    let mut crosses = vec![(2, 0)];
    attempt_move_runtime(&mut circles, &mut crosses, 0, 0, 1, &board);
    attempt_move_reverse(&mut circles, &mut crosses, 0, 0, 1, &board);
    assert_eq!(circles, vec![(1, 1), (0, 0), (2, 2)]);
    assert_eq!(crosses, vec![(2, 0)]);
}

#[test]
fn reverse_pulls_marker_behind() {
    let board = full_board(4, 4);
    let mut circles = vec![(1, 1), (3, 3), (3, 0)];
    let mut crosses = vec![(1, 0)];
    attempt_move_reverse(&mut circles, &mut crosses, 0, 0, 1, &board);
    assert_eq!(circles, vec![(1, 2), (3, 3), (3, 0)]);
    assert_eq!(crosses, vec![(1, 1)]);
}

#[test]
fn reverse_with_blocked_forward_cell_is_refused() {
    let board = full_board(4, 4);
    let mut circles = vec![(1, 1), (1, 2), (3, 0)];
    let mut crosses = vec![(1, 0)];
    attempt_move_reverse(&mut circles, &mut crosses, 0, 0, 1, &board);
    assert_eq!(circles, vec![(1, 1), (1, 2), (3, 0)]);
    assert_eq!(crosses, vec![(1, 0)]);
}

#[test]
fn forward_in_opposite_direction_undoes_pull() {
    let board = full_board(4, 4);
    let circles0 = vec![(1, 1), (3, 3), (3, 0)];
    let crosses0 = vec![(1, 0), (0, 3)];
    let mut circles = circles0.clone();
    let mut crosses = crosses0.clone();
    attempt_move_reverse(&mut circles, &mut crosses, 0, 0, 1, &board);
    assert_ne!((circles.clone(), crosses.clone()), (circles0.clone(), crosses0.clone()));
    attempt_move_runtime(&mut circles, &mut crosses, 0, 0, -1, &board);
    assert_eq!(circles, circles0);
    assert_eq!(crosses, crosses0);
}

#[test]
fn forward_in_opposite_direction_undoes_plain_reverse_step() {
    let board = full_board(4, 4);
    let circles0 = vec![(2, 1), (0, 0), (0, 3)];
    let crosses0 = vec![(3, 3)];
    let mut circles = circles0.clone();
    let mut crosses = crosses0.clone();
    attempt_move_reverse(&mut circles, &mut crosses, 0, -1, 0, &board);
    assert_eq!(circles, vec![(1, 1), (0, 0), (0, 3)]);
    attempt_move_runtime(&mut circles, &mut crosses, 0, 1, 0, &board);
    assert_eq!(circles, circles0);
    assert_eq!(crosses, crosses0);
}
