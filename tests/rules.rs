use tic_tac_go::board::Board;
use tic_tac_go::rules::{check_cross_deadlock, check_lose_flat, is_win_flat};

fn full_board(rows: usize, cols: usize) -> Board {
    Board::new(vec![cols; rows], vec![true; rows * cols]).expect("a full rectangle is a board")
}

#[test]
fn three_in_middle_row_win() {
    let board = full_board(3, 3);
    let circles = vec![board.to_flat(1, 0), board.to_flat(1, 1), board.to_flat(1, 2)];
    assert!(is_win_flat(&circles, &board));
}

#[test]
fn three_in_column_win() {
    let board = full_board(4, 4);
    let circles = vec![board.to_flat(3, 2), board.to_flat(1, 2), board.to_flat(2, 2)];
    assert!(is_win_flat(&circles, &board));
}

#[test]
fn scattered_circles_do_not_win() {
    let board = full_board(4, 4);
    let circles = vec![board.to_flat(0, 0), board.to_flat(0, 1), board.to_flat(0, 3)];
    assert!(!is_win_flat(&circles, &board));
    let diagonal = vec![board.to_flat(0, 0), board.to_flat(1, 1), board.to_flat(2, 2)];
    assert!(!is_win_flat(&diagonal, &board));
}

#[test]
fn fewer_than_three_never_win() {
    let board = full_board(3, 3);
    assert!(!is_win_flat(&[], &board));
    assert!(!is_win_flat(&[0, 1], &board));
}

#[test]
fn flat_neighbours_across_rows_are_not_a_line() {
    // flat indices 2, 3, 4 are consecutive but wrap from row 0 to row 1
    let board = full_board(3, 3);
    assert!(!is_win_flat(&[2, 3, 4], &board));
}

#[test]
fn vertical_line_on_rows_of_different_width() {
    let board = Board::new(vec![3, 2, 4], vec![true; 9]).expect("a board");
    let cells = vec![board.to_flat(0, 1), board.to_flat(1, 1), board.to_flat(2, 1)];
    assert!(is_win_flat(&cells, &board));
    assert_eq!(cells, vec![1, 4, 6]);
}

#[test]
fn three_crosses_in_top_row_lose() {
    let board = full_board(5, 5);
    let crosses = vec![board.to_flat(0, 0), board.to_flat(0, 1), board.to_flat(0, 2)];
    assert!(check_lose_flat(&crosses, &board));
}

#[test]
fn two_crosses_do_not_lose() {
    let board = full_board(5, 5);
    let crosses = vec![board.to_flat(0, 0), board.to_flat(0, 1), board.to_flat(3, 3)];
    assert!(!check_lose_flat(&crosses, &board));
}

#[test]
fn full_two_by_two_block_is_deadlock() {
    let board = full_board(5, 5);
    let crosses = vec![
        board.to_flat(0, 0),
        board.to_flat(0, 1),
        board.to_flat(1, 0),
        board.to_flat(1, 1),
    ];
    assert!(check_cross_deadlock(&crosses, &board));
}

#[test]
fn block_away_from_walls_is_deadlock() {
    let board = full_board(6, 6);
    let crosses = vec![
        board.to_flat(2, 2),
        board.to_flat(2, 3),
        board.to_flat(3, 2),
        board.to_flat(3, 3),
    ];
    assert!(check_cross_deadlock(&crosses, &board));
}

#[test]
fn cross_in_corner_is_deadlock() {
    let board = full_board(5, 5);
    assert!(check_cross_deadlock(&[board.to_flat(4, 4)], &board));
}

#[test]
fn cross_in_open_field_is_free() {
    let board = full_board(5, 5);
    assert!(!check_cross_deadlock(&[board.to_flat(2, 2)], &board));
    assert!(!check_cross_deadlock(&[], &board));
}

#[test]
fn cross_on_edge_with_free_sides_is_free() {
    let board = full_board(5, 5);
    assert!(!check_cross_deadlock(&[board.to_flat(0, 2)], &board));
}

#[test]
fn cross_pinned_by_wall_and_cross_is_deadlock() {
    let board = full_board(5, 5);
    let crosses = vec![board.to_flat(0, 2), board.to_flat(0, 3)];
    assert!(check_cross_deadlock(&crosses, &board));
}

#[test]
fn cross_pinned_by_hole_is_deadlock() {
    let mut cells = vec![true; 25];
    cells[2 * 5 + 3] = false;
    let board = Board::new(vec![5; 5], cells).expect("a board");
    assert!(check_cross_deadlock(&[board.to_flat(1, 2), board.to_flat(2, 2)], &board));
}
