use std::collections::{HashSet, VecDeque};

use tic_tac_go::board::Board;
use tic_tac_go::generator::{
    candidate_from_draws, fallback_puzzle, generate_puzzle, generate_puzzle_constructive, placement_params,
    solver_params, Difficulty,
};
use tic_tac_go::movement::attempt_move_runtime;
use tic_tac_go::puzzle::is_valid_puzzle;
use tic_tac_go::rules::{check_cross_deadlock, check_lose_flat, is_win_flat};
use tic_tac_go::search::{reachable_win, solve_min_moves};

fn full_board(rows: usize, cols: usize) -> Board {
    Board::new(vec![cols; rows], vec![true; rows * cols]).expect("a full rectangle is a board")
}

fn present_connected(board: &Board) -> bool {
    let present: Vec<usize> = (0..board.total_cells).filter(|&f| board.cells[f]).collect();
    if present.is_empty() {
        return false;
    }
    let mut seen = HashSet::new();
    let mut queue = VecDeque::new();
    seen.insert(present[0]);
    queue.push_back(present[0]);
    while let Some(f) = queue.pop_front() {
        let (r, c) = board.from_flat(f);
        let mut next = Vec::new();
        if r > 0 && c < board.row_widths[r - 1] {
            next.push((r - 1, c));
        }
        if r + 1 < board.rows && c < board.row_widths[r + 1] {
            next.push((r + 1, c));
        }
        if c > 0 {
            next.push((r, c - 1));
        }
        if c + 1 < board.row_widths[r] {
            next.push((r, c + 1));
        }
        for (nr, nc) in next {
            let g = board.to_flat(nr, nc);
            if board.cells[g] && seen.insert(g) {
                queue.push_back(g);
            }
        }
    }
    seen.len() == present.len()
}

fn check_playable(board: &Board, circles: &[usize], crosses: &[usize], player: usize) {
    assert_eq!(circles.len(), 3);
    assert!(player < 3);
    assert!(is_valid_puzzle(board, circles, crosses));
    assert!(crosses.windows(2).all(|w| w[0] <= w[1]));
    assert!(!is_win_flat(circles, board));
    assert!(!check_lose_flat(crosses, board));
    assert!(!check_cross_deadlock(crosses, board));
    let cir: Vec<(usize, usize)> = circles.iter().map(|&f| board.from_flat(f)).collect();
    let crs: Vec<(usize, usize)> = crosses.iter().map(|&f| board.from_flat(f)).collect();
    let mut safe = false;
    for (dr, dc) in [(-1isize, 0isize), (1, 0), (0, -1), (0, 1)] {
        let mut c2 = cir.clone();
        let mut x2 = crs.clone();
        attempt_move_runtime(&mut c2, &mut x2, player, dr, dc, board);
        if c2 == cir && x2 == crs {
            continue;
        }
        let xf: Vec<usize> = x2.iter().map(|&(r, c)| board.to_flat(r, c)).collect();
        if !check_lose_flat(&xf, board) && !check_cross_deadlock(&xf, board) {
            safe = true;
        }
    }
    assert!(safe);
}

#[test]
fn random_boards_are_connected() {
    for _ in 0..200 {
        let board = Board::random();
        assert!((3..=8).contains(&board.rows));
        assert!(board.total_cells >= 20);
        assert_eq!(board.row_widths.len(), board.rows);
        assert!(board.row_widths.iter().all(|&w| w == board.cols));
        assert_eq!(board.cells.len(), board.total_cells);
        assert!(board.cells.iter().any(|&p| p));
        assert!(present_connected(&board));
        assert_eq!(board.default_grid_w as usize, 4 * board.cols + 1);
        assert_eq!(board.default_grid_h as usize, 2 * board.rows + 1);
    }
}

#[test]
fn random_boards_vary_in_shape() {
    let mut shapes = HashSet::new();
    for _ in 0..200 {
        let board = Board::random();
        shapes.insert((board.rows, board.cols));
    }
    assert!(shapes.len() > 1);
}

#[test]
fn flat_and_row_column_round_trip() {
    let board = Board::new(vec![3, 2, 4], vec![true; 9]).expect("a board");
    assert_eq!(board.row_offsets, vec![0, 3, 5]);
    assert_eq!(board.cols, 4);
    for f in 0..9 {
        let (r, c) = board.from_flat(f);
        assert_eq!(board.to_flat(r, c), f);
    }
    assert_eq!(board.from_flat(4), (1, 1));
    assert_eq!(board.from_flat(5), (2, 0));
    assert!(board.is_cell_present(2, 3));
}

#[test]
fn board_shapes_that_are_refused() {
    assert!(Board::new(vec![], vec![]).is_none());
    assert!(Board::new(vec![3, 0, 3], vec![true; 6]).is_none());
    assert!(Board::new(vec![3, 3], vec![true; 5]).is_none());
    assert!(Board::new(vec![3], vec![false; 3]).is_none());
    // the middle column is a wall of holes: two separate pieces
    let cells = vec![true, false, true, true, false, true];
    assert!(Board::new(vec![3, 3], cells).is_none());
}

#[test]
fn board_with_holes_is_accepted_when_connected() {
    let cells = vec![true, false, true, true, true, true];
    let board = Board::new(vec![3, 3], cells).expect("connected through the second row");
    assert!(!board.is_cell_present(0, 1));
    assert!(board.is_cell_present(1, 1));
}

#[test]
fn solver_finds_won_start_at_depth_zero() {
    let board = full_board(3, 3);
    let circles = vec![3, 4, 5];
    assert_eq!(solve_min_moves(&board, &circles, &[], 1, 100, 10), Some(0));
}

#[test]
fn solver_counts_moves_to_win() {
    let board = full_board(3, 4);
    // circles at (1,0), (1,1) and (0,3): the third needs two moves down then one left
    let circles = vec![board.to_flat(1, 0), board.to_flat(1, 1), board.to_flat(0, 2)];
    assert_eq!(solve_min_moves(&board, &circles, &[], 2, 10000, 10), Some(1));
    let far = vec![board.to_flat(1, 0), board.to_flat(1, 1), board.to_flat(0, 3)];
    assert_eq!(solve_min_moves(&board, &far, &[], 2, 10000, 10), Some(2));
    assert_eq!(solve_min_moves(&board, &far, &[], 2, 10000, 1), None);
}

#[test]
fn solver_stops_at_node_budget() {
    let board = full_board(5, 5);
    let circles = vec![board.to_flat(0, 0), board.to_flat(4, 4), board.to_flat(0, 4)];
    assert_eq!(solve_min_moves(&board, &circles, &[], 0, 1, 100), None);
}

#[test]
fn reachable_win_on_easy_position() {
    let board = full_board(3, 4);
    let circles = vec![board.to_flat(1, 0), board.to_flat(1, 1), board.to_flat(0, 3)];
    assert!(reachable_win(&circles, 2, &[board.to_flat(2, 3)], &board));
}

#[test]
fn reachable_win_reports_trapped_player() {
    // a 1x4 strip: player circle in the middle, the others at both ends, no line possible
    let board = Board::new(vec![4], vec![true; 4]).expect("a strip");
    let circles = vec![0, 1, 3];
    assert!(!reachable_win(&circles, 1, &[], &board));
}

#[test]
fn constructive_puzzles_are_playable() {
    for (rows, cols) in [(4usize, 6usize), (5, 5), (6, 7)] {
        let board = full_board(rows, cols);
        let (circles, crosses, player) = generate_puzzle_constructive(&board, Difficulty::Easy);
        if circles.is_empty() {
            assert!(crosses.is_empty());
            assert_eq!(player, 0);
        } else {
            check_playable(&board, &circles, &crosses, player);
            assert_eq!(player, 1);
            assert!(crosses.len() >= 3);
            assert!(reachable_win(&circles, player, &crosses, &board));
            match solve_min_moves(&board, &circles, &crosses, player, 10000, 400) {
                Some(d) => assert!(d >= 6),
                None => panic!("an easy puzzle is solved within the budget"),
            }
        }
    }
}

#[test]
fn constructive_generation_is_deterministic() {
    let board = full_board(5, 6);
    let a = generate_puzzle_constructive(&board, Difficulty::Easy);
    let b = generate_puzzle_constructive(&board, Difficulty::Easy);
    assert_eq!(a, b);
}

#[test]
fn random_puzzles_are_playable() {
    let board = Board::random();
    let (circles, crosses, player) = generate_puzzle(&board, Difficulty::Easy);
    if circles.is_empty() {
        assert!(crosses.is_empty());
        assert_eq!(player, 0);
    } else {
        check_playable(&board, &circles, &crosses, player);
        assert!((3..=6).contains(&crosses.len()));
        assert!(reachable_win(&circles, player, &crosses, &board));
    }
}

#[test]
fn board_without_triples_gives_empty_result() {
    let board = Board::new(vec![2, 2], vec![true; 4]).expect("a 2x2 board");
    assert_eq!(generate_puzzle(&board, Difficulty::Easy), (vec![], vec![], 0));
    assert_eq!(generate_puzzle_constructive(&board, Difficulty::Hard), (vec![], vec![], 0));
}

#[test]
fn fallback_layout_on_middle_row() {
    let board = full_board(5, 7);
    let (circles, crosses, player) = fallback_puzzle(&board);
    assert_eq!(circles, vec![board.to_flat(2, 0), board.to_flat(2, 1), board.to_flat(2, 2)]);
    assert_eq!(crosses, vec![0, 1, 2, 3, 4]);
    assert_eq!(player, 1);
    assert!(is_valid_puzzle(&board, &circles, &crosses));
    assert!(is_win_flat(&circles, &board));
}

#[test]
fn validity_check_rejects_shared_cells_and_holes() {
    let mut cells = vec![true; 9];
    cells[8] = false;
    let board = Board::new(vec![3, 3, 3], cells).expect("a board");
    assert!(is_valid_puzzle(&board, &[0, 1, 2], &[4]));
    assert!(!is_valid_puzzle(&board, &[0, 1, 2], &[2]));
    assert!(!is_valid_puzzle(&board, &[0, 0, 2], &[]));
    assert!(!is_valid_puzzle(&board, &[0, 1, 8], &[]));
    assert!(!is_valid_puzzle(&board, &[0, 1, 9], &[]));
}

#[test]
fn fallback_skips_holes_and_needs_a_run() {
    let mut cells = vec![true; 15];
    cells[5] = false;
    let board = Board::new(vec![5, 5, 5], cells).expect("a board");
    let (circles, crosses, player) = fallback_puzzle(&board);
    assert_eq!(circles, vec![6, 7, 8]);
    assert_eq!(crosses, vec![0, 1, 2, 3, 4]);
    assert_eq!(player, 1);
    let narrow = Board::new(vec![4, 2, 4], vec![true; 10]).expect("a board");
    assert_eq!(fallback_puzzle(&narrow), (vec![], vec![], 0));
}

#[test]
fn difficulty_tables() {
    assert_eq!(placement_params(Difficulty::Easy), (3, 6, 20, 60));
    assert_eq!(placement_params(Difficulty::Medium), (5, 10, 40, 200));
    assert_eq!(placement_params(Difficulty::Hard), (8, 14, 100, 400));
    assert_eq!(solver_params(Difficulty::Easy), (10000, 6));
    assert_eq!(solver_params(Difficulty::Medium), (50000, 20));
    assert_eq!(solver_params(Difficulty::Hard), (200000, 60));
}

#[test]
fn draws_with_crosses_on_circles_are_refused() {
    let board = full_board(4, 6);
    let dirs = vec![0usize; 200];
    assert!(candidate_from_draws(&board, (1, 0, false), 1, &vec![6, 20, 23], 20, &dirs, Difficulty::Easy).is_none());
    assert!(candidate_from_draws(&board, (1, 0, false), 1, &vec![0, 0, 23], 20, &dirs, Difficulty::Easy).is_none());
    // three crosses in a line lose at once
    assert!(candidate_from_draws(&board, (1, 0, false), 1, &vec![18, 19, 20], 20, &dirs, Difficulty::Easy).is_none());
}

#[test]
fn draws_candidate_is_playable_when_accepted() {
    let board = full_board(5, 6);
    let dirs: Vec<usize> = (0..600).map(|i| (i * 7 + i / 3) % 4).collect();
    if let Some((circles, crosses)) =
        candidate_from_draws(&board, (2, 1, false), 1, &vec![2, 9, 27], 60, &dirs, Difficulty::Medium)
    {
        check_playable(&board, &circles, &crosses, 1);
        assert_eq!(crosses.len(), 3);
    }
}

#[test]
fn solver_reports_won_start_even_without_budget() {
    let board = full_board(3, 3);
    assert_eq!(solve_min_moves(&board, &[3, 4, 5], &[], 1, 0, 0), Some(0));
    // an unwon start needs at least one layer of budget and depth
    let circles = vec![board.to_flat(1, 0), board.to_flat(1, 1), board.to_flat(0, 2)];
    assert_eq!(solve_min_moves(&board, &circles, &[], 2, 0, 5), None);
    assert_eq!(solve_min_moves(&board, &circles, &[], 2, 1, 0), None);
    assert_eq!(solve_min_moves(&board, &circles, &[], 2, 1, 5), Some(1));
}
