use vstd::prelude::*;
use crate::board::{Board, dir_of, is_unit_dir};
use crate::layers::{
    canon, key_of, layered_search, lemma_canon_of_sorted, lemma_reach_by_run, lemma_run_in_reach, reach,
    search_outcome, wins_by,
};
use crate::puzzle::{run, unit_moves, wins_in};
use crate::layers::{loss_free, wins_within};
use crate::rules::aligned;
use crate::movement::markers_valid;
use crate::puzzle::{concat_flats, flat_seq, flats_of, puzzle_valid, rc_seq, sort_flats};
use crate::rules::on_board;

verus! {

/// The four directions, in the order up, down, left, right.
pub fn direction(k: usize) -> (d: (isize, isize))
    requires
        k < 4,
    ensures
        is_unit_dir(d.0, d.1),
        d == dir_of(k as int),
{
    if k == 0 {
        (-1, 0)
    } else if k == 1 {
        (1, 0)
    } else if k == 2 {
        (0, -1)
    } else {
        (0, 1)
    }
}

/// Flat indices on the board read back as themselves.
pub proof fn lemma_rc_round_trip(b: &Board, s: Seq<usize>)
    requires
        b.wf(),
        on_board(b, s),
    ensures
        flat_seq(b, rc_seq(b, s)) == s,
{
    assert forall|i: int| 0 <= i < s.len() implies #[trigger] flat_seq(b, rc_seq(b, s))[i] == s[i] by {
        b.lemma_pos_of(s[i] as int);
    }
    assert(flat_seq(b, rc_seq(b, s)) =~= s);
}

/// Hash key of a position with its playing circle: the player index, the circles, and
/// the crosses in ascending order, as flat indices.
pub(crate) fn state_key(board: &Board, circles: &[(usize, usize)], crosses: &[(usize, usize)], player_idx: usize) -> (key: Vec<usize>)
    requires
        board.wf(),
        markers_valid(board, circles@, crosses@),
    ensures
        key@ == seq![player_idx] + key_of(board, circles@, crosses@),
{
    let mut head: Vec<usize> = Vec::new();
    head.push(player_idx);
    let cf = flats_of(board, circles);
    let mut xf = flats_of(board, crosses);
    let ghost x0 = xf@;
    sort_flats(&mut xf);
    proof {
        lemma_canon_of_sorted(x0, xf@);
    }
    let front = concat_flats(&head, &cf);
    let key = concat_flats(&front, &xf);
    proof {
        assert(head@ =~= seq![player_idx]);
        assert(key@ =~= seq![player_idx] + key_of(board, circles@, crosses@));
    }
    key
}

/// A win within `n` steps has a least number of steps.
proof fn lemma_least_win(b: &Board, ni: int, p: int, avoid_loss: bool, st: Seq<usize>, n: nat)
    requires
        wins_by(b, ni, p, avoid_loss, st, n),
    ensures
        exists|d: nat| d <= n && wins_by(b, ni, p, avoid_loss, st, d) && forall|e: nat| e < d ==> !#[trigger] wins_by(b, ni, p, avoid_loss, st, e),
    decreases n,
{
    if n > 0 && wins_by(b, ni, p, avoid_loss, st, (n - 1) as nat) {
        lemma_least_win(b, ni, p, avoid_loss, st, (n - 1) as nat);
    } else if n > 0 {
        assert forall|e: nat| e < n implies !#[trigger] wins_by(b, ni, p, avoid_loss, st, e) by {
            if wins_by(b, ni, p, avoid_loss, st, e) {
                crate::layers::lemma_reach_grows(b, ni, p, avoid_loss, st, e, (n - 1) as nat);
                let t = choose|t: Seq<usize>| #[trigger] reach(b, ni, p, avoid_loss, st, e).contains(t) && aligned(b, t.take(ni));
                assert(reach(b, ni, p, avoid_loss, st, (n - 1) as nat).contains(t));
            }
        }
    }
}

/// The solver's outcome in terms of move sequences.
proof fn lemma_outcome_moves(
    b: &Board,
    circles: Seq<usize>,
    crosses: Seq<usize>,
    p: usize,
    avoid_loss: bool,
    max_nodes: usize,
    max_depth: usize,
    found: Option<usize>,
)
    requires
        b.wf(),
        puzzle_valid(b, circles, crosses),
        p < circles.len(),
        search_outcome(b, circles.len() as int, p as int, avoid_loss, circles + canon(crosses), max_nodes, max_depth, found),
    ensures
        match found {
            Some(d) => wins_within(b, circles, crosses, p as int, avoid_loss, d as nat) && forall|n: nat| n < d ==> !#[trigger] wins_within(b, circles, crosses, p as int, avoid_loss, n),
            None => (forall|n: nat| n <= max_depth ==> !#[trigger] wins_within(b, circles, crosses, p as int, avoid_loss, n)) || exists|e: nat|
                e < max_depth && #[trigger] reach(b, circles.len() as int, p as int, avoid_loss, circles + canon(crosses), e).len() > max_nodes,
        },
{
    let ni = circles.len() as int;
    let pi = p as int;
    let c0 = rc_seq(b, circles);
    let x0 = rc_seq(b, crosses);
    lemma_rc_round_trip(b, circles);
    lemma_rc_round_trip(b, crosses);
    let st = circles + canon(crosses);
    assert(key_of(b, c0, x0) == st);
    assert(c0.len() == ni);
    // a win in `n` moves is a win within `n` steps
    assert forall|n: nat| #[trigger] wins_within(b, circles, crosses, pi, avoid_loss, n) implies wins_by(b, ni, pi, avoid_loss, st, n) by {
        let moves = choose|moves: Seq<(isize, isize)>|
            moves.len() == n && unit_moves(moves) && (avoid_loss ==> loss_free(b, c0, x0, pi, moves)) && aligned(
                b,
                flat_seq(b, #[trigger] run(b, c0, x0, pi, moves).0),
            );
        lemma_run_in_reach(b, c0, x0, pi, avoid_loss, moves);
        crate::layers::lemma_run_valid(b, c0, x0, pi, moves);
        let r = run(b, c0, x0, pi, moves);
        assert(key_of(b, r.0, r.1).take(ni) =~= flat_seq(b, r.0));
    }
    match found {
        Some(d) => {
            let t = choose|t: Seq<usize>| #[trigger] reach(b, ni, pi, avoid_loss, st, d as nat).contains(t) && aligned(b, t.take(ni));
            lemma_reach_by_run(b, c0, x0, pi, avoid_loss, d as nat, t);
            let moves = choose|moves: Seq<(isize, isize)>|
                moves.len() <= d && unit_moves(moves) && (avoid_loss ==> loss_free(b, c0, x0, pi, moves)) && t == key_of(b, #[trigger] run(b, c0, x0, pi, moves).0, run(b, c0, x0, pi, moves).1);
            lemma_run_in_reach(b, c0, x0, pi, avoid_loss, moves);
            crate::layers::lemma_run_valid(b, c0, x0, pi, moves);
            let r = run(b, c0, x0, pi, moves);
            assert(key_of(b, r.0, r.1).take(ni) =~= flat_seq(b, r.0));
            if moves.len() < d {
                assert(wins_by(b, ni, pi, avoid_loss, st, moves.len()));
            }
            assert(wins_within(b, circles, crosses, pi, avoid_loss, d as nat));
        },
        None => {
            if exists|n: nat| n <= max_depth && #[trigger] wins_within(b, circles, crosses, pi, avoid_loss, n) {
                let n = choose|n: nat| n <= max_depth && #[trigger] wins_within(b, circles, crosses, pi, avoid_loss, n);
                lemma_least_win(b, ni, pi, avoid_loss, st, n);
                let d = choose|d: nat| d <= n && wins_by(b, ni, pi, avoid_loss, st, d) && forall|e: nat| e < d ==> !#[trigger] wins_by(b, ni, pi, avoid_loss, st, e);
                let e = choose|e: nat| e < d && #[trigger] reach(b, ni, pi, avoid_loss, st, e).len() > max_nodes;
                assert(e < max_depth);
            }
        },
    }
}

/// Lightweight solver: layered breadth-first search over forward moves of circle
/// `player_idx` for the fewest moves to a win. A layer is expanded only while the keys met
/// so far number at most `max_nodes`, and no deeper than `max_depth`. The result is
/// `Some(d)` exactly when `d` is the fewest steps to a win, `d <= max_depth`, and every
/// earlier layer kept within the budget.
pub fn solve_min_moves(
    board: &Board,
    init_circles: &[usize],
    init_crosses: &[usize],
    player_idx: usize,
    max_nodes: usize,
    max_depth: usize,
) -> (found: Option<usize>)
    requires
        board.wf(),
        puzzle_valid(board, init_circles@, init_crosses@),
        player_idx < init_circles@.len(),
    ensures
        search_outcome(
            board,
            init_circles@.len() as int,
            player_idx as int,
            false,
            init_circles@ + canon(init_crosses@),
            max_nodes,
            max_depth,
            found,
        ),
        match found {
            Some(d) => wins_in(board, init_circles@, init_crosses@, player_idx as int, d as nat) && forall|n: nat|
                n < d ==> !#[trigger] wins_in(board, init_circles@, init_crosses@, player_idx as int, n),
            None => (forall|n: nat| n <= max_depth ==> !#[trigger] wins_in(board, init_circles@, init_crosses@, player_idx as int, n))
                || exists|e: nat|
                e < max_depth && #[trigger] reach(
                    board,
                    init_circles@.len() as int,
                    player_idx as int,
                    false,
                    init_circles@ + canon(init_crosses@),
                    e,
                ).len() > max_nodes,
        },
{
    let found = layered_search(board, init_circles, init_crosses, player_idx, max_nodes, max_depth, false);
    proof {
        lemma_outcome_moves(board, init_circles@, init_crosses@, player_idx, false, max_nodes, max_depth, found);
        let c0 = rc_seq(board, init_circles@);
        let x0 = rc_seq(board, init_crosses@);
        assert forall|n: nat| #[trigger] wins_in(board, init_circles@, init_crosses@, player_idx as int, n)
            == wins_within(board, init_circles@, init_crosses@, player_idx as int, false, n) by {
            if wins_in(board, init_circles@, init_crosses@, player_idx as int, n) {
                let moves = choose|moves: Seq<(isize, isize)>|
                    moves.len() == n && unit_moves(moves) && aligned(board, flat_seq(board, #[trigger] run(board, c0, x0, player_idx as int, moves).0));
                assert(moves.len() == n && unit_moves(moves) && aligned(board, flat_seq(board, run(board, c0, x0, player_idx as int, moves).0)));
            }
            if wins_within(board, init_circles@, init_crosses@, player_idx as int, false, n) {
                let moves = choose|moves: Seq<(isize, isize)>|
                    moves.len() == n && unit_moves(moves) && (false ==> loss_free(board, c0, x0, player_idx as int, moves)) && aligned(
                        board,
                        flat_seq(board, #[trigger] run(board, c0, x0, player_idx as int, moves).0),
                    );
                assert(moves.len() == n && unit_moves(moves) && aligned(board, flat_seq(board, run(board, c0, x0, player_idx as int, moves).0)));
            }
        }
    }
    found
}

/// Largest number of keys `reachable_win` lets a layer start from.
pub const REACH_NODE_BUDGET: usize = 200000;

/// Whether a win can be reached by forward moves that never align three crosses: a
/// layered search with no depth limit that stops expanding once more than
/// `REACH_NODE_BUDGET` keys were met.
pub fn reachable_win(circles_flat: &[usize], player_idx: usize, crosses_flat: &[usize], board: &Board) -> (r: bool)
    requires
        board.wf(),
        puzzle_valid(board, circles_flat@, crosses_flat@),
        player_idx < circles_flat@.len(),
    ensures
        r ==> exists|n: nat| #[trigger] wins_within(board, circles_flat@, crosses_flat@, player_idx as int, true, n),
        !r ==> (forall|n: nat| n <= usize::MAX ==> !#[trigger] wins_within(board, circles_flat@, crosses_flat@, player_idx as int, true, n))
            || exists|e: nat|
            e < usize::MAX && #[trigger] reach(
                board,
                circles_flat@.len() as int,
                player_idx as int,
                true,
                circles_flat@ + canon(crosses_flat@),
                e,
            ).len() > REACH_NODE_BUDGET,
        exists|found: Option<usize>|
            #[trigger] search_outcome(
                board,
                circles_flat@.len() as int,
                player_idx as int,
                true,
                circles_flat@ + canon(crosses_flat@),
                REACH_NODE_BUDGET,
                usize::MAX,
                found,
            ) && r == found is Some,
{
    let found = layered_search(board, circles_flat, crosses_flat, player_idx, REACH_NODE_BUDGET, usize::MAX, true);
    proof {
        lemma_outcome_moves(board, circles_flat@, crosses_flat@, player_idx, true, REACH_NODE_BUDGET, usize::MAX, found);
    }
    found.is_some()
}

} // verus!
