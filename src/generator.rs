use vstd::prelude::*;
use crate::board::{Board, dir_of};
use crate::movement::{
    reverse,
    attempt_move_reverse, attempt_move_runtime, forward, lemma_forward_keeps_markers_valid,
    lemma_reverse_keeps_markers_valid, markers_valid,
};
use crate::puzzle::{
    is_valid_puzzle,
    can_win, copy_positions, flat_seq, flats_of, lemma_can_win_reordered, lemma_flats_of_valid,
    lemma_puzzle_valid_intro, lemma_rc_same_members, lemma_reverse_keeps_can_win, lemma_valid_reordered,
    positions_of, puzzle_valid, rc_seq, run, same_positions, solvable, sort_flats, sorted, unit_moves,
};
use crate::random::{random_in, shuffle_flats};
use crate::rules::{aligned, cell, check_cross_deadlock, check_lose_flat, deadlocked, is_win_flat, on_board};
use crate::search::{direction, solve_min_moves, state_key};
use crate::keyset::KeySet;
use crate::layers::{key_of, canon, lemma_canon_of_sorted, lemma_canon_sorted, lemma_search_outcome_unique, search_outcome};

verus! {

#[derive(Clone, Copy, Debug, PartialEq, Eq, Structural)]
pub enum Difficulty {
    Easy,
    Medium,
    Hard,
}

/// Moving circle `p` one step in direction `d` changes the markers and leaves the crosses
/// neither aligned nor deadlocked.
pub open spec fn safe_move(b: &Board, circles: Seq<usize>, crosses: Seq<usize>, p: int, d: (isize, isize)) -> bool {
    let before = (rc_seq(b, circles), rc_seq(b, crosses));
    let after = forward(b, before.0, before.1, p, d.0 as int, d.1 as int);
    &&& after != before
    &&& !aligned(b, flat_seq(b, after.1))
    &&& !deadlocked(b, flat_seq(b, after.1))
}

/// One of the four directions is a safe move.
pub open spec fn has_safe_move(b: &Board, circles: Seq<usize>, crosses: Seq<usize>, p: int) -> bool {
    exists|k: int| 0 <= k < 4 && #[trigger] safe_move(b, circles, crosses, p, dir_of(k))
}

/// A puzzle fit to hand to a player: three valid circles, sorted valid crosses, not won,
/// not lost, not deadlocked, with a safe first move, and winnable.
pub open spec fn playable_puzzle(b: &Board, circles: Seq<usize>, crosses: Seq<usize>, p: usize) -> bool {
    &&& circles.len() == 3
    &&& p < 3
    &&& puzzle_valid(b, circles, crosses)
    &&& sorted(crosses)
    &&& !aligned(b, circles)
    &&& !aligned(b, crosses)
    &&& !deadlocked(b, crosses)
    &&& has_safe_move(b, circles, crosses, p as int)
    &&& solvable(b, circles, crosses, p as int)
}

/// Result of a generator: a playable puzzle, or empty lists and player 0 for failure.
pub open spec fn generated(b: &Board, out: (Vec<usize>, Vec<usize>, usize)) -> bool {
    ||| (out.0@.len() == 0 && out.1@.len() == 0 && out.2 == 0)
    ||| playable_puzzle(b, out.0@, out.1@, out.2)
}

/// Cell `i` (0, 1 or 2) of the triple whose first cell is (t.0, t.1), running down a
/// column when t.2 holds and along a row otherwise.
pub open spec fn triple_cell(t: (usize, usize, bool), i: int) -> (usize, usize) {
    if t.2 {
        ((t.0 + i) as usize, t.1)
    } else {
        (t.0, (t.1 + i) as usize)
    }
}

/// All three cells of the triple are playable.
pub open spec fn triple_ok(b: &Board, t: (usize, usize, bool)) -> bool {
    &&& b.present_pos(triple_cell(t, 0))
    &&& b.present_pos(triple_cell(t, 1))
    &&& b.present_pos(triple_cell(t, 2))
}

/// Circles on a triple of playable cells have won already.
proof fn lemma_triple_can_win(b: &Board, t: (usize, usize, bool), crosses: Seq<(usize, usize)>, p: int)
    requires
        b.wf(),
        triple_ok(b, t),
    ensures
        can_win(b, seq![triple_cell(t, 0), triple_cell(t, 1), triple_cell(t, 2)], crosses, p),
{
    let cs = seq![triple_cell(t, 0), triple_cell(t, 1), triple_cell(t, 2)];
    let moves = Seq::<(isize, isize)>::empty();
    assert(run(b, cs, crosses, p, moves) == (cs, crosses));
    let fs = flat_seq(b, cs);
    let r = t.0 as int;
    let c = t.1 as int;
    assert(fs.contains(fs[0]) && fs.contains(fs[1]) && fs.contains(fs[2]));
    if t.2 {
        assert(fs[0] == crate::rules::cell(b, r, c));
        assert(fs[1] == crate::rules::cell(b, r + 1, c));
        assert(fs[2] == crate::rules::cell(b, r + 2, c));
    } else {
        assert(fs[0] == crate::rules::cell(b, r, c));
        assert(fs[1] == crate::rules::cell(b, r, c + 1));
        assert(fs[2] == crate::rules::cell(b, r, c + 2));
    }
    assert(crate::rules::line_at(b, fs, r, c));
    assert(crate::rules::aligned(b, fs));
    assert(unit_moves(moves));
    assert(run(b, cs, crosses, p, moves).0 == cs);
    assert(unit_moves(moves) && crate::rules::aligned(b, flat_seq(b, run(b, cs, crosses, p, moves).0)));
    assert(can_win(b, cs, crosses, p));
}

/// (min crosses, max crosses, min scramble steps, max scramble steps) of a difficulty.
pub open spec fn placement_table(difficulty: Difficulty) -> (usize, usize, usize, usize) {
    match difficulty {
        Difficulty::Easy => (3, 6, 20, 60),
        Difficulty::Medium => (5, 10, 40, 200),
        Difficulty::Hard => (8, 14, 100, 400),
    }
}

/// (solver node budget, fewest moves required) of a difficulty.
pub open spec fn solver_table(difficulty: Difficulty) -> (usize, usize) {
    match difficulty {
        Difficulty::Easy => (10000, 6),
        Difficulty::Medium => (50000, 20),
        Difficulty::Hard => (200000, 60),
    }
}

/// (min crosses, max crosses, min scramble steps, max scramble steps) of a difficulty.
pub fn placement_params(difficulty: Difficulty) -> (r: (usize, usize, usize, usize))
    ensures
        r == placement_table(difficulty),
        1 <= r.0 <= r.1 <= 14,
        1 <= r.2 <= r.3 <= 400,
{
    match difficulty {
        Difficulty::Easy => (3, 6, 20, 60),
        Difficulty::Medium => (5, 10, 40, 200),
        Difficulty::Hard => (8, 14, 100, 400),
    }
}

/// (solver node budget, fewest moves required) of a difficulty.
pub fn solver_params(difficulty: Difficulty) -> (r: (usize, usize))
    ensures
        r == solver_table(difficulty),
{
    match difficulty {
        Difficulty::Easy => (10000, 6),
        Difficulty::Medium => (50000, 20),
        Difficulty::Hard => (200000, 60),
    }
}

/// Depth budget of the solver's difficulty check.
pub open spec fn solver_depth() -> usize {
    400
}

/// The solver's verdict passes a difficulty: at least the tier's fewest moves when it
/// found a win; an unfinished search passes for Medium and Hard only.
pub open spec fn passes_gate(difficulty: Difficulty, found: Option<usize>) -> bool {
    match found {
        Some(d) => d >= solver_table(difficulty).1,
        None => difficulty != Difficulty::Easy,
    }
}

/// The solver, with the tier's node budget, gives a verdict that passes the tier.
pub open spec fn meets_difficulty(b: &Board, circles: Seq<usize>, crosses: Seq<usize>, p: usize, difficulty: Difficulty) -> bool {
    exists|found: Option<usize>|
        #[trigger] search_outcome(
            b,
            circles.len() as int,
            p as int,
            false,
            circles + canon(crosses),
            solver_table(difficulty).0,
            solver_depth(),
            found,
        ) && passes_gate(difficulty, found)
}

/// The final checks of a candidate given as flat circles and sorted flat crosses.
pub open spec fn final_checks(b: &Board, circles: Seq<usize>, crosses: Seq<usize>, p: usize, difficulty: Difficulty) -> bool {
    &&& meets_difficulty(b, circles, crosses, p, difficulty)
    &&& !aligned(b, circles)
    &&& !aligned(b, crosses)
    &&& !deadlocked(b, crosses)
    &&& has_safe_move(b, circles, crosses, p as int)
}

/// Depth budget of the solver's difficulty check.
const SOLVER_DEPTH: usize = 400;

proof fn lemma_solver_depth()
    ensures
        SOLVER_DEPTH == solver_depth(),
{
}

/// The triples starting at (r, c): the row one, then the column one, where playable.
pub open spec fn cell_triples(b: &Board, r: int, c: int) -> Seq<(usize, usize, bool)> {
    let t1 = (r as usize, c as usize, false);
    let t2 = (r as usize, c as usize, true);
    (if triple_ok(b, t1) { seq![t1] } else { Seq::empty() }) + (if triple_ok(b, t2) { seq![t2] } else { Seq::empty() })
}

/// The triples starting in row `r` before column `c`.
pub open spec fn row_triples(b: &Board, r: int, c: int) -> Seq<(usize, usize, bool)>
    decreases c,
{
    if c <= 0 {
        Seq::empty()
    } else {
        row_triples(b, r, c - 1) + cell_triples(b, r, c - 1)
    }
}

/// The triples starting in rows before `r`.
pub open spec fn triples_before(b: &Board, r: int) -> Seq<(usize, usize, bool)>
    decreases r,
{
    if r <= 0 {
        Seq::empty()
    } else {
        triples_before(b, r - 1) + row_triples(b, r - 1, b.row_widths@[r - 1] as int)
    }
}

/// Every run of three playable cells, ordered by first cell, a row run before a column run.
pub open spec fn all_triples(b: &Board) -> Seq<(usize, usize, bool)> {
    triples_before(b, b.rows as int)
}

/// Whether (r, c) and the two cells to its right are playable.
fn row_triple_at(board: &Board, r: usize, c: usize) -> (b: bool)
    requires
        board.wf(),
        board.valid_rc(r as int, c as int),
    ensures
        b == triple_ok(board, (r, c, false)),
{
    proof {
        board.lemma_row_end(r as int);
    }
    if c + 2 >= board.row_widths[r] {
        return false;
    }
    let a = board.is_cell_present(r, c);
    let b = board.is_cell_present(r, c + 1);
    let d = board.is_cell_present(r, c + 2);
    assert(triple_cell((r, c, false), 1) == (r, (c + 1) as usize));
    assert(triple_cell((r, c, false), 2) == (r, (c + 2) as usize));
    a && b && d
}

/// Whether (r, c) and the two cells below it are playable.
fn column_triple_at(board: &Board, r: usize, c: usize) -> (b: bool)
    requires
        board.wf(),
        board.valid_rc(r as int, c as int),
    ensures
        b == triple_ok(board, (r, c, true)),
{
    if board.rows < 3 || r >= board.rows - 2 || c >= board.row_widths[r + 1] || c >= board.row_widths[r + 2] {
        return false;
    }
    let a = board.is_cell_present(r, c);
    let b = board.is_cell_present(r + 1, c);
    let d = board.is_cell_present(r + 2, c);
    assert(triple_cell((r, c, true), 1) == ((r + 1) as usize, c));
    assert(triple_cell((r, c, true), 2) == ((r + 2) as usize, c));
    a && b && d
}

/// All runs of three playable cells, ordered by first cell, a row run before a column run.
fn winning_triples(board: &Board) -> (ts: Vec<(usize, usize, bool)>)
    requires
        board.wf(),
    ensures
        ts@ == all_triples(board),
        forall|i: int| 0 <= i < ts@.len() ==> triple_ok(board, #[trigger] ts@[i]),
{
    let mut ts: Vec<(usize, usize, bool)> = Vec::new();
    let mut r: usize = 0;
    while r < board.rows
        invariant
            board.wf(),
            r <= board.rows,
            forall|i: int| 0 <= i < ts@.len() ==> triple_ok(board, #[trigger] ts@[i]),
            ts@ == triples_before(board, r as int),
        decreases board.rows - r,
    {
        let mut c: usize = 0;
        while c < board.row_widths[r]
            invariant
                board.wf(),
                r < board.rows,
                c <= board.row_widths@[r as int],
                forall|i: int| 0 <= i < ts@.len() ==> triple_ok(board, #[trigger] ts@[i]),
                ts@ == triples_before(board, r as int) + row_triples(board, r as int, c as int),
            decreases board.row_widths@[r as int] - c,
        {
            let ghost before = ts@;
            if row_triple_at(board, r, c) {
                ts.push((r, c, false));
                assert(triple_ok(board, ts@[ts@.len() - 1]));
            }
            if column_triple_at(board, r, c) {
                ts.push((r, c, true));
                assert(triple_ok(board, ts@[ts@.len() - 1]));
            }
            proof {
                assert(ts@ =~= before + cell_triples(board, r as int, c as int));
                assert(row_triples(board, r as int, c + 1) == row_triples(board, r as int, c as int) + cell_triples(board, r as int, c as int));
                assert(ts@ =~= triples_before(board, r as int) + row_triples(board, r as int, c + 1));
            }
            c += 1;
        }
        proof {
            assert(ts@ =~= triples_before(board, r + 1));
        }
        r += 1;
    }
    ts
}

/// The cells of a triple of playable cells.
fn cells_of_triple(board: &Board, t: (usize, usize, bool)) -> (cs: Vec<(usize, usize)>)
    requires
        board.wf(),
        triple_ok(board, t),
    ensures
        cs@ == seq![triple_cell(t, 0), triple_cell(t, 1), triple_cell(t, 2)],
        markers_valid(board, cs@, Seq::empty()),
        cs@.len() == 3,
{
    let mut cs: Vec<(usize, usize)> = Vec::new();
    if t.2 {
        cs.push((t.0, t.1));
        cs.push((t.0 + 1, t.1));
        cs.push((t.0 + 2, t.1));
    } else {
        cs.push((t.0, t.1));
        cs.push((t.0, t.1 + 1));
        cs.push((t.0, t.1 + 2));
    }
    assert(cs@ =~= seq![triple_cell(t, 0), triple_cell(t, 1), triple_cell(t, 2)]);
    cs
}

/// Whether `s` holds `x`.
fn holds(s: &[usize], x: usize) -> (b: bool)
    ensures
        b == s@.contains(x),
{
    let mut i: usize = 0;
    while i < s.len()
        invariant
            i <= s@.len(),
            forall|j: int| 0 <= j < i ==> s@[j] != x,
        decreases s@.len() - i,
    {
        if s[i] == x {
            return true;
        }
        i += 1;
    }
    false
}

/// Flat indices of playable cells that `taken` does not hold, in ascending order.
fn free_cells(board: &Board, taken: &[usize]) -> (fs: Vec<usize>)
    requires
        board.wf(),
    ensures
        fs@ == free_below(board, taken@, board.total_cells as int),
        fs@.no_duplicates(),
        forall|i: int|
            0 <= i < fs@.len() ==> #[trigger] fs@[i] < board.total_cells && board.cells@[fs@[i] as int]
                && !taken@.contains(fs@[i]),
{
    let mut fs: Vec<usize> = Vec::new();
    let mut f: usize = 0;
    while f < board.total_cells
        invariant
            board.wf(),
            f <= board.total_cells,
            forall|i: int, j: int| 0 <= i < j < fs@.len() ==> fs@[i] < fs@[j],
            forall|i: int|
                0 <= i < fs@.len() ==> #[trigger] fs@[i] < f && board.cells@[fs@[i] as int]
                    && !taken@.contains(fs@[i]),
            fs@ == free_below(board, taken@, f as int),
        decreases board.total_cells - f,
    {
        if board.cells[f] && !holds(taken, f) {
            fs.push(f);
        }
        f += 1;
    }
    assert forall|i: int, j: int| 0 <= i < fs@.len() && 0 <= j < fs@.len() && i != j implies fs@[i] != fs@[j] by {
        if i < j {
            assert(fs@[i] < fs@[j]);
        } else {
            assert(fs@[j] < fs@[i]);
        }
    }
    fs
}

/// Row plus column distance of the cell with flat index `f` from `center`.
pub open spec fn cell_dist(b: &Board, f: usize, center: (usize, usize)) -> int {
    let q = b.pos_of(f as int);
    (if q.0 >= center.0 { q.0 - center.0 } else { center.0 - q.0 }) + (if q.1 >= center.1 {
        q.1 - center.1
    } else {
        center.1 - q.1
    })
}

/// The entries of `free` at distance `d` from `center`, in order.
pub open spec fn at_dist(b: &Board, free: Seq<usize>, center: (usize, usize), d: int) -> Seq<usize> {
    free.filter(|f: usize| cell_dist(b, f, center) == d)
}

/// The entries of `free` at distances `hi`, `hi - 1`, ..., `lo` from `center`.
pub open spec fn levels(b: &Board, free: Seq<usize>, center: (usize, usize), hi: int, lo: int) -> Seq<usize>
    decreases hi - lo + 1,
{
    if hi < lo {
        Seq::empty()
    } else {
        at_dist(b, free, center, hi) + levels(b, free, center, hi - 1, lo)
    }
}

/// Largest distance from `center` among the entries of `free` (0 when empty).
pub open spec fn max_dist(b: &Board, free: Seq<usize>, center: (usize, usize)) -> int
    decreases free.len(),
{
    if free.len() == 0 {
        0
    } else {
        let m = max_dist(b, free.drop_last(), center);
        let d = cell_dist(b, free.last(), center);
        if d > m {
            d
        } else {
            m
        }
    }
}

/// `free` ordered farthest from `center` first, ties in their order in `free`.
pub open spec fn by_distance(b: &Board, free: Seq<usize>, center: (usize, usize)) -> Seq<usize> {
    levels(b, free, center, max_dist(b, free, center), 0)
}

proof fn lemma_levels_split(b: &Board, free: Seq<usize>, center: (usize, usize), hi: int, lo: int)
    requires
        lo <= hi,
    ensures
        levels(b, free, center, hi, lo) == levels(b, free, center, hi, lo + 1) + at_dist(b, free, center, lo),
    decreases hi - lo,
{
    if lo < hi {
        lemma_levels_split(b, free, center, hi - 1, lo);
        assert(levels(b, free, center, hi, lo) =~= levels(b, free, center, hi, lo + 1) + at_dist(b, free, center, lo));
    } else {
        assert(levels(b, free, center, hi - 1, lo) =~= Seq::<usize>::empty());
        assert(levels(b, free, center, hi, lo + 1) =~= Seq::<usize>::empty());
    }
}

/// Playable cells that `taken` does not hold, farthest from `center` (row plus column
/// distance) first, ties in ascending order.
fn free_cells_by_distance(board: &Board, taken: &[usize], center: (usize, usize)) -> (fs: Vec<usize>)
    requires
        board.wf(),
        center.0 <= crate::board::MAX_CELLS && center.1 <= crate::board::MAX_CELLS,
    ensures
        fs@ == by_distance(board, free_below(board, taken@, board.total_cells as int), center),
        forall|i: int|
            0 <= i < fs@.len() ==> #[trigger] fs@[i] < board.total_cells && board.cells@[fs@[i] as int]
                && !taken@.contains(fs@[i]),
{
    let free = free_cells(board, taken);
    let ghost fr = free@;
    let mut dist: Vec<usize> = Vec::new();
    let mut max_d: usize = 0;
    let mut i: usize = 0;
    while i < free.len()
        invariant
            board.wf(),
            center.0 <= crate::board::MAX_CELLS && center.1 <= crate::board::MAX_CELLS,
            i <= free@.len(),
            dist@.len() == i,
            forall|j: int| 0 <= j < free@.len() ==> #[trigger] free@[j] < board.total_cells,
            forall|j: int| 0 <= j < i ==> #[trigger] dist@[j] == cell_dist(board, free@[j], center),
            max_d == max_dist(board, free@.subrange(0, i as int), center),
            max_d <= 2 * crate::board::MAX_CELLS,
        decreases free@.len() - i,
    {
        let (r, c) = board.from_flat(free[i]);
        proof {
            board.lemma_row_end(r as int);
            board.lemma_offset_at_least_row(r as int);
            assert(free@.subrange(0, i + 1).drop_last() =~= free@.subrange(0, i as int));
        }
        let dr = if r >= center.0 { r - center.0 } else { center.0 - r };
        let dc = if c >= center.1 { c - center.1 } else { center.1 - c };
        let d = dr + dc;
        dist.push(d);
        if d > max_d {
            max_d = d;
        }
        i += 1;
    }
    proof {
        assert(free@.subrange(0, i as int) =~= free@);
    }
    let mut fs: Vec<usize> = Vec::new();
    let mut above: usize = max_d + 1;
    while above > 0
        invariant
            board.wf(),
            free@.len() == dist@.len(),
            forall|j: int| 0 <= j < free@.len() ==> #[trigger] dist@[j] == cell_dist(board, free@[j], center),
            above <= max_d + 1,
            fs@ == levels(board, free@, center, max_d as int, above as int),
        decreases above,
    {
        let level = above - 1;
        let ghost before = fs@;
        let mut j: usize = 0;
        while j < free.len()
            invariant
                free@.len() == dist@.len(),
                forall|j: int| 0 <= j < free@.len() ==> #[trigger] dist@[j] == cell_dist(board, free@[j], center),
                j <= free@.len(),
                fs@ == before + free@.subrange(0, j as int).filter(|f: usize| cell_dist(board, f, center) == level as int),
            decreases free@.len() - j,
        {
            proof {
                reveal(Seq::filter);
                assert(free@.subrange(0, j + 1).drop_last() =~= free@.subrange(0, j as int));
            }
            if dist[j] == level {
                fs.push(free[j]);
            }
            j += 1;
            proof {
                assert(fs@ =~= before + free@.subrange(0, j as int).filter(|f: usize| cell_dist(board, f, center) == level as int));
            }
        }
        proof {
            assert(free@.subrange(0, j as int) =~= free@);
            lemma_levels_split(board, free@, center, max_d as int, level as int);
        }
        above = level;
    }
    proof {
        assert forall|i: int| 0 <= i < fs@.len() implies #[trigger] fs@[i] < board.total_cells && board.cells@[fs@[i] as int]
            && !taken@.contains(fs@[i]) by {
            lemma_levels_members(board, free@, center, max_d as int, 0, fs@[i]);
        }
    }
    fs
}

proof fn lemma_levels_members(b: &Board, free: Seq<usize>, center: (usize, usize), hi: int, lo: int, x: usize)
    requires
        levels(b, free, center, hi, lo).contains(x),
    ensures
        free.contains(x),
    decreases hi - lo + 1,
{
    if hi >= lo {
        let a = at_dist(b, free, center, hi);
        if a.contains(x) {
            free.lemma_filter_contains_rev(|f: usize| cell_dist(b, f, center) == hi, x);
        } else {
            let rest = levels(b, free, center, hi - 1, lo);
            assert(levels(b, free, center, hi, lo) == a + rest);
            let k = choose|k: int| 0 <= k < (a + rest).len() && (a + rest)[k] == x;
            assert(rest[k - a.len()] == x);
            lemma_levels_members(b, free, center, hi - 1, lo, x);
        }
    }
}

/// Whether some direction is a safe move for circle `player_idx`.
fn find_safe_move(board: &Board, circles: &[usize], crosses: &[usize], player_idx: usize) -> (ok: bool)
    requires
        board.wf(),
        puzzle_valid(board, circles@, crosses@),
        player_idx < circles@.len(),
    ensures
        ok == has_safe_move(board, circles@, crosses@, player_idx as int),
{
    let cs = positions_of(board, circles);
    let xs = positions_of(board, crosses);
    let mut k: usize = 0;
    while k < 4
        invariant
            board.wf(),
            puzzle_valid(board, circles@, crosses@),
            player_idx < circles@.len(),
            cs@ == rc_seq(board, circles@),
            xs@ == rc_seq(board, crosses@),
            k <= 4,
            forall|j: int| 0 <= j < k ==> !#[trigger] safe_move(board, circles@, crosses@, player_idx as int, dir_of(j)),
        decreases 4 - k,
    {
        let (dr, dc) = direction(k);
        let mut c2 = copy_positions(&cs);
        let mut x2 = copy_positions(&xs);
        attempt_move_runtime(c2.as_mut_slice(), x2.as_mut_slice(), player_idx, dr, dc, board);
        proof {
            lemma_forward_keeps_markers_valid(board, cs@, xs@, player_idx as int, dr as int, dc as int);
        }
        if !(same_positions(&c2, &cs) && same_positions(&x2, &xs)) {
            let xf = flats_of(board, &x2);
            if !check_lose_flat(&xf, board) && !check_cross_deadlock(&xf, board) {
                assert(safe_move(board, circles@, crosses@, player_idx as int, dir_of(k as int)));
                return true;
            }
        }
        k += 1;
    }
    proof {
        assert forall|j: int| 0 <= j < 4 implies !#[trigger] safe_move(board, circles@, crosses@, player_idx as int, dir_of(j)) by {}
    }
    false
}

/// The final checks of a scrambled candidate: crosses sorted, the solver's difficulty
/// gate, no win, no loss, no deadlock, a safe first move. Returns the flat circles and
/// sorted flat crosses of a candidate that passes.
fn finish_candidate(
    board: &Board,
    circles: &[(usize, usize)],
    crosses: &[(usize, usize)],
    player_idx: usize,
    difficulty: Difficulty,
) -> (out: Option<(Vec<usize>, Vec<usize>)>)
    requires
        board.wf(),
        markers_valid(board, circles@, crosses@),
        circles@.len() == 3,
        player_idx < 3,
        can_win(board, circles@, crosses@, player_idx as int),
    ensures
        out is Some <==> final_checks(
            board,
            flat_seq(board, circles@),
            canon(flat_seq(board, crosses@)),
            player_idx,
            difficulty,
        ),
        out is Some ==> out.unwrap().0@ == flat_seq(board, circles@) && out.unwrap().1@ == canon(
            flat_seq(board, crosses@),
        ),
        out is Some ==> playable_puzzle(board, out.unwrap().0@, out.unwrap().1@, player_idx),
        out is Some ==> out.unwrap().1@.len() == crosses@.len(),
        out is Some ==> meets_difficulty(board, out.unwrap().0@, out.unwrap().1@, player_idx, difficulty),
{
    let cf = flats_of(board, circles);
    let mut xf = flats_of(board, crosses);
    let ghost xf0 = xf@;
    sort_flats(&mut xf);
    proof {
        lemma_canon_of_sorted(xf0, xf@);
        lemma_canon_sorted(xf@);
        lemma_canon_of_sorted(xf@, xf@);
        lemma_valid_reordered(board, cf@, xf0, xf@);
        lemma_rc_same_members(board, xf0, xf@);
        lemma_can_win_reordered(board, circles@, crosses@, rc_seq(board, xf@), player_idx as int);
    }
    let (max_nodes, min_moves) = solver_params(difficulty);
    let found = solve_min_moves(board, &cf, &xf, player_idx, max_nodes, SOLVER_DEPTH);
    let gate = match found {
        Some(depth) => depth >= min_moves,
        None => difficulty != Difficulty::Easy,
    };
    proof {
        assert(passes_gate(difficulty, found) == gate);
        lemma_solver_depth();
        assert(max_nodes == solver_table(difficulty).0);
        assert(search_outcome(board, cf@.len() as int, player_idx as int, false, cf@ + canon(xf@), solver_table(difficulty).0, solver_depth(), found));
        assert forall|f2: Option<usize>|
            #[trigger] search_outcome(board, cf@.len() as int, player_idx as int, false, cf@ + canon(xf@), solver_table(difficulty).0, solver_depth(), f2)
            implies f2 == found by {
            lemma_search_outcome_unique(board, cf@.len() as int, player_idx as int, false, cf@ + canon(xf@), max_nodes, SOLVER_DEPTH, f2, found);
        }
        assert(gate ==> meets_difficulty(board, cf@, xf@, player_idx, difficulty));
    }
    if !gate {
        return None;
    }
    if is_win_flat(&cf, board) {
        return None;
    }
    if check_lose_flat(&xf, board) {
        return None;
    }
    if check_cross_deadlock(&xf, board) {
        return None;
    }
    if !find_safe_move(board, &cf, &xf, player_idx) {
        return None;
    }
    Some((cf, xf))
}

/// Circles and crosses during scrambling: valid, three circles, and winnable.
spec fn scramble_ok(b: &Board, circles: Seq<(usize, usize)>, crosses: Seq<(usize, usize)>, p: usize) -> bool {
    &&& markers_valid(b, circles, crosses)
    &&& circles.len() == 3
    &&& p < 3
    &&& can_win(b, circles, crosses, p as int)
}

/// The first pull, trying up, down, left, right from direction `k` on, that changes the
/// position, leaves the crosses neither aligned nor deadlocked, and leads to a position
/// whose key `seen` lacks.
pub open spec fn try_pulls(
    b: &Board,
    p: usize,
    c: Seq<(usize, usize)>,
    x: Seq<(usize, usize)>,
    seen: Set<Seq<usize>>,
    k: int,
) -> Option<(Seq<(usize, usize)>, Seq<(usize, usize)>)>
    decreases 4 - k,
{
    if k < 0 || k >= 4 {
        None
    } else {
        let d = dir_of(k);
        let after = reverse(b, c, x, p as int, d.0 as int, d.1 as int);
        let xf = flat_seq(b, after.1);
        if after == (c, x) || aligned(b, xf) || deadlocked(b, xf) || seen.contains(
            seq![p] + key_of(b, after.0, after.1),
        ) {
            try_pulls(b, p, c, x, seen, k + 1)
        } else {
            Some(after)
        }
    }
}

/// Pull moves with backtracking, from round `iter` of `limit`: each round takes the
/// first pull `try_pulls` finds, or else goes back to the position before the last pull;
/// it stops when `target` pulls stand, the rounds run out, or there is nothing to go back
/// to. Returns the position and the number of pulls that stand.
pub open spec fn bt_scramble(
    b: &Board,
    p: usize,
    target: int,
    limit: int,
    iter: int,
    c: Seq<(usize, usize)>,
    x: Seq<(usize, usize)>,
    moved: int,
    undo: Seq<(Seq<(usize, usize)>, Seq<(usize, usize)>)>,
    seen: Set<Seq<usize>>,
) -> (Seq<(usize, usize)>, Seq<(usize, usize)>, int)
    decreases limit - iter,
{
    if iter < 0 || iter >= limit || moved >= target {
        (c, x, moved)
    } else {
        match try_pulls(b, p, c, x, seen, 0) {
            Some(after) => bt_scramble(
                b,
                p,
                target,
                limit,
                iter + 1,
                after.0,
                after.1,
                moved + 1,
                undo.push((c, x)),
                seen.insert(seq![p] + key_of(b, after.0, after.1)),
            ),
            None => if undo.len() > 0 {
                bt_scramble(
                    b,
                    p,
                    target,
                    limit,
                    iter + 1,
                    undo.last().0,
                    undo.last().1,
                    if moved > 0 { moved - 1 } else { 0 },
                    undo.drop_last(),
                    seen,
                )
            } else {
                (c, x, moved)
            },
        }
    }
}

/// Views of an undo stack.
pub open spec fn undo_view(u: Seq<(Vec<(usize, usize)>, Vec<(usize, usize)>)>) -> Seq<(Seq<(usize, usize)>, Seq<(usize, usize)>)> {
    u.map_values(|e: (Vec<(usize, usize)>, Vec<(usize, usize)>)| (e.0@, e.1@))
}


/// The pull that `try_pulls` finds.
fn find_pull(
    board: &Board,
    circles: &Vec<(usize, usize)>,
    crosses: &Vec<(usize, usize)>,
    player_idx: usize,
    visited: &KeySet,
) -> (out: Option<(Vec<(usize, usize)>, Vec<(usize, usize)>)>)
    requires
        board.wf(),
        scramble_ok(board, circles@, crosses@, player_idx),
        visited.wf(),
    ensures
        match out {
            Some(o) => try_pulls(board, player_idx, circles@, crosses@, visited.view(), 0) == Some((o.0@, o.1@))
                && scramble_ok(board, o.0@, o.1@, player_idx) && o.1@.len() == crosses@.len(),
            None => try_pulls(board, player_idx, circles@, crosses@, visited.view(), 0) is None,
        },
{
    let mut k: usize = 0;
    while k < 4
        invariant
            board.wf(),
            scramble_ok(board, circles@, crosses@, player_idx),
            visited.wf(),
            k <= 4,
            try_pulls(board, player_idx, circles@, crosses@, visited.view(), 0) == try_pulls(
                board,
                player_idx,
                circles@,
                crosses@,
                visited.view(),
                k as int,
            ),
        decreases 4 - k,
    {
        let (dr, dc) = direction(k);
        let mut c2 = copy_positions(circles);
        let mut x2 = copy_positions(crosses);
        proof {
            lemma_reverse_keeps_markers_valid(board, circles@, crosses@, player_idx as int, dr as int, dc as int);
            lemma_reverse_keeps_can_win(board, circles@, crosses@, player_idx as int, dr, dc);
        }
        attempt_move_reverse(c2.as_mut_slice(), x2.as_mut_slice(), player_idx, dr, dc, board);
        let unchanged = same_positions(&c2, circles) && same_positions(&x2, crosses);
        if !unchanged {
            let xf = flats_of(board, &x2);
            if !check_lose_flat(&xf, board) && !check_cross_deadlock(&xf, board) {
                let key = state_key(board, &c2, &x2, player_idx);
                if !visited.contains(&key) {
                    return Some((c2, x2));
                }
            }
        }
        k += 1;
    }
    None
}

/// Pull moves with backtracking as `bt_scramble` says, from the given position with
/// nothing to go back to and only its own key seen, in `10 * steps_target + 200` rounds;
/// `true` when `steps_target` pulls stand.
fn scramble_with_backtracking(
    board: &Board,
    circles: &mut Vec<(usize, usize)>,
    crosses: &mut Vec<(usize, usize)>,
    player_idx: usize,
    steps_target: usize,
) -> (done: bool)
    requires
        board.wf(),
        scramble_ok(board, old(circles)@, old(crosses)@, player_idx),
        steps_target <= 400,
    ensures
        scramble_ok(board, final(circles)@, final(crosses)@, player_idx),
        final(crosses)@.len() == old(crosses)@.len(),
        ({
            let r = bt_scramble(
                board,
                player_idx,
                steps_target as int,
                steps_target * 10 + 200,
                0,
                old(circles)@,
                old(crosses)@,
                0,
                Seq::empty(),
                set![seq![player_idx] + key_of(board, old(circles)@, old(crosses)@)],
            );
            final(circles)@ == r.0 && final(crosses)@ == r.1 && done == (r.2 >= steps_target)
        }),
{
    let ghost ncross = crosses@.len();
    let mut moves_made: usize = 0;
    let mut undo_stack: Vec<(Vec<(usize, usize)>, Vec<(usize, usize)>)> = Vec::new();
    let mut visited = KeySet::new();
    visited.insert(state_key(board, circles, crosses, player_idx));
    let mut inner_iters: usize = 0;
    let max_inner = steps_target * 10 + 200;
    let ghost goal = bt_scramble(
        board,
        player_idx,
        steps_target as int,
        max_inner as int,
        0,
        circles@,
        crosses@,
        0,
        Seq::empty(),
        visited.view(),
    );
    proof {
        assert(undo_view(undo_stack@) =~= Seq::empty());
        assert(visited.view() =~= set![seq![player_idx] + key_of(board, old(circles)@, old(crosses)@)]);
    }
    while moves_made < steps_target && inner_iters < max_inner
        invariant
            board.wf(),
            scramble_ok(board, circles@, crosses@, player_idx),
            forall|j: int|
                0 <= j < undo_stack@.len() ==> scramble_ok(board, (#[trigger] undo_stack@[j]).0@, undo_stack@[j].1@, player_idx)
                    && undo_stack@[j].1@.len() == ncross,
            crosses@.len() == ncross,
            moves_made <= steps_target,
            player_idx < 3,
            visited.wf(),
            inner_iters <= max_inner,
            max_inner == steps_target * 10 + 200,
            goal == bt_scramble(
                board,
                player_idx,
                steps_target as int,
                max_inner as int,
                inner_iters as int,
                circles@,
                crosses@,
                moves_made as int,
                undo_view(undo_stack@),
                visited.view(),
            ),
        ensures
            scramble_ok(board, circles@, crosses@, player_idx),
            crosses@.len() == ncross,
            goal == (circles@, crosses@, moves_made as int),
        decreases max_inner - inner_iters,
    {
        let ghost iter0 = inner_iters as int;
        let ghost c0 = circles@;
        let ghost x0 = crosses@;
        let ghost u0 = undo_view(undo_stack@);
        let ghost s0 = visited.view();
        inner_iters += 1;
        match find_pull(board, circles, crosses, player_idx, &visited) {
            Some(pulled) => {
                let (c2, x2) = pulled;
                let key = state_key(board, &c2, &x2, player_idx);
                visited.insert(key);
                let old_c = copy_positions(circles);
                let old_x = copy_positions(crosses);
                *circles = c2;
                *crosses = x2;
                let ghost ub = undo_stack@;
                undo_stack.push((old_c, old_x));
                moves_made += 1;
                proof {
                    assert(undo_view(undo_stack@) =~= u0.push((c0, x0)));
                    assert forall|j: int| 0 <= j < undo_stack@.len() implies scramble_ok(board, (#[trigger] undo_stack@[j]).0@, undo_stack@[j].1@, player_idx)
                        && undo_stack@[j].1@.len() == ncross by {
                        if j < ub.len() {
                            assert(undo_stack@[j] == ub[j]);
                        }
                    }
                }
            },
            None => {
                let ghost ub = undo_stack@;
                match undo_stack.pop() {
                    Some(prev) => {
                        proof {
                            assert(prev == ub[ub.len() - 1]);
                            assert(undo_view(undo_stack@) =~= u0.drop_last());
                            assert(u0.last() == (prev.0@, prev.1@));
                        }
                        *circles = prev.0;
                        *crosses = prev.1;
                        if moves_made > 0 {
                            moves_made -= 1;
                        }
                    },
                    None => {
                        proof {
                            assert(u0.len() == 0);
                            assert(goal == (c0, x0, moves_made as int));
                        }
                        break;
                    },
                }
            },
        }
    }
    moves_made >= steps_target
}

/// Greedy cross placement: from entry `i` of `avail` on, each entry not yet taken is
/// added unless it would align or deadlock the crosses, until `min_cross` are placed.
pub open spec fn greedy(b: &Board, avail: Seq<usize>, min_cross: int, i: int, acc: Seq<usize>) -> Seq<usize>
    decreases avail.len() - i,
{
    if i < 0 || i >= avail.len() || acc.len() >= min_cross {
        acc
    } else {
        let f = avail[i];
        if acc.contains(f) || aligned(b, acc.push(f)) || deadlocked(b, acc.push(f)) {
            greedy(b, avail, min_cross, i + 1, acc)
        } else {
            greedy(b, avail, min_cross, i + 1, acc.push(f))
        }
    }
}

/// The constructive candidate on the triple `t`: circles on `t` with the middle one
/// playing; crosses placed greedily, farthest from the middle circle first; pull moves
/// with backtracking; then the final checks. Flat circles and sorted flat crosses, or
/// `None`.
pub open spec fn constructive_spec(b: &Board, t: (usize, usize, bool), difficulty: Difficulty) -> Option<(Seq<usize>, Seq<usize>)> {
    let min_cross = placement_table(difficulty).0 as int;
    let min_steps = placement_table(difficulty).2 as int;
    let circles = seq![triple_cell(t, 0), triple_cell(t, 1), triple_cell(t, 2)];
    let cf = flat_seq(b, circles);
    let avail = by_distance(b, free_below(b, cf, b.total_cells as int), triple_cell(t, 1));
    let xf = greedy(b, avail, min_cross, 0, Seq::empty());
    if avail.len() < min_cross || xf.len() < min_cross {
        None
    } else {
        let x = rc_seq(b, xf);
        let r = bt_scramble(b, 1, min_steps, min_steps * 10 + 200, 0, circles, x, 0, Seq::empty(), set![seq![1usize] + key_of(b, circles, x)]);
        if r.2 < min_steps {
            None
        } else {
            let f = (flat_seq(b, r.0), canon(flat_seq(b, r.1)));
            if final_checks(b, f.0, f.1, 1, difficulty) {
                Some(f)
            } else {
                None
            }
        }
    }
}

/// Greedy placement of crosses (see `greedy`) from the playable cells in `avail`.
fn place_greedily(board: &Board, avail: &Vec<usize>, circle_flats: &Vec<usize>, min_cross: usize) -> (out: Vec<usize>)
    requires
        board.wf(),
        forall|j: int|
            0 <= j < avail@.len() ==> #[trigger] avail@[j] < board.total_cells && board.cells@[avail@[j] as int]
                && !circle_flats@.contains(avail@[j]),
    ensures
        out@ == greedy(board, avail@, min_cross as int, 0, Seq::empty()),
        out@.no_duplicates(),
        out@.len() <= min_cross,
        forall|j: int|
            0 <= j < out@.len() ==> #[trigger] out@[j] < board.total_cells && board.cells@[out@[j] as int]
                && !circle_flats@.contains(out@[j]),
{
    let mut cross_flats: Vec<usize> = Vec::new();
    let mut i: usize = 0;
    proof {
        assert(cross_flats@ =~= Seq::<usize>::empty());
    }
    while i < avail.len() && cross_flats.len() < min_cross
        invariant
            board.wf(),
            i <= avail@.len(),
            forall|j: int|
                0 <= j < avail@.len() ==> #[trigger] avail@[j] < board.total_cells && board.cells@[avail@[j] as int]
                    && !circle_flats@.contains(avail@[j]),
            cross_flats@.no_duplicates(),
            cross_flats@.len() <= min_cross,
            forall|j: int|
                0 <= j < cross_flats@.len() ==> #[trigger] cross_flats@[j] < board.total_cells
                    && board.cells@[cross_flats@[j] as int] && !circle_flats@.contains(cross_flats@[j]),
            greedy(board, avail@, min_cross as int, 0, Seq::empty()) == greedy(
                board,
                avail@,
                min_cross as int,
                i as int,
                cross_flats@,
            ),
        decreases avail@.len() - i,
    {
        let f = avail[i];
        let ghost acc = cross_flats@;
        i += 1;
        if holds(&cross_flats, f) {
            continue;
        }
        cross_flats.push(f);
        if check_lose_flat(&cross_flats, board) || check_cross_deadlock(&cross_flats, board) {
            cross_flats.pop();
            assert(cross_flats@ =~= acc);
        }
    }
    cross_flats
}

/// One candidate of the constructive generator, built on the triple `chosen`: exactly
/// `constructive_spec`.
#[verifier::rlimit(60)]
fn constructive_candidate(
    board: &Board,
    chosen: (usize, usize, bool),
    difficulty: Difficulty,
    min_cross: usize,
    min_steps: usize,
) -> (out: Option<(Vec<usize>, Vec<usize>, usize)>)
    requires
        board.wf(),
        triple_ok(board, chosen),
        min_cross == placement_table(difficulty).0,
        min_steps == placement_table(difficulty).2,
        1 <= min_cross <= 14,
        1 <= min_steps <= 400,
    ensures
        match out {
            Some(o) => constructive_spec(board, chosen, difficulty) == Some((o.0@, o.1@)) && o.2 == 1,
            None => constructive_spec(board, chosen, difficulty) is None,
        },
        out is Some ==> playable_puzzle(board, out.unwrap().0@, out.unwrap().1@, out.unwrap().2),
        out is Some ==> meets_difficulty(board, out.unwrap().0@, out.unwrap().1@, out.unwrap().2, difficulty),
        out is Some ==> out.unwrap().1@.len() == min_cross,
{
    let player_idx: usize = 1;
    let mut circles = cells_of_triple(board, chosen);
    let circle_flats = flats_of(board, &circles);
    let center = circles[1];
    proof {
        assert(board.present_pos(circles@[1]));
        board.lemma_row_end(center.0 as int);
        board.lemma_offset_at_least_row(center.0 as int);
    }
    let available = free_cells_by_distance(board, &circle_flats, center);
    if available.len() < min_cross {
        return None;
    }
    let cross_flats = place_greedily(board, &available, &circle_flats, min_cross);
    if cross_flats.len() < min_cross {
        return None;
    }
    proof {
        lemma_flats_of_valid(board, circles@);
        assert forall|a: int, b: int| 0 <= a < circle_flats@.len() && 0 <= b < cross_flats@.len()
            implies #[trigger] circle_flats@[a] != #[trigger] cross_flats@[b] by {
            assert(circle_flats@.contains(circle_flats@[a]));
        }
        lemma_puzzle_valid_intro(board, circle_flats@, cross_flats@);
    }
    let mut crosses = positions_of(board, &cross_flats);
    assert(circles@ == rc_seq(board, circle_flats@));
    proof {
        lemma_triple_can_win(board, chosen, crosses@, player_idx as int);
    }
    if !scramble_with_backtracking(board, &mut circles, &mut crosses, player_idx, min_steps) {
        return None;
    }
    match finish_candidate(board, &circles, &crosses, player_idx, difficulty) {
        Some((cf, xf)) => Some((cf, xf, player_idx)),
        None => None,
    }
}

/// Deterministic constructive generator: for each run of three playable cells in order,
/// the middle circle plays; crosses are placed greedily, farthest from the middle circle
/// first, skipping any that would align or deadlock the crosses; then pull moves, with
/// backtracking, scramble the position, avoiding repeated, lost and deadlocked states.
/// The first candidate that passes the final checks is returned; empty lists if none does.
pub fn generate_puzzle_constructive(board: &Board, difficulty: Difficulty) -> (out: (Vec<usize>, Vec<usize>, usize))
    requires
        board.wf(),
    ensures
        generated(board, out),
        out.0@.len() > 0 ==> meets_difficulty(board, out.0@, out.1@, out.2, difficulty),
        out.0@.len() > 0 ==> out.1@.len() == placement_table(difficulty).0,
        out.2 == 0 || out.2 == 1,
        out.0@.len() == 0 <==> forall|i: int|
            0 <= i < all_triples(board).len() ==> constructive_spec(board, #[trigger] all_triples(board)[i], difficulty) is None,
        out.0@.len() > 0 ==> exists|i: int|
            0 <= i < all_triples(board).len() && constructive_spec(board, #[trigger] all_triples(board)[i], difficulty)
                == Some((out.0@, out.1@)) && forall|j: int| 0 <= j < i ==> constructive_spec(board, #[trigger] all_triples(board)[j], difficulty) is None,
{
    let triples = winning_triples(board);
    let (min_cross, _max_cross, min_steps, _max_steps) = placement_params(difficulty);
    let mut ti: usize = 0;
    while ti < triples.len()
        invariant
            board.wf(),
            forall|i: int| 0 <= i < triples@.len() ==> triple_ok(board, #[trigger] triples@[i]),
            1 <= min_cross <= 14,
            1 <= min_steps <= 400,
            min_cross == placement_table(difficulty).0,
            min_steps == placement_table(difficulty).2,
            triples@ == all_triples(board),
            ti <= triples@.len(),
            forall|j: int| 0 <= j < ti ==> constructive_spec(board, #[trigger] triples@[j], difficulty) is None,
        decreases triples@.len() - ti,
    {
        let chosen = triples[ti];
        let ghost i0 = ti as int;
        ti += 1;
        if let Some(found) = constructive_candidate(board, chosen, difficulty, min_cross, min_steps) {
            proof {
                assert(constructive_spec(board, all_triples(board)[i0], difficulty) == Some((found.0@, found.1@)));
                assert(found.0@.len() > 0);
            }
            return found;
        }
    }
    (Vec::new(), Vec::new(), 0)
}

/// The first `n` elements of `s`, or all of them when there are fewer.
pub open spec fn at_most(s: Seq<usize>, n: int) -> Seq<usize> {
    if s.len() <= n {
        s
    } else {
        s.take(n)
    }
}

/// The three cells of row `m` from column `a` on are playable.
pub open spec fn row_triple(b: &Board, m: int, a: int) -> bool {
    b.present(m, a) && b.present(m, a + 1) && b.present(m, a + 2)
}

/// Playable flat indices below `f` that `taken` does not hold, in ascending order.
pub open spec fn free_below(b: &Board, taken: Seq<usize>, f: int) -> Seq<usize>
    decreases f,
{
    if f <= 0 {
        Seq::empty()
    } else if b.present_flat(f - 1) && !taken.contains((f - 1) as usize) {
        free_below(b, taken, f - 1).push((f - 1) as usize)
    } else {
        free_below(b, taken, f - 1)
    }
}

proof fn lemma_free_below_prefix(b: &Board, taken: Seq<usize>, f: int, g: int)
    requires
        0 <= f <= g,
    ensures
        free_below(b, taken, f).len() <= free_below(b, taken, g).len(),
        free_below(b, taken, g).subrange(0, free_below(b, taken, f).len() as int) == free_below(b, taken, f),
    decreases g - f,
{
    if f < g {
        lemma_free_below_prefix(b, taken, f, g - 1);
        let s = free_below(b, taken, g - 1);
        let t = free_below(b, taken, g);
        assert(t.subrange(0, s.len() as int) =~= s);
        assert(t.subrange(0, free_below(b, taken, f).len() as int) =~= s.subrange(0, free_below(b, taken, f).len() as int));
    } else {
        assert(free_below(b, taken, g).subrange(0, free_below(b, taken, g).len() as int) =~= free_below(b, taken, g));
    }
}

/// The fallback layout with circles from column `a` of the middle row: that run is the
/// first run of three playable cells there, and the crosses are the first 5 free cells.
pub open spec fn fallback_at(b: &Board, a: int, circles: Seq<usize>, crosses: Seq<usize>) -> bool {
    let m = (b.rows / 2) as int;
    &&& 0 <= a
    &&& row_triple(b, m, a)
    &&& forall|a2: int| 0 <= a2 < a ==> !row_triple(b, m, a2)
    &&& circles == seq![cell(b, m, a), cell(b, m, a + 1), cell(b, m, a + 2)]
    &&& crosses == at_most(free_below(b, circles, b.total_cells as int), 5)
}

/// Fixed layout for when generation fails: the circles on the first run of three playable
/// cells of the middle row, the middle one playing, and crosses on the first 5 playable
/// cells, in flat order, that hold no circle. Empty lists when the middle row has no such
/// run.
pub fn fallback_puzzle(board: &Board) -> (out: (Vec<usize>, Vec<usize>, usize))
    requires
        board.wf(),
    ensures
        out.0@.len() == 0 <==> forall|a: int| 0 <= a ==> !#[trigger] row_triple(board, (board.rows / 2) as int, a),
        out.0@.len() == 0 ==> out.1@.len() == 0 && out.2 == 0,
        out.0@.len() > 0 ==> exists|a: int|
            #[trigger] fallback_at(board, a, out.0@, out.1@) && out.2 == 1,
{
    let m = board.rows / 2;
    let a = match first_row_triple(board, m) {
        Some(a) => a,
        None => return (Vec::new(), Vec::new(), 0),
    };
    let mut circles: Vec<usize> = Vec::new();
    circles.push(board.to_flat(m, a));
    circles.push(board.to_flat(m, a + 1));
    circles.push(board.to_flat(m, a + 2));
    let crosses = first_free_cells(board, &circles);
    proof {
        assert(circles@ =~= seq![cell(board, m as int, a as int), cell(board, m as int, a + 1), cell(board, m as int, a + 2)]);
        assert(fallback_at(board, a as int, circles@, crosses@));
    }
    let out = (circles, crosses, 1usize);
    assert(fallback_at(board, a as int, out.0@, out.1@));
    out
}

/// The first start column of a run of three playable cells in row `m`.
fn first_row_triple(board: &Board, m: usize) -> (out: Option<usize>)
    requires
        board.wf(),
        m < board.rows,
    ensures
        match out {
            Some(a) => row_triple(board, m as int, a as int) && forall|a2: int| 0 <= a2 < a ==> !row_triple(board, m as int, a2),
            None => forall|a2: int| 0 <= a2 ==> !#[trigger] row_triple(board, m as int, a2),
        },
{
    let w = board.row_widths[m];
    proof {
        board.lemma_row_end(m as int);
    }
    let mut a: usize = 0;
    while a + 2 < w
        invariant
            board.wf(),
            m < board.rows,
            w == board.row_widths@[m as int],
            w <= board.total_cells,
            a <= w,
            forall|a2: int| 0 <= a2 < a ==> !row_triple(board, m as int, a2),
        decreases w - a,
    {
        if board.is_cell_present(m, a) && board.is_cell_present(m, a + 1) && board.is_cell_present(m, a + 2) {
            return Some(a);
        }
        a += 1;
    }
    proof {
        assert forall|a2: int| 0 <= a2 implies !#[trigger] row_triple(board, m as int, a2) by {
            if a2 >= a {
                assert(!board.valid_rc(m as int, a2 + 2));
            }
        }
    }
    None
}

/// The first 5 playable cells, in flat order, that `circles` does not hold.
fn first_free_cells(board: &Board, circles: &Vec<usize>) -> (crosses: Vec<usize>)
    requires
        board.wf(),
    ensures
        crosses@ == at_most(free_below(board, circles@, board.total_cells as int), 5),
{
    let mut crosses: Vec<usize> = Vec::new();
    let mut f: usize = 0;
    while f < board.total_cells && crosses.len() < 5
        invariant
            board.wf(),
            f <= board.total_cells,
            crosses@ == free_below(board, circles@, f as int),
            crosses@.len() <= 5,
        decreases board.total_cells - f,
    {
        if board.cells[f] && !holds(circles, f) {
            crosses.push(f);
        }
        f += 1;
    }
    proof {
        lemma_free_below_prefix(board, circles@, f as int, board.total_cells as int);
        let all = free_below(board, circles@, board.total_cells as int);
        if f < board.total_cells {
            assert(all.take(5) =~= crosses@);
        }
    }
    crosses
}

/// Pull moves of circle `p` in the directions `dirs` (indices into up, down, left,
/// right), one per try from try `i` on, until `target` pulls changed the position
/// (`moved` so far), `10 * target` tries were made, or `dirs` runs out.
pub open spec fn scrambled(
    b: &Board,
    c: Seq<(usize, usize)>,
    x: Seq<(usize, usize)>,
    p: int,
    dirs: Seq<usize>,
    target: int,
    i: int,
    moved: int,
) -> (Seq<(usize, usize)>, Seq<(usize, usize)>)
    decreases dirs.len() - i,
{
    if i < 0 || i >= dirs.len() || moved >= target || i >= 10 * target {
        (c, x)
    } else {
        let d = dir_of(dirs[i] as int);
        let after = reverse(b, c, x, p, d.0 as int, d.1 as int);
        scrambled(b, after.0, after.1, p, dirs, target, i + 1, if after != (c, x) { moved + 1 } else { moved })
    }
}

/// The candidate built from given draws: circles on the triple `t` with circle `p`
/// playing, crosses on `cross_cells`, pull moves in the directions `dirs`. `None` when the
/// crosses are not on free playable cells, are aligned or deadlocked, or the scrambled
/// position fails the final checks.
pub open spec fn draws_candidate(
    b: &Board,
    t: (usize, usize, bool),
    p: usize,
    cross_cells: Seq<usize>,
    steps_target: usize,
    dirs: Seq<usize>,
    difficulty: Difficulty,
) -> Option<(Seq<usize>, Seq<usize>)> {
    let circles = seq![triple_cell(t, 0), triple_cell(t, 1), triple_cell(t, 2)];
    let cf = flat_seq(b, circles);
    if !puzzle_valid(b, cf, cross_cells) || aligned(b, cross_cells) || deadlocked(b, cross_cells) {
        None
    } else {
        let s = scrambled(b, circles, rc_seq(b, cross_cells), p as int, dirs, steps_target as int, 0, 0);
        let f = (flat_seq(b, s.0), canon(flat_seq(b, s.1)));
        if final_checks(b, f.0, f.1, p, difficulty) {
            Some(f)
        } else {
            None
        }
    }
}

/// Pull moves in the given directions, as `scrambled` says.
fn scramble_with_draws(
    board: &Board,
    circles: &mut Vec<(usize, usize)>,
    crosses: &mut Vec<(usize, usize)>,
    player_idx: usize,
    steps_target: usize,
    dirs: &Vec<usize>,
)
    requires
        board.wf(),
        scramble_ok(board, old(circles)@, old(crosses)@, player_idx),
        steps_target <= 400,
        forall|i: int| 0 <= i < dirs@.len() ==> #[trigger] dirs@[i] < 4,
    ensures
        scramble_ok(board, final(circles)@, final(crosses)@, player_idx),
        final(crosses)@.len() == old(crosses)@.len(),
        (final(circles)@, final(crosses)@) == scrambled(
            board,
            old(circles)@,
            old(crosses)@,
            player_idx as int,
            dirs@,
            steps_target as int,
            0,
            0,
        ),
{
    let ghost goal = scrambled(board, circles@, crosses@, player_idx as int, dirs@, steps_target as int, 0, 0);
    let mut moves_made: usize = 0;
    let mut i: usize = 0;
    while moves_made < steps_target && i < steps_target * 10 && i < dirs.len()
        invariant
            board.wf(),
            scramble_ok(board, circles@, crosses@, player_idx),
            steps_target <= 400,
            forall|i: int| 0 <= i < dirs@.len() ==> #[trigger] dirs@[i] < 4,
            i <= dirs@.len(),
            moves_made <= i,
            crosses@.len() == old(crosses)@.len(),
            goal == scrambled(board, circles@, crosses@, player_idx as int, dirs@, steps_target as int, i as int, moves_made as int),
        decreases dirs@.len() - i,
    {
        let (dr, dc) = direction(dirs[i]);
        let pre_c = copy_positions(circles);
        let pre_x = copy_positions(crosses);
        proof {
            lemma_reverse_keeps_markers_valid(board, circles@, crosses@, player_idx as int, dr as int, dc as int);
            lemma_reverse_keeps_can_win(board, circles@, crosses@, player_idx as int, dr, dc);
        }
        attempt_move_reverse(circles.as_mut_slice(), crosses.as_mut_slice(), player_idx, dr, dc, board);
        if !(same_positions(&pre_c, circles) && same_positions(&pre_x, crosses)) {
            moves_made += 1;
        }
        i += 1;
    }
}

/// The candidate built from given draws (see `draws_candidate`).
#[verifier::rlimit(60)]
pub fn candidate_from_draws(
    board: &Board,
    triple: (usize, usize, bool),
    player_idx: usize,
    cross_cells: &Vec<usize>,
    steps_target: usize,
    dirs: &Vec<usize>,
    difficulty: Difficulty,
) -> (out: Option<(Vec<usize>, Vec<usize>)>)
    requires
        board.wf(),
        triple_ok(board, triple),
        player_idx < 3,
        steps_target <= 400,
        forall|i: int| 0 <= i < dirs@.len() ==> #[trigger] dirs@[i] < 4,
    ensures
        match out {
            Some(o) => draws_candidate(board, triple, player_idx, cross_cells@, steps_target, dirs@, difficulty)
                == Some((o.0@, o.1@)),
            None => draws_candidate(board, triple, player_idx, cross_cells@, steps_target, dirs@, difficulty) is None,
        },
        out is Some ==> playable_puzzle(board, out.unwrap().0@, out.unwrap().1@, player_idx),
        out is Some ==> out.unwrap().1@.len() == cross_cells@.len(),
        out is Some ==> meets_difficulty(board, out.unwrap().0@, out.unwrap().1@, player_idx, difficulty),
{
    let mut circles = cells_of_triple(board, triple);
    let circle_flats = flats_of(board, &circles);
    if !is_valid_puzzle(board, &circle_flats, cross_cells) {
        return None;
    }
    if check_lose_flat(cross_cells, board) || check_cross_deadlock(cross_cells, board) {
        return None;
    }
    let mut crosses = positions_of(board, cross_cells);
    proof {
        lemma_triple_can_win(board, triple, crosses@, player_idx as int);
    }
    scramble_with_draws(board, &mut circles, &mut crosses, player_idx, steps_target, dirs);
    finish_candidate(board, &circles, &crosses, player_idx, difficulty)
}

/// One candidate of the randomized generator: the draws are made here and handed to
/// `candidate_from_draws`.
fn random_candidate(
    board: &Board,
    triples: &Vec<(usize, usize, bool)>,
    difficulty: Difficulty,
    min_cross: usize,
    max_cross: usize,
    min_steps: usize,
    max_steps: usize,
) -> (out: Option<(Vec<usize>, Vec<usize>, usize)>)
    requires
        board.wf(),
        triples@.len() > 0,
        forall|i: int| 0 <= i < triples@.len() ==> triple_ok(board, #[trigger] triples@[i]),
        1 <= min_cross <= max_cross <= 14,
        1 <= min_steps <= max_steps <= 400,
    ensures
        out is Some ==> playable_puzzle(board, out.unwrap().0@, out.unwrap().1@, out.unwrap().2),
        out is Some ==> cross_count_ok(board, out.unwrap().1@.len() as int, min_cross, max_cross),
        out is Some ==> meets_difficulty(board, out.unwrap().0@, out.unwrap().1@, out.unwrap().2, difficulty),
{
    let chosen = triples[random_in(0, triples.len() - 1)];
    let circles = cells_of_triple(board, chosen);
    let player_idx = random_in(0, 2);
    let circle_flats = flats_of(board, &circles);
    let mut cross_count = random_in(min_cross, max_cross);
    let limit = if board.total_cells >= 3 { board.total_cells - 3 } else { 0 };
    if cross_count > limit {
        cross_count = limit;
    }
    let mut available = free_cells(board, &circle_flats);
    if available.len() < cross_count {
        return None;
    }
    let ghost avail0 = available@;
    shuffle_flats(&mut available);
    proof {
        avail0.to_multiset_ensures();
        available@.to_multiset_ensures();
    }
    let mut cross_cells: Vec<usize> = Vec::new();
    let mut i: usize = 0;
    while i < cross_count
        invariant
            i <= cross_count <= available@.len(),
            cross_cells@.len() == i,
        decreases cross_count - i,
    {
        cross_cells.push(available[i]);
        i += 1;
    }
    let steps_target = random_in(min_steps, max_steps);
    let mut dirs: Vec<usize> = Vec::new();
    let mut k: usize = 0;
    while k < steps_target * 10
        invariant
            steps_target <= 400,
            forall|i: int| 0 <= i < dirs@.len() ==> #[trigger] dirs@[i] < 4,
        decreases steps_target * 10 - k,
    {
        dirs.push(random_in(0, 3));
        k += 1;
    }
    match candidate_from_draws(board, chosen, player_idx, &cross_cells, steps_target, &dirs, difficulty) {
        Some((cf, xf)) => Some((cf, xf, player_idx)),
        None => None,
    }
}

/// A cross count drawn for a tier: within the tier's range, cut back to the board's cell
/// count less 3.
pub open spec fn cross_count_ok(b: &Board, count: int, min_cross: usize, max_cross: usize) -> bool {
    &&& count <= max_cross
    &&& (count >= min_cross || count == b.total_cells - 3)
}

/// Number of candidates `generate_puzzle` tries before giving up.
pub const MAX_ATTEMPTS: usize = 2000;

/// Randomized generator: a random run of three playable cells holds the circles, a random
/// one of them plays, a random number of crosses (by difficulty) go on random free
/// playable cells, then a random number of random pull moves scramble the position. The
/// first candidate that passes the final checks is returned; empty lists after
/// `MAX_ATTEMPTS` candidates, or at once when the board has no such run.
pub fn generate_puzzle(board: &Board, difficulty: Difficulty) -> (out: (Vec<usize>, Vec<usize>, usize))
    requires
        board.wf(),
    ensures
        generated(board, out),
        out.0@.len() > 0 ==> meets_difficulty(board, out.0@, out.1@, out.2, difficulty),
        out.0@.len() > 0 ==> cross_count_ok(
            board,
            out.1@.len() as int,
            placement_table(difficulty).0,
            placement_table(difficulty).1,
        ),
{
    let triples = winning_triples(board);
    if triples.len() == 0 {
        return (Vec::new(), Vec::new(), 0);
    }
    let (min_cross, max_cross, min_steps, max_steps) = placement_params(difficulty);
    let mut attempts: usize = 0;
    while attempts < MAX_ATTEMPTS
        invariant
            board.wf(),
            triples@.len() > 0,
            forall|i: int| 0 <= i < triples@.len() ==> triple_ok(board, #[trigger] triples@[i]),
            1 <= min_cross <= max_cross <= 14,
            1 <= min_steps <= max_steps <= 400,
            min_cross == placement_table(difficulty).0,
            max_cross == placement_table(difficulty).1,
        decreases MAX_ATTEMPTS - attempts,
    {
        attempts += 1;
        if let Some(found) = random_candidate(board, &triples, difficulty, min_cross, max_cross, min_steps, max_steps) {
            return found;
        }
    }
    (Vec::new(), Vec::new(), 0)
}

} // verus!
