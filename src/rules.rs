use vstd::prelude::*;
use crate::board::Board;

verus! {

/// The flat index of (r, c), as an element of a position list.
pub open spec fn cell(b: &Board, r: int, c: int) -> usize {
    b.flat(r, c) as usize
}

/// Positions `s` cover three consecutive cells starting at (r, c), along the row or down
/// the column.
pub open spec fn line_at(b: &Board, s: Seq<usize>, r: int, c: int) -> bool {
    ||| (b.valid_rc(r, c) && b.valid_rc(r, c + 2) && s.contains(cell(b, r, c)) && s.contains(
        cell(b, r, c + 1),
    ) && s.contains(cell(b, r, c + 2)))
    ||| (b.valid_rc(r, c) && b.valid_rc(r + 1, c) && b.valid_rc(r + 2, c) && s.contains(
        cell(b, r, c),
    ) && s.contains(cell(b, r + 1, c)) && s.contains(cell(b, r + 2, c)))
}

/// Some three of the positions lie in consecutive cells of one row or one column.
pub open spec fn aligned(b: &Board, s: Seq<usize>) -> bool {
    exists|r: int, c: int| #[trigger] line_at(b, s, r, c)
}

/// Every position is a flat index of the board.
pub open spec fn on_board(b: &Board, s: Seq<usize>) -> bool {
    forall|i: int| 0 <= i < s.len() ==> #[trigger] s[i] < b.total_cells
}

/// (r, c) stops a cross: it is outside the playable cells or holds a cross.
pub open spec fn blocked(b: &Board, xs: Seq<usize>, r: int, c: int) -> bool {
    !b.present(r, c) || xs.contains(cell(b, r, c))
}

/// Crosses fill the 2x2 block whose top-left cell is (r, c).
pub open spec fn block_at(b: &Board, xs: Seq<usize>, r: int, c: int) -> bool {
    &&& b.valid_rc(r, c + 1)
    &&& b.valid_rc(r + 1, c + 1)
    &&& b.valid_rc(r + 1, c)
    &&& xs.contains(cell(b, r, c))
    &&& xs.contains(cell(b, r, c + 1))
    &&& xs.contains(cell(b, r + 1, c))
    &&& xs.contains(cell(b, r + 1, c + 1))
}

/// The board's boundary closes (r, c) on a vertical side and on a horizontal side.
pub open spec fn corner_at(b: &Board, r: int, c: int) -> bool {
    (!b.present(r - 1, c) || !b.present(r + 1, c)) && (!b.present(r, c - 1) || !b.present(r, c + 1))
}

/// Boundary or crosses close (r, c) on a vertical side and on a horizontal side.
pub open spec fn pinned_at(b: &Board, xs: Seq<usize>, r: int, c: int) -> bool {
    (blocked(b, xs, r - 1, c) || blocked(b, xs, r + 1, c)) && (blocked(b, xs, r, c - 1) || blocked(
        b,
        xs,
        r,
        c + 1,
    ))
}

/// The cross on flat index `f` can no longer be moved freely.
pub open spec fn stuck(b: &Board, xs: Seq<usize>, f: usize) -> bool {
    let (r, c) = b.pos_of(f as int);
    block_at(b, xs, r as int, c as int) || corner_at(b, r as int, c as int) || pinned_at(
        b,
        xs,
        r as int,
        c as int,
    )
}

/// Conservative unsolvability: some cross is stuck.
pub open spec fn deadlocked(b: &Board, xs: Seq<usize>) -> bool {
    exists|i: int| 0 <= i < xs.len() && #[trigger] stuck(b, xs, xs[i])
}

fn contains_pos(s: &[usize], x: usize) -> (b: bool)
    ensures
        b == s@.contains(x),
{
    let mut i: usize = 0;
    while i < s.len()
        invariant
            i <= s@.len(),
            forall|j: int| 0 <= j < i ==> s@[j] != x,
        decreases s@.len() - i,
    {
        if s[i] == x {
            return true;
        }
        i += 1;
    }
    false
}

/// Whether positions `s` hold a line starting at the cell (r, c).
fn line_starts_at(s: &[usize], board: &Board, r: usize, c: usize) -> (found: bool)
    requires
        board.wf(),
        board.valid_rc(r as int, c as int),
    ensures
        found == line_at(board, s@, r as int, c as int),
{
    let f = board.to_flat(r, c);
    if !contains_pos(s, f) {
        return false;
    }
    if c + 2 < board.row_widths[r] {
        proof {
            board.lemma_row_end(r as int);
        }
        if contains_pos(s, f + 1) && contains_pos(s, f + 2) {
            return true;
        }
    }
    if board.rows >= 3 && r < board.rows - 2 && c < board.row_widths[r + 1] && c < board.row_widths[r + 2] {
        let f1 = board.to_flat(r + 1, c);
        let f2 = board.to_flat(r + 2, c);
        if contains_pos(s, f1) && contains_pos(s, f2) {
            return true;
        }
    }
    false
}

/// Whether some position of `s` starts a line of three.
fn has_line(positions: &[usize], board: &Board) -> (found: bool)
    requires
        board.wf(),
        on_board(board, positions@),
    ensures
        found == aligned(board, positions@),
{
    let mut i: usize = 0;
    while i < positions.len()
        invariant
            board.wf(),
            on_board(board, positions@),
            i <= positions@.len(),
            forall|j: int|
                0 <= j < i ==> !line_at(
                    board,
                    positions@,
                    #[trigger] board.pos_of(positions@[j] as int).0 as int,
                    board.pos_of(positions@[j] as int).1 as int,
                ),
        decreases positions@.len() - i,
    {
        let (r, c) = board.from_flat(positions[i]);
        if line_starts_at(positions, board, r, c) {
            return true;
        }
        i += 1;
    }
    proof {
        assert forall|r: int, c: int| !#[trigger] line_at(board, positions@, r, c) by {
            if line_at(board, positions@, r, c) {
                board.lemma_flat_injective(r, c, r, c);
                assert(positions@.contains(cell(board, r, c)));
                let j = choose|j: int| 0 <= j < positions@.len() && positions@[j] == cell(board, r, c);
                board.lemma_pos_of_flat(r, c);
                assert(positions@[j] as int == board.flat(r, c));
                assert(board.pos_of(positions@[j] as int) == (r as usize, c as usize));
                assert(!line_at(
                    board,
                    positions@,
                    board.pos_of(positions@[j] as int).0 as int,
                    board.pos_of(positions@[j] as int).1 as int,
                ));
            }
        }
    }
    false
}

/// Whether three circles stand in consecutive cells of one row or one column.
pub fn is_win_flat(positions: &[usize], board: &Board) -> (won: bool)
    requires
        board.wf(),
        on_board(board, positions@),
    ensures
        won == aligned(board, positions@),
{
    has_line(positions, board)
}

/// Whether three crosses stand in consecutive cells of one row or one column.
pub fn check_lose_flat(crosses: &[usize], board: &Board) -> (lost: bool)
    requires
        board.wf(),
        on_board(board, crosses@),
    ensures
        lost == aligned(board, crosses@),
{
    has_line(crosses, board)
}

/// Whether the cell one unit step from (r, c) stops a cross.
fn blocked_side(crosses: &[usize], board: &Board, r: usize, c: usize, dr: isize, dc: isize) -> (b: bool)
    requires
        board.wf(),
        board.valid_rc(r as int, c as int),
        crate::board::is_unit_dir(dr, dc),
    ensures
        b == blocked(board, crosses@, r + dr, c + dc),
{
    match board.neighbor((r, c), dr, dc) {
        None => true,
        Some(n) => {
            let f = board.to_flat(n.0, n.1);
            contains_pos(crosses, f)
        },
    }
}

/// Whether the cross on (r, c) is stuck.
fn cross_stuck(crosses: &[usize], board: &Board, r: usize, c: usize) -> (b: bool)
    requires
        board.wf(),
        board.valid_rc(r as int, c as int),
    ensures
        b == (block_at(board, crosses@, r as int, c as int) || corner_at(board, r as int, c as int)
            || pinned_at(board, crosses@, r as int, c as int)),
{
    let up = blocked_side(crosses, board, r, c, -1, 0);
    let down = blocked_side(crosses, board, r, c, 1, 0);
    let left = blocked_side(crosses, board, r, c, 0, -1);
    let right = blocked_side(crosses, board, r, c, 0, 1);
    let wall_up = board.neighbor((r, c), -1, 0).is_none();
    let wall_down = board.neighbor((r, c), 1, 0).is_none();
    let wall_left = board.neighbor((r, c), 0, -1).is_none();
    let wall_right = board.neighbor((r, c), 0, 1).is_none();
    if (wall_up || wall_down) && (wall_left || wall_right) {
        return true;
    }
    if (up || down) && (left || right) {
        return true;
    }
    if c + 1 < board.row_widths[r] && r + 1 < board.rows && c + 1 < board.row_widths[r + 1] {
        let f = board.to_flat(r, c);
        let g = board.to_flat(r, c + 1);
        let h = board.to_flat(r + 1, c);
        let k = board.to_flat(r + 1, c + 1);
        if contains_pos(crosses, f) && contains_pos(crosses, g) && contains_pos(crosses, h)
            && contains_pos(crosses, k) {
            return true;
        }
    }
    false
}

/// Conservative deadlock detection: some cross fills a 2x2 block of crosses, sits in a
/// corner of the board, or is closed by boundary or crosses on a vertical and on a
/// horizontal side.
pub fn check_cross_deadlock(crosses: &[usize], board: &Board) -> (dead: bool)
    requires
        board.wf(),
        on_board(board, crosses@),
    ensures
        dead == deadlocked(board, crosses@),
{
    let mut i: usize = 0;
    while i < crosses.len()
        invariant
            board.wf(),
            on_board(board, crosses@),
            i <= crosses@.len(),
            forall|j: int| 0 <= j < i ==> !#[trigger] stuck(board, crosses@, crosses@[j]),
        decreases crosses@.len() - i,
    {
        let (r, c) = board.from_flat(crosses[i]);
        if cross_stuck(crosses, board, r, c) {
            assert(stuck(board, crosses@, crosses@[i as int]));
            return true;
        }
        i += 1;
    }
    false
}

} // verus!
