use vstd::prelude::*;
use crate::board::{Board, is_unit_dir};
use crate::movement::{forward, lemma_forward_undoes_reverse, markers_valid, occupied, relocate, reverse};
use crate::rules::{cell, on_board};

verus! {

/// Flat indices read as (row, column) pairs.
pub open spec fn rc_seq(b: &Board, s: Seq<usize>) -> Seq<(usize, usize)> {
    s.map_values(|f: usize| b.pos_of(f as int))
}

/// (row, column) pairs read as flat indices.
pub open spec fn flat_seq(b: &Board, s: Seq<(usize, usize)>) -> Seq<usize> {
    s.map_values(|p: (usize, usize)| cell(b, p.0 as int, p.1 as int))
}

/// Circles and crosses, as flat indices, lie on playable cells, none shared.
pub open spec fn puzzle_valid(b: &Board, circles: Seq<usize>, crosses: Seq<usize>) -> bool {
    &&& on_board(b, circles)
    &&& on_board(b, crosses)
    &&& markers_valid(b, rc_seq(b, circles), rc_seq(b, crosses))
}

/// The markers after playing `moves` forward with circle `p`, one after another.
pub open spec fn run(
    b: &Board,
    circles: Seq<(usize, usize)>,
    crosses: Seq<(usize, usize)>,
    p: int,
    moves: Seq<(isize, isize)>,
) -> (Seq<(usize, usize)>, Seq<(usize, usize)>)
    decreases moves.len(),
{
    if moves.len() == 0 {
        (circles, crosses)
    } else {
        let prev = run(b, circles, crosses, p, moves.drop_last());
        forward(b, prev.0, prev.1, p, moves.last().0 as int, moves.last().1 as int)
    }
}

pub open spec fn unit_moves(moves: Seq<(isize, isize)>) -> bool {
    forall|i: int| 0 <= i < moves.len() ==> is_unit_dir(#[trigger] moves[i].0, moves[i].1)
}

/// Some `n` forward moves of circle `p` put three circles in a line.
pub open spec fn wins_in(b: &Board, circles: Seq<usize>, crosses: Seq<usize>, p: int, n: nat) -> bool {
    exists|moves: Seq<(isize, isize)>|
        moves.len() == n && unit_moves(moves) && crate::rules::aligned(
            b,
            flat_seq(b, #[trigger] run(b, rc_seq(b, circles), rc_seq(b, crosses), p, moves).0),
        )
}

/// Some sequence of forward moves of circle `p` puts three circles in a line.
pub open spec fn can_win(b: &Board, circles: Seq<(usize, usize)>, crosses: Seq<(usize, usize)>, p: int) -> bool {
    exists|moves: Seq<(isize, isize)>|
        unit_moves(moves) && crate::rules::aligned(b, flat_seq(b, #[trigger] run(b, circles, crosses, p, moves).0))
}

/// The puzzle given by flat indices can be won.
pub open spec fn solvable(b: &Board, circles: Seq<usize>, crosses: Seq<usize>, p: int) -> bool {
    can_win(b, rc_seq(b, circles), rc_seq(b, crosses), p)
}

/// `a` and `c` hold the same elements.
pub open spec fn same_members(a: Seq<(usize, usize)>, c: Seq<(usize, usize)>) -> bool {
    forall|e: (usize, usize)| a.contains(e) <==> c.contains(e)
}

/// Ascending order.
pub open spec fn sorted(s: Seq<usize>) -> bool {
    forall|i: int, j: int| 0 <= i < j < s.len() ==> s[i] <= s[j]
}

/// Playing one more move extends a run by one forward step.
pub proof fn lemma_run_push(
    b: &Board,
    circles: Seq<(usize, usize)>,
    crosses: Seq<(usize, usize)>,
    p: int,
    moves: Seq<(isize, isize)>,
    m: (isize, isize),
)
    ensures
        run(b, circles, crosses, p, moves.push(m)) == forward(
            b,
            run(b, circles, crosses, p, moves).0,
            run(b, circles, crosses, p, moves).1,
            p,
            m.0 as int,
            m.1 as int,
        ),
{
    assert(moves.push(m).drop_last() =~= moves);
}

/// Playing a move first and then a sequence is playing the longer sequence.
pub proof fn lemma_run_prepend(
    b: &Board,
    circles: Seq<(usize, usize)>,
    crosses: Seq<(usize, usize)>,
    p: int,
    m: (isize, isize),
    moves: Seq<(isize, isize)>,
)
    ensures
        run(b, circles, crosses, p, seq![m] + moves) == run(
            b,
            forward(b, circles, crosses, p, m.0 as int, m.1 as int).0,
            forward(b, circles, crosses, p, m.0 as int, m.1 as int).1,
            p,
            moves,
        ),
    decreases moves.len(),
{
    let f = forward(b, circles, crosses, p, m.0 as int, m.1 as int);
    if moves.len() == 0 {
        assert(seq![m] + moves =~= seq![m]);
        assert(seq![m].drop_last() =~= Seq::<(isize, isize)>::empty());
        assert(run(b, circles, crosses, p, Seq::<(isize, isize)>::empty()) == (circles, crosses));
        assert(run(b, circles, crosses, p, seq![m]) == f);
        assert(run(b, f.0, f.1, p, moves) == f);
    } else {
        lemma_run_prepend(b, circles, crosses, p, m, moves.drop_last());
        let longer = seq![m] + moves;
        assert(longer.drop_last() =~= seq![m] + moves.drop_last());
        assert(longer.last() == moves.last());
        let prev = run(b, f.0, f.1, p, moves.drop_last());
        assert(run(b, circles, crosses, p, longer) == forward(
            b,
            prev.0,
            prev.1,
            p,
            moves.last().0 as int,
            moves.last().1 as int,
        ));
    }
}

/// A reverse step from a position that can be won leads to a position that can be won:
/// the forward step in the opposite direction comes back.
pub proof fn lemma_reverse_keeps_can_win(
    b: &Board,
    circles: Seq<(usize, usize)>,
    crosses: Seq<(usize, usize)>,
    p: int,
    dr: isize,
    dc: isize,
)
    requires
        b.wf(),
        markers_valid(b, circles, crosses),
        0 <= p < circles.len(),
        is_unit_dir(dr, dc),
        can_win(b, circles, crosses, p),
    ensures
        can_win(
            b,
            reverse(b, circles, crosses, p, dr as int, dc as int).0,
            reverse(b, circles, crosses, p, dr as int, dc as int).1,
            p,
        ),
{
    let after = reverse(b, circles, crosses, p, dr as int, dc as int);
    if after != (circles, crosses) {
        lemma_forward_undoes_reverse(b, circles, crosses, p, dr as int, dc as int);
        let moves = choose|moves: Seq<(isize, isize)>|
            unit_moves(moves) && crate::rules::aligned(b, flat_seq(b, #[trigger] run(b, circles, crosses, p, moves).0));
        let m: (isize, isize) = ((0 - dr) as isize, (0 - dc) as isize);
        lemma_run_prepend(b, after.0, after.1, p, m, moves);
        let m2 = seq![m] + moves;
        assert(unit_moves(m2)) by {
            assert forall|i: int| 0 <= i < m2.len() implies is_unit_dir(#[trigger] m2[i].0, m2[i].1) by {
                if i > 0 {
                    assert(m2[i] == moves[i - 1]);
                }
            }
        }
        assert(run(b, after.0, after.1, p, m2) == run(b, circles, crosses, p, moves));
    }
}

/// What `relocate` holds.
pub proof fn lemma_relocate_contains(s: Seq<(usize, usize)>, from: (usize, usize), to: (usize, usize), e: (usize, usize))
    ensures
        relocate(s, from, to).contains(e) <==> ((e == to && s.contains(from)) || (s.contains(e) && e != from)),
{
    let t = relocate(s, from, to);
    if t.contains(e) {
        let i = choose|i: int| 0 <= i < t.len() && t[i] == e;
        if s[i] == from {
            assert(s.contains(from));
        } else {
            assert(s.contains(e));
        }
    }
    if e == to && s.contains(from) {
        let i = choose|i: int| 0 <= i < s.len() && s[i] == from;
        assert(t[i] == e);
    }
    if s.contains(e) && e != from {
        let i = choose|i: int| 0 <= i < s.len() && s[i] == e;
        assert(t[i] == e);
    }
}

/// A forward step moves the circles the same way whatever the order of the crosses, and
/// leaves crosses with the same members.
pub proof fn lemma_forward_same_members(
    b: &Board,
    circles: Seq<(usize, usize)>,
    x1: Seq<(usize, usize)>,
    x2: Seq<(usize, usize)>,
    p: int,
    dr: int,
    dc: int,
)
    requires
        same_members(x1, x2),
    ensures
        forward(b, circles, x1, p, dr, dc).0 == forward(b, circles, x2, p, dr, dc).0,
        same_members(forward(b, circles, x1, p, dr, dc).1, forward(b, circles, x2, p, dr, dc).1),
{
    assert forall|e: (usize, usize)| occupied(circles, x1, e) == occupied(circles, x2, e) by {
        assert(x1.contains(e) <==> x2.contains(e));
    }
    let dest = b.step(circles[p], dr, dc);
    if dest is Some {
        let d = dest->0;
        let target = b.step(d, dr, dc);
        if target is Some {
            let t = target->0;
            assert forall|e: (usize, usize)| relocate(x1, d, t).contains(e) <==> relocate(x2, d, t).contains(e) by {
                lemma_relocate_contains(x1, d, t, e);
                lemma_relocate_contains(x2, d, t, e);
                assert(x1.contains(e) <==> x2.contains(e));
                assert(x1.contains(d) <==> x2.contains(d));
            }
        }
    }
}

/// Playing moves, the circles end the same whatever the order of the crosses.
pub proof fn lemma_run_same_members(
    b: &Board,
    circles: Seq<(usize, usize)>,
    x1: Seq<(usize, usize)>,
    x2: Seq<(usize, usize)>,
    p: int,
    moves: Seq<(isize, isize)>,
)
    requires
        same_members(x1, x2),
    ensures
        run(b, circles, x1, p, moves).0 == run(b, circles, x2, p, moves).0,
        same_members(run(b, circles, x1, p, moves).1, run(b, circles, x2, p, moves).1),
    decreases moves.len(),
{
    if moves.len() > 0 {
        lemma_run_same_members(b, circles, x1, x2, p, moves.drop_last());
        let r1 = run(b, circles, x1, p, moves.drop_last());
        let r2 = run(b, circles, x2, p, moves.drop_last());
        lemma_forward_same_members(b, r1.0, r1.1, r2.1, p, moves.last().0 as int, moves.last().1 as int);
    }
}

/// A winnable position stays winnable when its crosses are listed in another order.
pub proof fn lemma_can_win_reordered(
    b: &Board,
    circles: Seq<(usize, usize)>,
    x1: Seq<(usize, usize)>,
    x2: Seq<(usize, usize)>,
    p: int,
)
    requires
        same_members(x1, x2),
        can_win(b, circles, x1, p),
    ensures
        can_win(b, circles, x2, p),
{
    let moves = choose|moves: Seq<(isize, isize)>|
        unit_moves(moves) && crate::rules::aligned(b, flat_seq(b, #[trigger] run(b, circles, x1, p, moves).0));
    lemma_run_same_members(b, circles, x1, x2, p, moves);
    assert(run(b, circles, x2, p, moves).0 == run(b, circles, x1, p, moves).0);
}

/// Flat index lists with the same elements read as cell lists with the same members.
pub proof fn lemma_rc_same_members(b: &Board, f1: Seq<usize>, f2: Seq<usize>)
    requires
        f1.to_multiset() == f2.to_multiset(),
    ensures
        same_members(rc_seq(b, f1), rc_seq(b, f2)),
{
    f1.to_multiset_ensures();
    f2.to_multiset_ensures();
    assert forall|e: (usize, usize)| rc_seq(b, f1).contains(e) implies rc_seq(b, f2).contains(e) by {
        let i = choose|i: int| 0 <= i < f1.len() && rc_seq(b, f1)[i] == e;
        assert(f1.contains(f1[i]));
        assert(f1.to_multiset().count(f1[i]) > 0);
        assert(f2.contains(f1[i]));
        let j = choose|j: int| 0 <= j < f2.len() && f2[j] == f1[i];
        assert(rc_seq(b, f2)[j] == e);
    }
    assert forall|e: (usize, usize)| rc_seq(b, f2).contains(e) implies rc_seq(b, f1).contains(e) by {
        let i = choose|i: int| 0 <= i < f2.len() && rc_seq(b, f2)[i] == e;
        assert(f2.contains(f2[i]));
        assert(f2.to_multiset().count(f2[i]) > 0);
        assert(f1.contains(f2[i]));
        let j = choose|j: int| 0 <= j < f1.len() && f1[j] == f2[i];
        assert(rc_seq(b, f1)[j] == e);
    }
}

/// Reading valid cells as flat indices and back gives the cells again.
pub proof fn lemma_flat_round_trip(b: &Board, s: Seq<(usize, usize)>)
    requires
        b.wf(),
        forall|i: int| 0 <= i < s.len() ==> b.valid_rc(#[trigger] s[i].0 as int, s[i].1 as int),
    ensures
        rc_seq(b, flat_seq(b, s)) == s,
        on_board(b, flat_seq(b, s)),
{
    assert forall|i: int| 0 <= i < s.len() implies #[trigger] rc_seq(b, flat_seq(b, s))[i] == s[i]
        && flat_seq(b, s)[i] < b.total_cells by {
        b.lemma_flat_injective(s[i].0 as int, s[i].1 as int, s[i].0 as int, s[i].1 as int);
        b.lemma_pos_of_flat(s[i].0 as int, s[i].1 as int);
    }
    assert(rc_seq(b, flat_seq(b, s)) =~= s);
}

/// Reordering the crosses keeps a puzzle valid.
pub proof fn lemma_valid_reordered(b: &Board, circles: Seq<usize>, crosses: Seq<usize>, crosses2: Seq<usize>)
    requires
        b.wf(),
        puzzle_valid(b, circles, crosses),
        crosses2.to_multiset() == crosses.to_multiset(),
    ensures
        puzzle_valid(b, circles, crosses2),
        crosses2.len() == crosses.len(),
{
    crosses.to_multiset_ensures();
    crosses2.to_multiset_ensures();
    let xr = rc_seq(b, crosses);
    let xr2 = rc_seq(b, crosses2);
    let cr = rc_seq(b, circles);
    assert forall|i: int| 0 <= i < crosses2.len() implies exists|j: int|
        0 <= j < crosses.len() && crosses[j] == #[trigger] crosses2[i] by {
        assert(crosses2.contains(crosses2[i]));
        assert(crosses2.to_multiset().count(crosses2[i]) > 0);
        assert(crosses.to_multiset().count(crosses2[i]) > 0);
        assert(crosses.contains(crosses2[i]));
    }
    assert forall|i: int| 0 <= i < crosses2.len() implies #[trigger] crosses2[i] < b.total_cells by {
        let j = choose|j: int| 0 <= j < crosses.len() && crosses[j] == crosses2[i];
        assert(crosses[j] < b.total_cells);
    }
    assert forall|i: int| 0 <= i < xr2.len() implies b.present_pos(#[trigger] xr2[i]) by {
        let j = choose|j: int| 0 <= j < crosses.len() && crosses[j] == crosses2[i];
        assert(xr[j] == xr2[i]);
    }
    assert forall|i: int, j: int| 0 <= i < cr.len() && 0 <= j < xr2.len() implies #[trigger] cr[i]
        != #[trigger] xr2[j] by {
        let k = choose|k: int| 0 <= k < crosses.len() && crosses[k] == crosses2[j];
        assert(xr[k] == xr2[j]);
    }
    assert(crosses.no_duplicates()) by {
        assert forall|i: int, j: int| 0 <= i < crosses.len() && 0 <= j < crosses.len() && i != j
            implies crosses[i] != crosses[j] by {
            assert(xr[i] != xr[j]);
        }
    }
    crosses.lemma_multiset_has_no_duplicates();
    crosses2.lemma_multiset_has_no_duplicates_conv();
    assert forall|i: int, j: int| 0 <= i < xr2.len() && 0 <= j < xr2.len() && i != j implies #[trigger] xr2[i]
        != #[trigger] xr2[j] by {
        b.lemma_pos_of(crosses2[i] as int);
        b.lemma_pos_of(crosses2[j] as int);
    }
}

/// Flat indices of playable cells, none repeated and none shared, make a valid puzzle.
pub proof fn lemma_puzzle_valid_intro(b: &Board, circles: Seq<usize>, crosses: Seq<usize>)
    requires
        b.wf(),
        forall|i: int| 0 <= i < circles.len() ==> #[trigger] circles[i] < b.total_cells && b.cells@[circles[i] as int],
        forall|i: int| 0 <= i < crosses.len() ==> #[trigger] crosses[i] < b.total_cells && b.cells@[crosses[i] as int],
        circles.no_duplicates(),
        crosses.no_duplicates(),
        forall|i: int, j: int| 0 <= i < circles.len() && 0 <= j < crosses.len() ==> #[trigger] circles[i] != #[trigger] crosses[j],
    ensures
        puzzle_valid(b, circles, crosses),
{
    assert forall|f: usize| f < b.total_cells implies {
        let p = #[trigger] b.pos_of(f as int);
        b.valid_rc(p.0 as int, p.1 as int) && b.flat(p.0 as int, p.1 as int) == f
    } by {
        b.lemma_pos_of(f as int);
    }
    let cr = rc_seq(b, circles);
    let xr = rc_seq(b, crosses);
    assert forall|i: int| 0 <= i < cr.len() implies b.present_pos(#[trigger] cr[i]) by {
        assert(b.pos_of(circles[i] as int) == cr[i]);
    }
    assert forall|i: int| 0 <= i < xr.len() implies b.present_pos(#[trigger] xr[i]) by {
        assert(b.pos_of(crosses[i] as int) == xr[i]);
    }
    assert forall|i: int, j: int| 0 <= i < cr.len() && 0 <= j < cr.len() && i != j implies #[trigger] cr[i]
        != #[trigger] cr[j] by {
        assert(b.pos_of(circles[i] as int) == cr[i]);
        assert(b.pos_of(circles[j] as int) == cr[j]);
    }
    assert forall|i: int, j: int| 0 <= i < xr.len() && 0 <= j < xr.len() && i != j implies #[trigger] xr[i]
        != #[trigger] xr[j] by {
        assert(b.pos_of(crosses[i] as int) == xr[i]);
        assert(b.pos_of(crosses[j] as int) == xr[j]);
    }
    assert forall|i: int, j: int| 0 <= i < cr.len() && 0 <= j < xr.len() implies #[trigger] cr[i]
        != #[trigger] xr[j] by {
        assert(b.pos_of(circles[i] as int) == cr[i]);
        assert(b.pos_of(crosses[j] as int) == xr[j]);
    }
}

/// The flat index of a playable cell is that of a playable cell on the board.
proof fn lemma_flat_present(b: &Board, p: (usize, usize))
    requires
        b.wf(),
        b.present_pos(p),
    ensures
        cell(b, p.0 as int, p.1 as int) < b.total_cells,
        b.cells@[cell(b, p.0 as int, p.1 as int) as int],
{
    b.lemma_flat_injective(p.0 as int, p.1 as int, p.0 as int, p.1 as int);
}

/// Distinct playable cells have distinct flat indices of playable cells.
pub proof fn lemma_flats_of_valid(b: &Board, s: Seq<(usize, usize)>)
    requires
        b.wf(),
        forall|i: int| 0 <= i < s.len() ==> b.present_pos(#[trigger] s[i]),
        forall|i: int, j: int| 0 <= i < s.len() && 0 <= j < s.len() && i != j ==> #[trigger] s[i] != #[trigger] s[j],
    ensures
        flat_seq(b, s).no_duplicates(),
        forall|i: int| 0 <= i < s.len() ==> #[trigger] flat_seq(b, s)[i] < b.total_cells && b.cells@[flat_seq(b, s)[i] as int],
{
    let fs = flat_seq(b, s);
    assert forall|i: int| 0 <= i < s.len() implies #[trigger] fs[i] < b.total_cells && b.cells@[fs[i] as int] by {
        lemma_flat_present(b, s[i]);
    }
    assert forall|i: int, j: int| 0 <= i < fs.len() && 0 <= j < fs.len() && i != j implies fs[i] != fs[j] by {
        lemma_flat_distinct(b, s[i], s[j]);
    }
}

proof fn lemma_flat_distinct(b: &Board, p: (usize, usize), q: (usize, usize))
    requires
        b.wf(),
        b.present_pos(p),
        b.present_pos(q),
        p != q,
    ensures
        cell(b, p.0 as int, p.1 as int) != cell(b, q.0 as int, q.1 as int),
{
    b.lemma_flat_injective(p.0 as int, p.1 as int, q.0 as int, q.1 as int);
    b.lemma_flat_injective(p.0 as int, p.1 as int, p.0 as int, p.1 as int);
    b.lemma_flat_injective(q.0 as int, q.1 as int, q.0 as int, q.1 as int);
}

/// Whether circles and crosses, as flat indices, lie on playable cells with no cell
/// shared by two markers.
pub fn is_valid_puzzle(board: &Board, circles: &[usize], crosses: &[usize]) -> (ok: bool)
    requires
        board.wf(),
    ensures
        ok == puzzle_valid(board, circles@, crosses@),
{
    let all = concat_flats(circles, crosses);
    let mut i: usize = 0;
    while i < all.len()
        invariant
            board.wf(),
            all@ == circles@ + crosses@,
            i <= all@.len(),
            forall|a: int| 0 <= a < i ==> #[trigger] all@[a] < board.total_cells && board.cells@[all@[a] as int],
            forall|a: int, b: int| 0 <= a < i && 0 <= b < all@.len() && a != b ==> #[trigger] all@[a] != #[trigger] all@[b],
        decreases all@.len() - i,
    {
        let f = all[i];
        if f >= board.total_cells || !board.cells[f] {
            proof {
                lemma_invalid_flat(board, circles@, crosses@, i as int);
            }
            return false;
        }
        let mut j: usize = 0;
        while j < all.len()
            invariant
                board.wf(),
                all@ == circles@ + crosses@,
                i < all@.len(),
                f == all@[i as int],
                j <= all@.len(),
                forall|b: int| 0 <= b < j && b != i ==> all@[b] != f,
            decreases all@.len() - j,
        {
            if j != i && all[j] == f {
                proof {
                    lemma_repeated_flat(board, circles@, crosses@, i as int, j as int);
                }
                return false;
            }
            j += 1;
        }
        i += 1;
    }
    proof {
        assert forall|a: int| 0 <= a < circles@.len() implies #[trigger] circles@[a] < board.total_cells
            && board.cells@[circles@[a] as int] by {
            assert(all@[a] == circles@[a]);
        }
        assert forall|a: int| 0 <= a < crosses@.len() implies #[trigger] crosses@[a] < board.total_cells
            && board.cells@[crosses@[a] as int] by {
            assert(all@[circles@.len() + a] == crosses@[a]);
        }
        assert forall|a: int, b: int| 0 <= a < circles@.len() && 0 <= b < circles@.len() && a != b implies circles@[a]
            != circles@[b] by {
            assert(all@[a] == circles@[a] && all@[b] == circles@[b]);
        }
        assert forall|a: int, b: int| 0 <= a < crosses@.len() && 0 <= b < crosses@.len() && a != b implies crosses@[a]
            != crosses@[b] by {
            assert(all@[circles@.len() + a] == crosses@[a] && all@[circles@.len() + b] == crosses@[b]);
        }
        assert forall|a: int, b: int| 0 <= a < circles@.len() && 0 <= b < crosses@.len() implies #[trigger] circles@[a]
            != #[trigger] crosses@[b] by {
            assert(all@[a] == circles@[a] && all@[circles@.len() + b] == crosses@[b]);
        }
        lemma_puzzle_valid_intro(board, circles@, crosses@);
    }
    true
}

/// Circles followed by crosses.
pub(crate) fn concat_flats(circles: &[usize], crosses: &[usize]) -> (all: Vec<usize>)
    ensures
        all@ == circles@ + crosses@,
{
    let mut all: Vec<usize> = Vec::new();
    let mut i: usize = 0;
    while i < circles.len()
        invariant
            i <= circles@.len(),
            all@ == circles@.subrange(0, i as int),
        decreases circles@.len() - i,
    {
        all.push(circles[i]);
        i += 1;
        assert(all@ =~= circles@.subrange(0, i as int));
    }
    let mut j: usize = 0;
    while j < crosses.len()
        invariant
            j <= crosses@.len(),
            all@ == circles@ + crosses@.subrange(0, j as int),
        decreases crosses@.len() - j,
    {
        all.push(crosses[j]);
        j += 1;
        assert(all@ =~= circles@ + crosses@.subrange(0, j as int));
    }
    assert(crosses@.subrange(0, j as int) =~= crosses@);
    all
}

/// A marker off the board or on a hole makes a puzzle invalid.
proof fn lemma_invalid_flat(b: &Board, circles: Seq<usize>, crosses: Seq<usize>, i: int)
    requires
        b.wf(),
        0 <= i < circles.len() + crosses.len(),
        (circles + crosses)[i] >= b.total_cells || !b.cells@[(circles + crosses)[i] as int],
    ensures
        !puzzle_valid(b, circles, crosses),
{
    let f = (circles + crosses)[i];
    if puzzle_valid(b, circles, crosses) {
        if i < circles.len() {
            assert(circles[i] == f);
            b.lemma_pos_of(f as int);
            assert(b.present_pos(rc_seq(b, circles)[i]));
        } else {
            assert(crosses[i - circles.len()] == f);
            b.lemma_pos_of(f as int);
            assert(b.present_pos(rc_seq(b, crosses)[i - circles.len()]));
        }
    }
}

/// Two markers on one cell make a puzzle invalid.
proof fn lemma_repeated_flat(b: &Board, circles: Seq<usize>, crosses: Seq<usize>, i: int, j: int)
    requires
        b.wf(),
        0 <= i < circles.len() + crosses.len(),
        0 <= j < circles.len() + crosses.len(),
        i != j,
        (circles + crosses)[i] == (circles + crosses)[j],
    ensures
        !puzzle_valid(b, circles, crosses),
{
    let n = circles.len() as int;
    let cr = rc_seq(b, circles);
    let xr = rc_seq(b, crosses);
    if puzzle_valid(b, circles, crosses) {
        if i < n && j < n {
            assert(cr[i] == cr[j]);
        } else if i >= n && j >= n {
            assert(xr[i - n] == xr[j - n]);
        } else if i < n {
            assert(cr[i] == xr[j - n]);
        } else {
            assert(cr[j] == xr[i - n]);
        }
    }
}

/// Flat indices read as (row, column) pairs.
pub(crate) fn positions_of(board: &Board, flats: &[usize]) -> (ps: Vec<(usize, usize)>)
    requires
        board.wf(),
        on_board(board, flats@),
    ensures
        ps@ == rc_seq(board, flats@),
{
    let mut ps: Vec<(usize, usize)> = Vec::new();
    let mut i: usize = 0;
    while i < flats.len()
        invariant
            board.wf(),
            on_board(board, flats@),
            i <= flats@.len(),
            ps@ == rc_seq(board, flats@.subrange(0, i as int)),
        decreases flats@.len() - i,
    {
        let p = board.from_flat(flats[i]);
        ps.push(p);
        i += 1;
        assert(rc_seq(board, flats@.subrange(0, i as int)) =~= ps@);
    }
    assert(flats@.subrange(0, i as int) =~= flats@);
    ps
}

/// (row, column) pairs read as flat indices.
pub(crate) fn flats_of(board: &Board, ps: &[(usize, usize)]) -> (fs: Vec<usize>)
    requires
        board.wf(),
        forall|i: int| 0 <= i < ps@.len() ==> board.valid_rc(#[trigger] ps@[i].0 as int, ps@[i].1 as int),
    ensures
        fs@ == flat_seq(board, ps@),
        on_board(board, fs@),
        rc_seq(board, fs@) == ps@,
{
    proof {
        lemma_flat_round_trip(board, ps@);
    }
    let mut fs: Vec<usize> = Vec::new();
    let mut i: usize = 0;
    while i < ps.len()
        invariant
            board.wf(),
            forall|i: int| 0 <= i < ps@.len() ==> board.valid_rc(#[trigger] ps@[i].0 as int, ps@[i].1 as int),
            i <= ps@.len(),
            fs@ == flat_seq(board, ps@.subrange(0, i as int)),
        decreases ps@.len() - i,
    {
        let p = ps[i];
        let f = board.to_flat(p.0, p.1);
        fs.push(f);
        i += 1;
        assert(flat_seq(board, ps@.subrange(0, i as int)) =~= fs@);
    }
    assert(ps@.subrange(0, i as int) =~= ps@);
    fs
}

/// A copy of a list of cells.
pub(crate) fn copy_positions(ps: &[(usize, usize)]) -> (out: Vec<(usize, usize)>)
    ensures
        out@ == ps@,
{
    let mut out: Vec<(usize, usize)> = Vec::new();
    let mut i: usize = 0;
    while i < ps.len()
        invariant
            i <= ps@.len(),
            out@ == ps@.subrange(0, i as int),
        decreases ps@.len() - i,
    {
        out.push(ps[i]);
        i += 1;
        assert(out@ =~= ps@.subrange(0, i as int));
    }
    assert(ps@.subrange(0, i as int) =~= ps@);
    out
}

/// Whether two lists of cells are equal.
pub(crate) fn same_positions(a: &[(usize, usize)], b: &[(usize, usize)]) -> (eq: bool)
    ensures
        eq == (a@ == b@),
{
    if a.len() != b.len() {
        return false;
    }
    let mut i: usize = 0;
    while i < a.len()
        invariant
            a@.len() == b@.len(),
            i <= a@.len(),
            forall|j: int| 0 <= j < i ==> a@[j] == b@[j],
        decreases a@.len() - i,
    {
        if a[i].0 != b[i].0 || a[i].1 != b[i].1 {
            return false;
        }
        i += 1;
    }
    assert(a@ =~= b@);
    true
}

/// Relies on `slice::sort_unstable`: the elements come out in ascending order, the same
/// elements as went in.
#[verifier::external_body]
pub(crate) fn sort_flats(v: &mut Vec<usize>)
    ensures
        final(v)@.to_multiset() == old(v)@.to_multiset(),
        sorted(final(v)@),
{
    v.sort_unstable();
}

} // verus!
