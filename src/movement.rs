use vstd::prelude::*;
use crate::board::{Board, is_unit_dir};

verus! {

/// Some marker, circle or cross, stands on `p`.
pub open spec fn occupied(circles: Seq<(usize, usize)>, crosses: Seq<(usize, usize)>, p: (usize, usize)) -> bool {
    circles.contains(p) || crosses.contains(p)
}

/// Every marker that stands on `from` moves to `to`; the others stay.
pub open spec fn relocate(s: Seq<(usize, usize)>, from: (usize, usize), to: (usize, usize)) -> Seq<(usize, usize)> {
    Seq::new(s.len(), |i: int| if s[i] == from { to } else { s[i] })
}

/// Every marker stands on a playable cell and no two markers share a cell.
pub open spec fn markers_valid(b: &Board, circles: Seq<(usize, usize)>, crosses: Seq<(usize, usize)>) -> bool {
    &&& forall|i: int| 0 <= i < circles.len() ==> b.present_pos(#[trigger] circles[i])
    &&& forall|i: int| 0 <= i < crosses.len() ==> b.present_pos(#[trigger] crosses[i])
    &&& forall|i: int, j: int|
        0 <= i < circles.len() && 0 <= j < circles.len() && i != j ==> #[trigger] circles[i]
            != #[trigger] circles[j]
    &&& forall|i: int, j: int|
        0 <= i < crosses.len() && 0 <= j < crosses.len() && i != j ==> #[trigger] crosses[i]
            != #[trigger] crosses[j]
    &&& forall|i: int, j: int|
        0 <= i < circles.len() && 0 <= j < crosses.len() ==> #[trigger] circles[i]
            != #[trigger] crosses[j]
}

/// One forward (play) step of circle `p` in direction (dr, dc): a step onto a free cell,
/// or a push of the single marker in the way onto the free cell behind it; otherwise
/// nothing changes.
pub open spec fn forward(
    b: &Board,
    circles: Seq<(usize, usize)>,
    crosses: Seq<(usize, usize)>,
    p: int,
    dr: int,
    dc: int,
) -> (Seq<(usize, usize)>, Seq<(usize, usize)>) {
    let dest = b.step(circles[p], dr, dc);
    if dest is None {
        (circles, crosses)
    } else if !occupied(circles, crosses, dest->0) {
        (circles.update(p, dest->0), crosses)
    } else {
        let target = b.step(dest->0, dr, dc);
        if target is Some && !occupied(circles, crosses, target->0) {
            (
                relocate(circles, dest->0, target->0).update(p, dest->0),
                relocate(crosses, dest->0, target->0),
            )
        } else {
            (circles, crosses)
        }
    }
}

/// One reverse (pull) step of circle `p` in direction (dr, dc): the player advances onto a
/// free playable cell and drags the marker from behind it, if any, into the cell it left.
pub open spec fn reverse(
    b: &Board,
    circles: Seq<(usize, usize)>,
    crosses: Seq<(usize, usize)>,
    p: int,
    dr: int,
    dc: int,
) -> (Seq<(usize, usize)>, Seq<(usize, usize)>) {
    let pos = circles[p];
    let fwd = b.step(pos, dr, dc);
    if fwd is None || occupied(circles, crosses, fwd->0) {
        (circles, crosses)
    } else {
        let src = b.step(pos, -dr, -dc);
        if src is Some && occupied(circles, crosses, src->0) {
            (relocate(circles, src->0, pos).update(p, fwd->0), relocate(crosses, src->0, pos))
        } else {
            (circles.update(p, fwd->0), crosses)
        }
    }
}

/// A forward step keeps every marker on a playable cell and no two on one cell.
pub proof fn lemma_forward_keeps_markers_valid(
    b: &Board,
    circles: Seq<(usize, usize)>,
    crosses: Seq<(usize, usize)>,
    p: int,
    dr: int,
    dc: int,
)
    requires
        b.wf(),
        markers_valid(b, circles, crosses),
        0 <= p < circles.len(),
        is_unit_dir(dr as isize, dc as isize),
        -1 <= dr <= 1,
        -1 <= dc <= 1,
    ensures
        markers_valid(b, forward(b, circles, crosses, p, dr, dc).0, forward(b, circles, crosses, p, dr, dc).1),
        forward(b, circles, crosses, p, dr, dc).0.len() == circles.len(),
        forward(b, circles, crosses, p, dr, dc).1.len() == crosses.len(),
{
    let pos = circles[p];
    let dest = b.step(pos, dr, dc);
    if dest is Some {
        let d = dest->0;
        if !occupied(circles, crosses, d) {
            let c1 = circles.update(p, d);
            assert forall|i: int, j: int| 0 <= i < c1.len() && 0 <= j < crosses.len() implies c1[i] != crosses[j] by {
                if i == p {
                    assert(crosses.contains(crosses[j]));
                }
            }
            assert forall|i: int, j: int| 0 <= i < c1.len() && 0 <= j < c1.len() && i != j implies c1[i] != c1[j] by {
                if i == p {
                    assert(circles.contains(circles[j]));
                } else if j == p {
                    assert(circles.contains(circles[i]));
                }
            }
        } else {
            let target = b.step(d, dr, dc);
            if target is Some && !occupied(circles, crosses, target->0) {
                let t = target->0;
                let c1 = relocate(circles, d, t).update(p, d);
                let x1 = relocate(crosses, d, t);
                assert forall|i: int| 0 <= i < circles.len() implies circles[i] != t by {
                    assert(circles.contains(circles[i]));
                }
                assert forall|i: int| 0 <= i < crosses.len() implies crosses[i] != t by {
                    assert(crosses.contains(crosses[i]));
                }
                assert(d != pos);
                assert forall|i: int, j: int| 0 <= i < c1.len() && 0 <= j < x1.len() implies c1[i] != x1[j] by {}
                assert forall|i: int, j: int| 0 <= i < c1.len() && 0 <= j < c1.len() && i != j implies c1[i] != c1[j] by {}
                assert forall|i: int, j: int| 0 <= i < x1.len() && 0 <= j < x1.len() && i != j implies x1[i] != x1[j] by {}
            }
        }
    }
}

/// A reverse step keeps every marker on a playable cell and no two on one cell.
pub proof fn lemma_reverse_keeps_markers_valid(
    b: &Board,
    circles: Seq<(usize, usize)>,
    crosses: Seq<(usize, usize)>,
    p: int,
    dr: int,
    dc: int,
)
    requires
        b.wf(),
        markers_valid(b, circles, crosses),
        0 <= p < circles.len(),
        -1 <= dr <= 1,
        -1 <= dc <= 1,
        dr != 0 || dc != 0,
    ensures
        markers_valid(b, reverse(b, circles, crosses, p, dr, dc).0, reverse(b, circles, crosses, p, dr, dc).1),
        reverse(b, circles, crosses, p, dr, dc).0.len() == circles.len(),
        reverse(b, circles, crosses, p, dr, dc).1.len() == crosses.len(),
{
    let pos = circles[p];
    let fwd = b.step(pos, dr, dc);
    if !(fwd is None || occupied(circles, crosses, fwd->0)) {
        let f = fwd->0;
        assert forall|i: int| 0 <= i < circles.len() implies circles[i] != f by {
            assert(circles.contains(circles[i]));
        }
        assert forall|i: int| 0 <= i < crosses.len() implies crosses[i] != f by {
            assert(crosses.contains(crosses[i]));
        }
        let src = b.step(pos, -dr, -dc);
        if src is Some && occupied(circles, crosses, src->0) {
            let s = src->0;
            let c1 = relocate(circles, s, pos).update(p, f);
            let x1 = relocate(crosses, s, pos);
            assert(s != pos);
            assert forall|i: int, j: int| 0 <= i < c1.len() && 0 <= j < x1.len() implies c1[i] != x1[j] by {}
            assert forall|i: int, j: int| 0 <= i < c1.len() && 0 <= j < c1.len() && i != j implies c1[i] != c1[j] by {}
            assert forall|i: int, j: int| 0 <= i < x1.len() && 0 <= j < x1.len() && i != j implies x1[i] != x1[j] by {}
        } else {
            let c1 = circles.update(p, f);
            assert forall|i: int, j: int| 0 <= i < c1.len() && 0 <= j < c1.len() && i != j implies c1[i] != c1[j] by {}
        }
    }
}

proof fn lemma_forward_undoes_pull(
    b: &Board,
    circles: Seq<(usize, usize)>,
    crosses: Seq<(usize, usize)>,
    p: int,
    dr: int,
    dc: int,
    f: (usize, usize),
    s: (usize, usize),
)
    requires
        b.wf(),
        markers_valid(b, circles, crosses),
        0 <= p < circles.len(),
        -1 <= dr <= 1,
        -1 <= dc <= 1,
        dr != 0 || dc != 0,
        b.step(circles[p], dr, dc) == Some(f),
        !occupied(circles, crosses, f),
        b.step(circles[p], -dr, -dc) == Some(s),
        occupied(circles, crosses, s),
    ensures
        forward(
            b,
            relocate(circles, s, circles[p]).update(p, f),
            relocate(crosses, s, circles[p]),
            p,
            -dr,
            -dc,
        ) == (circles, crosses),
{
    let pos = circles[p];
    let c1 = relocate(circles, s, pos).update(p, f);
    let x1 = relocate(crosses, s, pos);
    assert(circles.contains(pos));
    assert(b.step(f, -dr, -dc) == Some(pos));
    assert(s != pos && s != f);
    if circles.contains(s) {
        let k = choose|k: int| 0 <= k < circles.len() && circles[k] == s;
        assert(c1[k] == pos);
        assert(c1.contains(pos));
    } else {
        let k = choose|k: int| 0 <= k < crosses.len() && crosses[k] == s;
        assert(x1[k] == pos);
        assert(x1.contains(pos));
    }
    assert forall|i: int| 0 <= i < c1.len() implies c1[i] != s by {}
    assert forall|i: int| 0 <= i < x1.len() implies x1[i] != s by {}
    assert(!occupied(c1, x1, s));
    let c2 = relocate(c1, pos, s).update(p, pos);
    let x2 = relocate(x1, pos, s);
    assert(forward(b, c1, x1, p, -dr, -dc) == (c2, x2));
    assert forall|j: int| 0 <= j < crosses.len() implies crosses[j] != pos by {
        assert(circles[p] == pos);
    }
    assert(c2 =~= circles);
    assert(x2 =~= crosses);
}

proof fn lemma_forward_undoes_plain_step(
    b: &Board,
    circles: Seq<(usize, usize)>,
    crosses: Seq<(usize, usize)>,
    p: int,
    dr: int,
    dc: int,
    f: (usize, usize),
)
    requires
        b.wf(),
        markers_valid(b, circles, crosses),
        0 <= p < circles.len(),
        -1 <= dr <= 1,
        -1 <= dc <= 1,
        dr != 0 || dc != 0,
        b.step(circles[p], dr, dc) == Some(f),
        !occupied(circles, crosses, f),
    ensures
        forward(b, circles.update(p, f), crosses, p, -dr, -dc) == (circles, crosses),
{
    let pos = circles[p];
    let c1 = circles.update(p, f);
    assert(circles.contains(pos));
    assert(b.step(f, -dr, -dc) == Some(pos));
    assert forall|i: int| 0 <= i < c1.len() implies c1[i] != pos by {}
    assert forall|j: int| 0 <= j < crosses.len() implies crosses[j] != pos by {
        assert(circles[p] == pos);
    }
    assert(!occupied(c1, crosses, pos));
    assert(c1.update(p, pos) =~= circles);
}

/// Inverse law: when a reverse step changes the markers, a forward step of the same circle
/// in the opposite direction brings every marker back to where it stood before.
pub proof fn lemma_forward_undoes_reverse(
    b: &Board,
    circles: Seq<(usize, usize)>,
    crosses: Seq<(usize, usize)>,
    p: int,
    dr: int,
    dc: int,
)
    requires
        b.wf(),
        markers_valid(b, circles, crosses),
        0 <= p < circles.len(),
        -1 <= dr <= 1,
        -1 <= dc <= 1,
        dr != 0 || dc != 0,
        reverse(b, circles, crosses, p, dr, dc) != (circles, crosses),
    ensures
        forward(
            b,
            reverse(b, circles, crosses, p, dr, dc).0,
            reverse(b, circles, crosses, p, dr, dc).1,
            p,
            -dr,
            -dc,
        ) == (circles, crosses),
{
    let pos = circles[p];
    let f = b.step(pos, dr, dc)->0;
    let src = b.step(pos, -dr, -dc);
    if src is Some && occupied(circles, crosses, src->0) {
        lemma_forward_undoes_pull(b, circles, crosses, p, dr, dc, f, src->0);
    } else {
        assert(reverse(b, circles, crosses, p, dr, dc) == (circles.update(p, f), crosses));
        lemma_forward_undoes_plain_step(b, circles, crosses, p, dr, dc, f);
    }
}

/// A move that is refused leaves every marker where it stood: a forward step whose
/// destination is not playable, or whose pushed marker has no free playable cell behind
/// it; a reverse step whose forward cell is not playable or is taken.
pub proof fn lemma_refused_moves_change_nothing(
    b: &Board,
    circles: Seq<(usize, usize)>,
    crosses: Seq<(usize, usize)>,
    p: int,
    dr: int,
    dc: int,
)
    requires
        0 <= p < circles.len(),
    ensures
        b.step(circles[p], dr, dc) is None ==> forward(b, circles, crosses, p, dr, dc) == (circles, crosses)
            && reverse(b, circles, crosses, p, dr, dc) == (circles, crosses),
        ({
            let dest = b.step(circles[p], dr, dc);
            dest is Some && occupied(circles, crosses, dest->0) && (b.step(dest->0, dr, dc) is None
                || occupied(circles, crosses, b.step(dest->0, dr, dc)->0))
        }) ==> forward(b, circles, crosses, p, dr, dc) == (circles, crosses),
        ({
            let fwd = b.step(circles[p], dr, dc);
            fwd is Some && occupied(circles, crosses, fwd->0)
        }) ==> reverse(b, circles, crosses, p, dr, dc) == (circles, crosses),
{
}

/// Index of the marker on (r, c), if any.
fn find_circle_index(circles: &[(usize, usize)], r: usize, c: usize) -> (k: Option<usize>)
    ensures
        match k {
            Some(i) => i < circles@.len() && circles@[i as int] == (r, c),
            None => !circles@.contains((r, c)),
        },
{
    let mut i: usize = 0;
    while i < circles.len()
        invariant
            i <= circles@.len(),
            forall|j: int| 0 <= j < i ==> circles@[j] != (r, c),
        decreases circles@.len() - i,
    {
        if circles[i].0 == r && circles[i].1 == c {
            return Some(i);
        }
        i += 1;
    }
    None
}

/// Index of the cross on (r, c), if any.
fn find_cross_index(crosses: &[(usize, usize)], r: usize, c: usize) -> (k: Option<usize>)
    ensures
        match k {
            Some(i) => i < crosses@.len() && crosses@[i as int] == (r, c),
            None => !crosses@.contains((r, c)),
        },
{
    find_circle_index(crosses, r, c)
}

/// Whether any marker stands on (r, c).
fn occupied_any(circles: &[(usize, usize)], crosses: &[(usize, usize)], r: usize, c: usize) -> (b: bool)
    ensures
        b == occupied(circles@, crosses@, (r, c)),
{
    find_circle_index(circles, r, c).is_some() || find_cross_index(crosses, r, c).is_some()
}

/// Moves the player circle one step in direction (dr, dc), pushing at most one marker.
pub fn attempt_move_runtime(
    circles: &mut [(usize, usize)],
    crosses: &mut [(usize, usize)],
    player_idx: usize,
    direction_row: isize,
    direction_column: isize,
    board: &Board,
)
    requires
        board.wf(),
        markers_valid(board, old(circles)@, old(crosses)@),
        player_idx < old(circles)@.len(),
        is_unit_dir(direction_row, direction_column),
    ensures
        (final(circles)@, final(crosses)@) == forward(
            board,
            old(circles)@,
            old(crosses)@,
            player_idx as int,
            direction_row as int,
            direction_column as int,
        ),
{
    let pos = circles[player_idx];
    let dest = match board.neighbor(pos, direction_row, direction_column) {
        Some(d) => d,
        None => return ,
    };
    if let Some(other) = find_circle_index(circles, dest.0, dest.1) {
        let target = match board.neighbor(dest, direction_row, direction_column) {
            Some(t) => t,
            None => return ,
        };
        if occupied_any(circles, crosses, target.0, target.1) {
            return ;
        }
        let ghost c0 = circles@;
        let ghost x0 = crosses@;
        circles[other] = target;
        circles[player_idx] = dest;
        proof {
            assert(circles@ =~= relocate(c0, dest, target).update(player_idx as int, dest));
            assert forall|j: int| 0 <= j < x0.len() implies x0[j] != dest by {
                assert(c0[other as int] == dest);
            }
            assert(crosses@ =~= relocate(x0, dest, target));
        }
        return ;
    }
    if let Some(cross_idx) = find_cross_index(crosses, dest.0, dest.1) {
        let target = match board.neighbor(dest, direction_row, direction_column) {
            Some(t) => t,
            None => return ,
        };
        if occupied_any(circles, crosses, target.0, target.1) {
            return ;
        }
        let ghost c0 = circles@;
        let ghost x0 = crosses@;
        crosses[cross_idx] = target;
        circles[player_idx] = dest;
        proof {
            assert(crosses@ =~= relocate(x0, dest, target));
            assert(circles@ =~= relocate(c0, dest, target).update(player_idx as int, dest));
        }
        return ;
    }
    circles[player_idx] = dest;
}

/// Pulls, for scrambling: the player advances one step in direction (dr, dc) onto a free
/// cell and drags the marker behind it, if any, into the cell it left.
pub fn attempt_move_reverse(
    circles: &mut [(usize, usize)],
    crosses: &mut [(usize, usize)],
    player_idx: usize,
    dr: isize,
    dc: isize,
    board: &Board,
)
    requires
        board.wf(),
        markers_valid(board, old(circles)@, old(crosses)@),
        player_idx < old(circles)@.len(),
        is_unit_dir(dr, dc),
    ensures
        (final(circles)@, final(crosses)@) == reverse(
            board,
            old(circles)@,
            old(crosses)@,
            player_idx as int,
            dr as int,
            dc as int,
        ),
{
    let pos = circles[player_idx];
    let fwd = match board.neighbor(pos, dr, dc) {
        Some(f) => f,
        None => return ,
    };
    if occupied_any(circles, crosses, fwd.0, fwd.1) {
        return ;
    }
    if let Some(src) = board.neighbor(pos, 0 - dr, 0 - dc) {
        let ghost c0 = circles@;
        let ghost x0 = crosses@;
        if let Some(circle_idx) = find_circle_index(circles, src.0, src.1) {
            circles[circle_idx] = pos;
            circles[player_idx] = fwd;
            proof {
                assert(circles@ =~= relocate(c0, src, pos).update(player_idx as int, fwd));
                assert forall|j: int| 0 <= j < x0.len() implies x0[j] != src by {
                    assert(c0[circle_idx as int] == src);
                }
                assert(crosses@ =~= relocate(x0, src, pos));
            }
            return ;
        }
        if let Some(cross_idx) = find_cross_index(crosses, src.0, src.1) {
            crosses[cross_idx] = pos;
            circles[player_idx] = fwd;
            proof {
                assert(crosses@ =~= relocate(x0, src, pos));
                assert(circles@ =~= relocate(c0, src, pos).update(player_idx as int, fwd));
            }
            return ;
        }
    }
    circles[player_idx] = fwd;
}

} // verus!
