use vstd::prelude::*;
use vstd::relations::{sorted_by, total_ordering};
use crate::board::{Board, dir_of, is_unit_dir};
use crate::keyset::KeySet;
use crate::movement::{attempt_move_runtime, forward, lemma_forward_keeps_markers_valid, markers_valid};
use crate::puzzle::{
    lemma_forward_same_members, lemma_flats_of_valid, lemma_rc_same_members, run, same_members, unit_moves, wins_in,
    concat_flats, flat_seq, flats_of, lemma_flat_round_trip, lemma_valid_reordered, positions_of, puzzle_valid,
    rc_seq, sort_flats, sorted,
};
use crate::rules::{aligned, check_lose_flat, is_win_flat, on_board};
use crate::search::direction;

verus! {

/// Order of flat indices.
pub open spec fn le_flat() -> spec_fn(usize, usize) -> bool {
    |x: usize, y: usize| x <= y
}

/// `s` in ascending order.
pub open spec fn canon(s: Seq<usize>) -> Seq<usize> {
    s.sort_by(le_flat())
}

/// Search key of a position: the circles, then the crosses in ascending order, as flat
/// indices. Positions that differ only in the order of their crosses share a key.
pub open spec fn key_of(b: &Board, circles: Seq<(usize, usize)>, crosses: Seq<(usize, usize)>) -> Seq<usize> {
    flat_seq(b, circles) + canon(flat_seq(b, crosses))
}

/// The circles (first `n` entries) and crosses of a key, as cells.
pub open spec fn key_circles(b: &Board, n: int, k: Seq<usize>) -> Seq<(usize, usize)> {
    rc_seq(b, k.take(n))
}

pub open spec fn key_crosses(b: &Board, n: int, k: Seq<usize>) -> Seq<(usize, usize)> {
    rc_seq(b, k.skip(n))
}

/// A key of a valid position with `n` circles.
pub open spec fn key_ok(b: &Board, n: int, k: Seq<usize>) -> bool {
    &&& 0 <= n <= k.len()
    &&& puzzle_valid(b, k.take(n), k.skip(n))
    &&& sorted(k.skip(n))
}

/// The key after one forward step of circle `p` in direction `d`.
pub open spec fn next_key(b: &Board, n: int, p: int, k: Seq<usize>, d: (isize, isize)) -> Seq<usize> {
    let after = forward(b, key_circles(b, n, k), key_crosses(b, n, k), p, d.0 as int, d.1 as int);
    key_of(b, after.0, after.1)
}

/// A key may be entered: with `avoid_loss`, only when its crosses are not aligned.
pub open spec fn admitted(b: &Board, n: int, k: Seq<usize>, avoid_loss: bool) -> bool {
    !avoid_loss || !aligned(b, k.skip(n))
}

/// Admitted keys one step in direction `j` from keys of `r`.
pub open spec fn step_set(b: &Board, n: int, p: int, avoid_loss: bool, r: Set<Seq<usize>>, j: int) -> Set<Seq<usize>> {
    r.map(|k: Seq<usize>| next_key(b, n, p, k, dir_of(j))).filter(|t: Seq<usize>| admitted(b, n, t, avoid_loss))
}

/// `r` and every admitted key one step away from it.
pub open spec fn expand(b: &Board, n: int, p: int, avoid_loss: bool, r: Set<Seq<usize>>) -> Set<Seq<usize>> {
    r.union(step_set(b, n, p, avoid_loss, r, 0)).union(step_set(b, n, p, avoid_loss, r, 1)).union(
        step_set(b, n, p, avoid_loss, r, 2),
    ).union(step_set(b, n, p, avoid_loss, r, 3))
}

/// Keys reached from `start` in at most `k` forward steps through admitted keys.
pub open spec fn reach(b: &Board, n: int, p: int, avoid_loss: bool, start: Seq<usize>, k: nat) -> Set<Seq<usize>>
    decreases k,
{
    if k == 0 {
        set![start]
    } else {
        expand(b, n, p, avoid_loss, reach(b, n, p, avoid_loss, start, (k - 1) as nat))
    }
}

/// Some key reached within `k` steps has its circles in a line.
pub open spec fn wins_by(b: &Board, n: int, p: int, avoid_loss: bool, start: Seq<usize>, k: nat) -> bool {
    exists|t: Seq<usize>| #[trigger] reach(b, n, p, avoid_loss, start, k).contains(t) && aligned(b, t.take(n))
}

/// The outcome of a layered search with a node budget and a depth budget: the fewest
/// steps `d` to a win when `d <= max_depth` and no layer before it held more than
/// `max_nodes` keys; `None` otherwise.
pub open spec fn search_outcome(
    b: &Board,
    n: int,
    p: int,
    avoid_loss: bool,
    start: Seq<usize>,
    max_nodes: usize,
    max_depth: usize,
    found: Option<usize>,
) -> bool {
    match found {
        Some(d) => {
            &&& d <= max_depth
            &&& wins_by(b, n, p, avoid_loss, start, d as nat)
            &&& forall|e: nat| e < d ==> !#[trigger] wins_by(b, n, p, avoid_loss, start, e)
            &&& forall|e: nat| e < d ==> #[trigger] reach(b, n, p, avoid_loss, start, e).len() <= max_nodes
        },
        None => forall|d: nat|
            d <= max_depth && #[trigger] wins_by(b, n, p, avoid_loss, start, d) && (forall|e: nat|
                e < d ==> !#[trigger] wins_by(b, n, p, avoid_loss, start, e)) ==> exists|e: nat|
                e < d && #[trigger] reach(b, n, p, avoid_loss, start, e).len() > max_nodes,
    }
}

/// A search has one outcome.
pub proof fn lemma_search_outcome_unique(
    b: &Board,
    n: int,
    p: int,
    avoid_loss: bool,
    start: Seq<usize>,
    max_nodes: usize,
    max_depth: usize,
    f1: Option<usize>,
    f2: Option<usize>,
)
    requires
        search_outcome(b, n, p, avoid_loss, start, max_nodes, max_depth, f1),
        search_outcome(b, n, p, avoid_loss, start, max_nodes, max_depth, f2),
    ensures
        f1 == f2,
{
    match (f1, f2) {
        (Some(d1), Some(d2)) => {
            if d1 < d2 {
                assert(!wins_by(b, n, p, avoid_loss, start, d1 as nat));
            } else if d2 < d1 {
                assert(!wins_by(b, n, p, avoid_loss, start, d2 as nat));
            }
        },
        (Some(d), None) => {
            assert(wins_by(b, n, p, avoid_loss, start, d as nat));
            let e = choose|e: nat| e < d && #[trigger] reach(b, n, p, avoid_loss, start, e).len() > max_nodes;
        },
        (None, Some(d)) => {
            assert(wins_by(b, n, p, avoid_loss, start, d as nat));
            let e = choose|e: nat| e < d && #[trigger] reach(b, n, p, avoid_loss, start, e).len() > max_nodes;
        },
        (None, None) => {},
    }
}

pub proof fn lemma_le_flat_total()
    ensures
        total_ordering(le_flat()),
{
}

/// Ascending lists with the same elements are equal.
pub proof fn lemma_canon_of_sorted(s: Seq<usize>, t: Seq<usize>)
    requires
        sorted(t),
        t.to_multiset() == s.to_multiset(),
    ensures
        canon(s) == t,
{
    lemma_le_flat_total();
    s.lemma_sort_by_ensures(le_flat());
    assert(sorted_by(t, le_flat()));
    vstd::seq_lib::lemma_sorted_unique(canon(s), t, le_flat());
}

pub proof fn lemma_canon_sorted(s: Seq<usize>)
    ensures
        sorted(canon(s)),
        canon(s).to_multiset() == s.to_multiset(),
{
    lemma_le_flat_total();
    s.lemma_sort_by_ensures(le_flat());
    assert forall|i: int, j: int| 0 <= i < j < canon(s).len() implies canon(s)[i] <= canon(s)[j] by {
        assert(le_flat()(canon(s)[i], canon(s)[j]));
    }
}

pub proof fn lemma_reach_finite(b: &Board, n: int, p: int, avoid_loss: bool, start: Seq<usize>, k: nat)
    ensures
        reach(b, n, p, avoid_loss, start, k).finite(),
    decreases k,
{
    if k > 0 {
        let r = reach(b, n, p, avoid_loss, start, (k - 1) as nat);
        lemma_reach_finite(b, n, p, avoid_loss, start, (k - 1) as nat);
        assert forall|j: int| 0 <= j < 4 implies #[trigger] step_set(b, n, p, avoid_loss, r, j).finite() by {
            r.lemma_map_finite(|k: Seq<usize>| next_key(b, n, p, k, dir_of(j)));
            r.map(|k: Seq<usize>| next_key(b, n, p, k, dir_of(j))).lemma_len_filter(
                |t: Seq<usize>| admitted(b, n, t, avoid_loss),
            );
        }
        assert(step_set(b, n, p, avoid_loss, r, 0).finite());
        assert(step_set(b, n, p, avoid_loss, r, 1).finite());
        assert(step_set(b, n, p, avoid_loss, r, 2).finite());
        assert(step_set(b, n, p, avoid_loss, r, 3).finite());
    }
}

pub proof fn lemma_reach_grows(b: &Board, n: int, p: int, avoid_loss: bool, start: Seq<usize>, e: nat, k: nat)
    requires
        e <= k,
    ensures
        reach(b, n, p, avoid_loss, start, e).subset_of(reach(b, n, p, avoid_loss, start, k)),
    decreases k - e,
{
    if e < k {
        lemma_reach_grows(b, n, p, avoid_loss, start, e, (k - 1) as nat);
    }
}

/// Once a layer adds nothing, no later layer does.
pub proof fn lemma_reach_settles(b: &Board, n: int, p: int, avoid_loss: bool, start: Seq<usize>, k: nat, m: nat)
    requires
        reach(b, n, p, avoid_loss, start, k + 1) == reach(b, n, p, avoid_loss, start, k),
        k <= m,
    ensures
        reach(b, n, p, avoid_loss, start, m) == reach(b, n, p, avoid_loss, start, k),
    decreases m - k,
{
    if k < m {
        lemma_reach_settles(b, n, p, avoid_loss, start, k, (m - 1) as nat);
    }
}

/// The next layer is the current one with the steps from its newest keys.
pub proof fn lemma_expand_from_layer(
    b: &Board,
    n: int,
    p: int,
    avoid_loss: bool,
    start: Seq<usize>,
    k: nat,
    layer: Set<Seq<usize>>,
)
    requires
        k == 0 ==> layer == reach(b, n, p, avoid_loss, start, 0),
        k > 0 ==> layer == reach(b, n, p, avoid_loss, start, k).difference(
            reach(b, n, p, avoid_loss, start, (k - 1) as nat),
        ),
    ensures
        reach(b, n, p, avoid_loss, start, k + 1) == reach(b, n, p, avoid_loss, start, k).union(
            step_set(b, n, p, avoid_loss, layer, 0),
        ).union(step_set(b, n, p, avoid_loss, layer, 1)).union(step_set(b, n, p, avoid_loss, layer, 2)).union(
            step_set(b, n, p, avoid_loss, layer, 3),
        ),
{
    let r = reach(b, n, p, avoid_loss, start, k);
    let lhs = reach(b, n, p, avoid_loss, start, k + 1);
    let rhs = r.union(step_set(b, n, p, avoid_loss, layer, 0)).union(step_set(b, n, p, avoid_loss, layer, 1)).union(
        step_set(b, n, p, avoid_loss, layer, 2),
    ).union(step_set(b, n, p, avoid_loss, layer, 3));
    assert(lhs == expand(b, n, p, avoid_loss, r));
    assert forall|t: Seq<usize>| lhs.contains(t) implies rhs.contains(t) by {
        if !r.contains(t) {
            let j = choose|j: int| 0 <= j < 4 && #[trigger] step_set(b, n, p, avoid_loss, r, j).contains(t);
            let s = choose|s: Seq<usize>| r.contains(s) && t == next_key(b, n, p, s, dir_of(j));
            if layer.contains(s) {
                assert(step_set(b, n, p, avoid_loss, layer, j).contains(t));
            } else {
                let km1 = (k - 1) as nat;
                let prev = reach(b, n, p, avoid_loss, start, km1);
                assert(prev.contains(s));
                assert(step_set(b, n, p, avoid_loss, prev, j).contains(t));
                assert(reach(b, n, p, avoid_loss, start, k) == expand(b, n, p, avoid_loss, prev));
            }
        }
    }
    assert forall|t: Seq<usize>| rhs.contains(t) implies lhs.contains(t) by {
        if !r.contains(t) {
            let j = choose|j: int| 0 <= j < 4 && #[trigger] step_set(b, n, p, avoid_loss, layer, j).contains(t);
            let s = choose|s: Seq<usize>| layer.contains(s) && t == next_key(b, n, p, s, dir_of(j));
            assert(r.contains(s));
            assert(step_set(b, n, p, avoid_loss, r, j).contains(t));
        }
    }
    assert(lhs =~= rhs);
}

/// A forward step from a valid key gives a valid key.
pub proof fn lemma_next_key_ok(b: &Board, n: int, p: int, k: Seq<usize>, j: int)
    requires
        b.wf(),
        key_ok(b, n, k),
        0 <= p < n,
        0 <= j < 4,
    ensures
        key_ok(b, n, next_key(b, n, p, k, dir_of(j))),
{
    let c = key_circles(b, n, k);
    let x = key_crosses(b, n, k);
    let d = dir_of(j);
    lemma_forward_keeps_markers_valid(b, c, x, p, d.0 as int, d.1 as int);
    let after = forward(b, c, x, p, d.0 as int, d.1 as int);
    lemma_flat_round_trip(b, after.0);
    lemma_flat_round_trip(b, after.1);
    let cf = flat_seq(b, after.0);
    let xf = flat_seq(b, after.1);
    assert(puzzle_valid(b, cf, xf));
    lemma_canon_sorted(xf);
    lemma_valid_reordered(b, cf, xf, canon(xf));
    let t = next_key(b, n, p, k, d);
    assert(t.take(n) =~= cf);
    assert(t.skip(n) =~= canon(xf));
}

/// Every key reached from a valid start is valid.
pub proof fn lemma_reach_ok(b: &Board, n: int, p: int, avoid_loss: bool, start: Seq<usize>, k: nat)
    requires
        b.wf(),
        key_ok(b, n, start),
        0 <= p < n,
    ensures
        forall|t: Seq<usize>| #[trigger] reach(b, n, p, avoid_loss, start, k).contains(t) ==> key_ok(b, n, t),
    decreases k,
{
    if k > 0 {
        let r = reach(b, n, p, avoid_loss, start, (k - 1) as nat);
        lemma_reach_ok(b, n, p, avoid_loss, start, (k - 1) as nat);
        assert forall|t: Seq<usize>| #[trigger] reach(b, n, p, avoid_loss, start, k).contains(t) implies key_ok(b, n, t) by {
            if !r.contains(t) {
                let j = choose|j: int| 0 <= j < 4 && #[trigger] step_set(b, n, p, avoid_loss, r, j).contains(t);
                let s = choose|s: Seq<usize>| r.contains(s) && t == next_key(b, n, p, s, dir_of(j));
                lemma_next_key_ok(b, n, p, s, j);
            }
        }
    }
}

/// Admitted keys one step from `k`, in any direction.
pub open spec fn succs(b: &Board, n: int, p: int, avoid_loss: bool, k: Seq<usize>) -> Set<Seq<usize>> {
    Set::new(|t: Seq<usize>| exists|j: int| 0 <= j < 4 && t == #[trigger] next_key(b, n, p, k, dir_of(j)) && admitted(b, n, t, avoid_loss))
}

/// The keys listed in `ls`.
pub open spec fn listed(ls: Seq<Vec<usize>>) -> Set<Seq<usize>> {
    Set::new(|t: Seq<usize>| exists|i: int| 0 <= i < ls.len() && (#[trigger] ls[i])@ == t)
}

/// Admitted keys one step from the first `i` keys of `ls`.
pub open spec fn succs_upto(b: &Board, n: int, p: int, avoid_loss: bool, ls: Seq<Vec<usize>>, i: int) -> Set<Seq<usize>> {
    Set::new(|t: Seq<usize>| exists|i2: int| 0 <= i2 < i && #[trigger] succs(b, n, p, avoid_loss, ls[i2]@).contains(t))
}

fn copy_key(v: &Vec<usize>) -> (out: Vec<usize>)
    ensures
        out@ == v@,
{
    let mut out: Vec<usize> = Vec::new();
    let mut i: usize = 0;
    while i < v.len()
        invariant
            i <= v@.len(),
            out@ == v@.subrange(0, i as int),
        decreases v@.len() - i,
    {
        out.push(v[i]);
        i += 1;
        assert(out@ =~= v@.subrange(0, i as int));
    }
    assert(v@.subrange(0, i as int) =~= v@);
    out
}

fn part(v: &Vec<usize>, from: usize, to: usize) -> (out: Vec<usize>)
    requires
        from <= to <= v@.len(),
    ensures
        out@ == v@.subrange(from as int, to as int),
{
    let mut out: Vec<usize> = Vec::new();
    let mut i: usize = from;
    while i < to
        invariant
            from <= i <= to <= v@.len(),
            out@ == v@.subrange(from as int, i as int),
        decreases to - i,
    {
        out.push(v[i]);
        i += 1;
        assert(out@ =~= v@.subrange(from as int, i as int));
    }
    out
}

/// The key one forward step of circle `p` in direction `k` away.
fn successor_key(board: &Board, key: &Vec<usize>, n: usize, p: usize, k: usize) -> (t: Vec<usize>)
    requires
        board.wf(),
        key_ok(board, n as int, key@),
        p < n,
        k < 4,
    ensures
        t@ == next_key(board, n as int, p as int, key@, dir_of(k as int)),
        key_ok(board, n as int, t@),
{
    proof {
        lemma_next_key_ok(board, n as int, p as int, key@, k as int);
    }
    let (dr, dc) = direction(k);
    let cf = part(key, 0, n);
    let xf = part(key, n, key.len());
    proof {
        assert(cf@ =~= key@.take(n as int));
        assert(xf@ =~= key@.skip(n as int));
    }
    let mut cs = positions_of(board, &cf);
    let mut xs = positions_of(board, &xf);
    attempt_move_runtime(cs.as_mut_slice(), xs.as_mut_slice(), p, dr, dc, board);
    proof {
        lemma_forward_keeps_markers_valid(board, rc_seq(board, cf@), rc_seq(board, xf@), p as int, dr as int, dc as int);
    }
    let cf2 = flats_of(board, &cs);
    let mut xf2 = flats_of(board, &xs);
    let ghost x0 = xf2@;
    sort_flats(&mut xf2);
    proof {
        lemma_canon_of_sorted(x0, xf2@);
    }
    concat_flats(&cf2, &xf2)
}

/// The search key of a valid start: circles, then crosses in ascending order.
fn start_key(board: &Board, circles: &[usize], crosses: &[usize]) -> (k: Vec<usize>)
    requires
        board.wf(),
        puzzle_valid(board, circles@, crosses@),
    ensures
        k@ == circles@ + canon(crosses@),
        key_ok(board, circles@.len() as int, k@),
{
    let mut xf = Vec::new();
    let mut i: usize = 0;
    while i < crosses.len()
        invariant
            i <= crosses@.len(),
            xf@ == crosses@.subrange(0, i as int),
        decreases crosses@.len() - i,
    {
        xf.push(crosses[i]);
        i += 1;
        assert(xf@ =~= crosses@.subrange(0, i as int));
    }
    assert(crosses@.subrange(0, i as int) =~= crosses@);
    let ghost x0 = xf@;
    sort_flats(&mut xf);
    proof {
        lemma_canon_of_sorted(x0, xf@);
        lemma_valid_reordered(board, circles@, crosses@, xf@);
    }
    let k = concat_flats(circles, &xf);
    proof {
        assert(k@.take(circles@.len() as int) =~= circles@);
        assert(k@.skip(circles@.len() as int) =~= xf@);
    }
    k
}

/// Admitted keys one step from `k` in the first `j` directions.
pub open spec fn succs_below(b: &Board, n: int, p: int, avoid_loss: bool, k: Seq<usize>, j: int) -> Set<Seq<usize>> {
    Set::new(|t: Seq<usize>| exists|j2: int| 0 <= j2 < j && t == #[trigger] next_key(b, n, p, k, dir_of(j2)) && admitted(b, n, t, avoid_loss))
}

/// Adds to `visited` and `next` the admitted keys one step from `key` that `visited` lacks.
fn expand_key(
    board: &Board,
    key: &Vec<usize>,
    n: usize,
    p: usize,
    avoid_loss: bool,
    visited: &mut KeySet,
    next: &mut Vec<Vec<usize>>,
    count: &mut u128,
)
    requires
        board.wf(),
        key_ok(board, n as int, key@),
        p < n,
        old(visited).wf(),
        *old(count) == old(visited).view().len(),
        *old(count) <= 0x10_0000_0000_0000_0000,
    ensures
        final(visited).wf(),
        final(visited).view() == old(visited).view().union(succs(board, n as int, p as int, avoid_loss, key@)),
        listed(final(next)@) == listed(old(next)@).union(final(visited).view().difference(old(visited).view())),
        *final(count) == final(visited).view().len(),
        *final(count) <= *old(count) + 4,
{
    proof {
        old(visited).lemma_view_finite();
    }
    let ghost v0 = visited.view();
    let ghost n0 = next@;
    let ghost c0 = *count;
    let mut j: usize = 0;
    while j < 4
        invariant
            board.wf(),
            key_ok(board, n as int, key@),
            p < n,
            j <= 4,
            visited.wf(),
            visited.view().finite(),
            visited.view() == v0.union(succs_below(board, n as int, p as int, avoid_loss, key@, j as int)),
            listed(next@) == listed(n0).union(visited.view().difference(v0)),
            *count == visited.view().len(),
            *count <= c0 + j,
            c0 <= 0x10_0000_0000_0000_0000,
        decreases 4 - j,
    {
        let t = successor_key(board, key, n, p, j);
        let ghost tv = t@;
        let ghost before = visited.view();
        let mut enter = true;
        if avoid_loss {
            let xf = part(&t, n, t.len());
            proof {
                assert(xf@ =~= tv.skip(n as int));
            }
            if check_lose_flat(&xf, board) {
                enter = false;
            }
        }
        proof {
            assert(enter == admitted(board, n as int, tv, avoid_loss));
        }
        if enter && !visited.contains(&t) {
            let tc = copy_key(&t);
            let ghost nb = next@;
            visited.insert(tc);
            next.push(t);
            *count = *count + 1;
            proof {
                assert(listed(next@) =~= listed(nb).insert(tv)) by {
                    assert forall|u: Seq<usize>| listed(next@).contains(u) implies listed(nb).insert(tv).contains(u) by {
                        let i = choose|i: int| 0 <= i < next@.len() && (#[trigger] next@[i])@ == u;
                        if i < nb.len() {
                            assert(next@[i] == nb[i]);
                        }
                    }
                    assert forall|u: Seq<usize>| listed(nb).insert(tv).contains(u) implies listed(next@).contains(u) by {
                        if u == tv {
                            assert(next@[nb.len() as int]@ == tv);
                        } else {
                            let i = choose|i: int| 0 <= i < nb.len() && (#[trigger] nb[i])@ == u;
                            assert(next@[i] == nb[i]);
                        }
                    }
                }
            }
        }
        proof {
            let jj = j as int;
            assert(succs_below(board, n as int, p as int, avoid_loss, key@, jj + 1) =~= if admitted(board, n as int, tv, avoid_loss) {
                succs_below(board, n as int, p as int, avoid_loss, key@, jj).insert(tv)
            } else {
                succs_below(board, n as int, p as int, avoid_loss, key@, jj)
            }) by {
                assert forall|u: Seq<usize>| #[trigger] succs_below(board, n as int, p as int, avoid_loss, key@, jj + 1).contains(u)
                    implies (u == tv && admitted(board, n as int, tv, avoid_loss)) || succs_below(board, n as int, p as int, avoid_loss, key@, jj).contains(u) by {
                    let j2 = choose|j2: int| 0 <= j2 < jj + 1 && u == #[trigger] next_key(board, n as int, p as int, key@, dir_of(j2)) && admitted(board, n as int, u, avoid_loss);
                    if j2 < jj {
                        assert(succs_below(board, n as int, p as int, avoid_loss, key@, jj).contains(u));
                    }
                }
                assert forall|u: Seq<usize>| succs_below(board, n as int, p as int, avoid_loss, key@, jj).contains(u)
                    implies #[trigger] succs_below(board, n as int, p as int, avoid_loss, key@, jj + 1).contains(u) by {
                    let j2 = choose|j2: int| 0 <= j2 < jj && u == #[trigger] next_key(board, n as int, p as int, key@, dir_of(j2)) && admitted(board, n as int, u, avoid_loss);
                    assert(0 <= j2 < jj + 1);
                }
                if admitted(board, n as int, tv, avoid_loss) {
                    assert(tv == next_key(board, n as int, p as int, key@, dir_of(jj)));
                    assert(succs_below(board, n as int, p as int, avoid_loss, key@, jj + 1).contains(tv));
                }
            }
            assert(visited.view() =~= v0.union(succs_below(board, n as int, p as int, avoid_loss, key@, jj + 1)));
            assert(listed(next@) =~= listed(n0).union(visited.view().difference(v0)));
        }
        j += 1;
    }
    proof {
        assert(succs_below(board, n as int, p as int, avoid_loss, key@, 4) =~= succs(board, n as int, p as int, avoid_loss, key@));
    }
}

/// The keys of layer `k`: the start for `k == 0`, else the keys first reached at step `k`.
pub open spec fn layer_of(b: &Board, n: int, p: int, avoid_loss: bool, start: Seq<usize>, k: nat) -> Set<Seq<usize>> {
    if k == 0 {
        reach(b, n, p, avoid_loss, start, 0)
    } else {
        reach(b, n, p, avoid_loss, start, k).difference(reach(b, n, p, avoid_loss, start, (k - 1) as nat))
    }
}

/// Whether some key of `layer` has its first `n` entries in a line.
fn layer_wins(board: &Board, layer: &Vec<Vec<usize>>, n: usize) -> (won: bool)
    requires
        board.wf(),
        forall|i: int| 0 <= i < layer@.len() ==> key_ok(board, n as int, #[trigger] layer@[i]@),
    ensures
        won == exists|t: Seq<usize>| listed(layer@).contains(t) && aligned(board, t.take(n as int)),
{
    let mut i: usize = 0;
    while i < layer.len()
        invariant
            board.wf(),
            forall|i: int| 0 <= i < layer@.len() ==> key_ok(board, n as int, #[trigger] layer@[i]@),
            i <= layer@.len(),
            forall|i2: int| 0 <= i2 < i ==> !aligned(board, (#[trigger] layer@[i2])@.take(n as int)),
        decreases layer@.len() - i,
    {
        let cf = part(&layer[i], 0, n);
        proof {
            assert(cf@ =~= layer@[i as int]@.take(n as int));
        }
        if is_win_flat(&cf, board) {
            assert(listed(layer@).contains(layer@[i as int]@));
            return true;
        }
        i += 1;
    }
    proof {
        assert forall|t: Seq<usize>| listed(layer@).contains(t) implies !aligned(board, t.take(n as int)) by {
            let i2 = choose|i2: int| 0 <= i2 < layer@.len() && (#[trigger] layer@[i2])@ == t;
        }
    }
    false
}

/// Layered breadth-first search over keys from a valid start; its outcome is
/// `search_outcome`.
pub fn layered_search(
    board: &Board,
    init_circles: &[usize],
    init_crosses: &[usize],
    player_idx: usize,
    max_nodes: usize,
    max_depth: usize,
    avoid_loss: bool,
) -> (found: Option<usize>)
    requires
        board.wf(),
        puzzle_valid(board, init_circles@, init_crosses@),
        player_idx < init_circles@.len(),
    ensures
        search_outcome(
            board,
            init_circles@.len() as int,
            player_idx as int,
            avoid_loss,
            init_circles@ + canon(init_crosses@),
            max_nodes,
            max_depth,
            found,
        ),
{
    let n = init_circles.len();
    let start = start_key(board, init_circles, init_crosses);
    let ghost st = start@;
    let ghost ni = n as int;
    let ghost pi = player_idx as int;
    let mut visited = KeySet::new();
    visited.insert(copy_key(&start));
    let mut layer: Vec<Vec<usize>> = Vec::new();
    layer.push(start);
    let mut k: usize = 0;
    let mut count: u128 = 1;
    proof {
        assert(visited.view() =~= reach(board, ni, pi, avoid_loss, st, 0));
        assert(layer@[0]@ == st);
        assert forall|u: Seq<usize>| listed(layer@).contains(u) <==> set![st].contains(u) by {
            if u == st {
                assert(layer@[0]@ == u);
            }
        }
        assert(listed(layer@) =~= set![st]);
        lemma_reach_ok(board, ni, pi, avoid_loss, st, 0);
    }
    loop
        invariant
            board.wf(),
            n == init_circles@.len(),
            ni == n,
            pi == player_idx,
            player_idx < n,
            key_ok(board, ni, st),
            st == init_circles@ + canon(init_crosses@),
            visited.wf(),
            visited.view() == reach(board, ni, pi, avoid_loss, st, k as nat),
            listed(layer@) == layer_of(board, ni, pi, avoid_loss, st, k as nat),
            forall|i: int| 0 <= i < layer@.len() ==> key_ok(board, ni, #[trigger] layer@[i]@),
            count == reach(board, ni, pi, avoid_loss, st, k as nat).len(),
            k <= max_depth,
            forall|e: nat| e < k ==> !#[trigger] wins_by(board, ni, pi, avoid_loss, st, e),
            forall|e: nat| e < k ==> #[trigger] reach(board, ni, pi, avoid_loss, st, e).len() <= max_nodes,
        decreases max_depth - k,
    {
        let won = layer_wins(board, &layer, n);
        proof {
            lemma_reach_finite(board, ni, pi, avoid_loss, st, k as nat);
            if k > 0 {
                lemma_reach_grows(board, ni, pi, avoid_loss, st, (k - 1) as nat, k as nat);
            }
        }
        if won {
            proof {
                let t = choose|t: Seq<usize>| listed(layer@).contains(t) && aligned(board, t.take(ni));
                assert(reach(board, ni, pi, avoid_loss, st, k as nat).contains(t));
                assert(wins_by(board, ni, pi, avoid_loss, st, k as nat));
            }
            return Some(k);
        }
        proof {
            assert(!wins_by(board, ni, pi, avoid_loss, st, k as nat)) by {
                if wins_by(board, ni, pi, avoid_loss, st, k as nat) {
                    let t = choose|t: Seq<usize>| #[trigger] reach(board, ni, pi, avoid_loss, st, k as nat).contains(t) && aligned(board, t.take(ni));
                    if !listed(layer@).contains(t) {
                        assert(reach(board, ni, pi, avoid_loss, st, (k - 1) as nat).contains(t));
                        assert(wins_by(board, ni, pi, avoid_loss, st, (k - 1) as nat));
                    }
                }
            }
        }
        if k >= max_depth {
            proof {
                assert forall|d: nat| d <= max_depth && #[trigger] wins_by(board, ni, pi, avoid_loss, st, d) implies false by {
                    if d < k {
                    }
                }
            }
            return None;
        }
        if count > max_nodes as u128 {
            proof {
                assert forall|d: nat|
                    d <= max_depth && #[trigger] wins_by(board, ni, pi, avoid_loss, st, d) && (forall|e: nat|
                        e < d ==> !#[trigger] wins_by(board, ni, pi, avoid_loss, st, e)) implies exists|e: nat|
                    e < d && #[trigger] reach(board, ni, pi, avoid_loss, st, e).len() > max_nodes by {
                    if d < k {
                    } else if d == k {
                    } else {
                        assert(reach(board, ni, pi, avoid_loss, st, k as nat).len() > max_nodes);
                    }
                }
            }
            return None;
        }
        let ghost r = visited.view();
        let mut next: Vec<Vec<usize>> = Vec::new();
        let mut i: usize = 0;
        while i < layer.len()
            invariant
                board.wf(),
                n == init_circles@.len(),
                ni == n,
                pi == player_idx,
                player_idx < n,
                forall|i: int| 0 <= i < layer@.len() ==> key_ok(board, ni, #[trigger] layer@[i]@),
                visited.wf(),
                r.finite(),
                i <= layer@.len(),
                visited.view() == r.union(succs_upto(board, ni, pi, avoid_loss, layer@, i as int)),
                listed(next@) == visited.view().difference(r),
                count == visited.view().len(),
                count <= max_nodes + 4 * i,
            decreases layer@.len() - i,
        {
            let ghost vb = visited.view();
            expand_key(board, &layer[i], n, player_idx, avoid_loss, &mut visited, &mut next, &mut count);
            proof {
                let ii = i as int;
                assert(succs_upto(board, ni, pi, avoid_loss, layer@, ii + 1) =~= succs_upto(board, ni, pi, avoid_loss, layer@, ii).union(
                    succs(board, ni, pi, avoid_loss, layer@[ii]@))) by {
                    assert forall|u: Seq<usize>| succs_upto(board, ni, pi, avoid_loss, layer@, ii + 1).contains(u) implies
                        succs_upto(board, ni, pi, avoid_loss, layer@, ii).contains(u) || succs(board, ni, pi, avoid_loss, layer@[ii]@).contains(u) by {
                        let i2 = choose|i2: int| 0 <= i2 < ii + 1 && #[trigger] succs(board, ni, pi, avoid_loss, layer@[i2]@).contains(u);
                    }
                }
                assert(visited.view() =~= r.union(succs_upto(board, ni, pi, avoid_loss, layer@, ii + 1)));
                assert(listed(next@) =~= visited.view().difference(r));
            }
            i += 1;
        }
        proof {
            let ls = listed(layer@);
            assert forall|j: int| 0 <= j < 4 implies #[trigger] step_set(board, ni, pi, avoid_loss, ls, j).subset_of(
                succs_upto(board, ni, pi, avoid_loss, layer@, layer@.len() as int)) by {
                assert forall|u: Seq<usize>| step_set(board, ni, pi, avoid_loss, ls, j).contains(u) implies
                    succs_upto(board, ni, pi, avoid_loss, layer@, layer@.len() as int).contains(u) by {
                    let s0 = choose|s0: Seq<usize>| ls.contains(s0) && u == next_key(board, ni, pi, s0, dir_of(j));
                    let i2 = choose|i2: int| 0 <= i2 < layer@.len() && (#[trigger] layer@[i2])@ == s0;
                    assert(succs(board, ni, pi, avoid_loss, layer@[i2]@).contains(u));
                }
            }
            assert forall|u: Seq<usize>| succs_upto(board, ni, pi, avoid_loss, layer@, layer@.len() as int).contains(u) implies
                step_set(board, ni, pi, avoid_loss, ls, 0).union(step_set(board, ni, pi, avoid_loss, ls, 1)).union(
                step_set(board, ni, pi, avoid_loss, ls, 2)).union(step_set(board, ni, pi, avoid_loss, ls, 3)).contains(u) by {
                let i2 = choose|i2: int| 0 <= i2 < layer@.len() && #[trigger] succs(board, ni, pi, avoid_loss, layer@[i2]@).contains(u);
                let j = choose|j: int| 0 <= j < 4 && u == #[trigger] next_key(board, ni, pi, layer@[i2]@, dir_of(j)) && admitted(board, ni, u, avoid_loss);
                assert(ls.contains(layer@[i2]@));
                assert(step_set(board, ni, pi, avoid_loss, ls, j).contains(u));
            }
            lemma_expand_from_layer(board, ni, pi, avoid_loss, st, k as nat, ls);
            let s0 = step_set(board, ni, pi, avoid_loss, ls, 0);
            let s1 = step_set(board, ni, pi, avoid_loss, ls, 1);
            let s2 = step_set(board, ni, pi, avoid_loss, ls, 2);
            let s3 = step_set(board, ni, pi, avoid_loss, ls, 3);
            let all = succs_upto(board, ni, pi, avoid_loss, layer@, layer@.len() as int);
            assert(s0.subset_of(all) && s1.subset_of(all) && s2.subset_of(all) && s3.subset_of(all));
            assert(all =~= s0.union(s1).union(s2).union(s3));
            assert(r.union(all) =~= r.union(s0).union(s1).union(s2).union(s3));
            assert(visited.view() =~= reach(board, ni, pi, avoid_loss, st, (k + 1) as nat));
            lemma_reach_ok(board, ni, pi, avoid_loss, st, (k + 1) as nat);
            assert forall|e: nat| e < k + 1 implies !#[trigger] wins_by(board, ni, pi, avoid_loss, st, e) by {
                if e < k {
                }
            }
            assert forall|e: nat| e < k + 1 implies #[trigger] reach(board, ni, pi, avoid_loss, st, e).len() <= max_nodes by {
                if e < k {
                }
            }
        }
        if next.len() == 0 {
            proof {
                assert(reach(board, ni, pi, avoid_loss, st, (k + 1) as nat) =~= reach(board, ni, pi, avoid_loss, st, k as nat)) by {
                    assert forall|u: Seq<usize>| reach(board, ni, pi, avoid_loss, st, (k + 1) as nat).contains(u) implies
                        reach(board, ni, pi, avoid_loss, st, k as nat).contains(u) by {
                        if !r.contains(u) {
                            assert(listed(next@).contains(u));
                            let i2 = choose|i2: int| 0 <= i2 < next@.len() && (#[trigger] next@[i2])@ == u;
                        }
                    }
                    lemma_reach_grows(board, ni, pi, avoid_loss, st, k as nat, (k + 1) as nat);
                }
                assert forall|d: nat| d <= max_depth && #[trigger] wins_by(board, ni, pi, avoid_loss, st, d) implies false by {
                    if d > k {
                        lemma_reach_settles(board, ni, pi, avoid_loss, st, k as nat, d);
                        let t = choose|t: Seq<usize>| #[trigger] reach(board, ni, pi, avoid_loss, st, d).contains(t) && aligned(board, t.take(ni));
                        assert(reach(board, ni, pi, avoid_loss, st, k as nat).contains(t));
                        assert(wins_by(board, ni, pi, avoid_loss, st, k as nat));
                    }
                }
            }
            return None;
        }
        proof {
            assert(listed(next@) =~= layer_of(board, ni, pi, avoid_loss, st, (k + 1) as nat));
            assert forall|i: int| 0 <= i < next@.len() implies key_ok(board, ni, #[trigger] next@[i]@) by {
                assert(listed(next@).contains(next@[i]@));
            }
        }
        layer = next;
        k += 1;
    }
}

/// Lists without repeats that hold the same elements have the same multiset.
proof fn lemma_same_multiset(a: Seq<usize>, c: Seq<usize>)
    requires
        a.no_duplicates(),
        c.no_duplicates(),
        forall|e: usize| a.contains(e) <==> c.contains(e),
    ensures
        a.to_multiset() == c.to_multiset(),
{
    a.lemma_multiset_has_no_duplicates();
    c.lemma_multiset_has_no_duplicates();
    a.to_multiset_ensures();
    c.to_multiset_ensures();
    assert forall|e: usize| a.to_multiset().count(e) == c.to_multiset().count(e) by {
        if a.contains(e) {
            assert(a.to_multiset().contains(e));
            assert(c.to_multiset().contains(e));
        }
    }
    assert(a.to_multiset() =~= c.to_multiset());
}

/// Valid cell lists with the same members have flat lists with the same members.
proof fn lemma_flat_members(b: &Board, x1: Seq<(usize, usize)>, x2: Seq<(usize, usize)>)
    requires
        same_members(x1, x2),
    ensures
        forall|e: usize| flat_seq(b, x1).contains(e) <==> flat_seq(b, x2).contains(e),
{
    assert forall|e: usize| flat_seq(b, x1).contains(e) implies flat_seq(b, x2).contains(e) by {
        let i = choose|i: int| 0 <= i < flat_seq(b, x1).len() && flat_seq(b, x1)[i] == e;
        assert(x1.contains(x1[i]));
        let j = choose|j: int| 0 <= j < x2.len() && x2[j] == x1[i];
        assert(flat_seq(b, x2)[j] == e);
    }
    assert forall|e: usize| flat_seq(b, x2).contains(e) implies flat_seq(b, x1).contains(e) by {
        let i = choose|i: int| 0 <= i < flat_seq(b, x2).len() && flat_seq(b, x2)[i] == e;
        assert(x2.contains(x2[i]));
        let j = choose|j: int| 0 <= j < x1.len() && x1[j] == x2[i];
        assert(flat_seq(b, x1)[j] == e);
    }
}

/// The key of a position steps as the position does.
pub proof fn lemma_key_of_forward(
    b: &Board,
    c: Seq<(usize, usize)>,
    x: Seq<(usize, usize)>,
    p: int,
    d: (isize, isize),
)
    requires
        b.wf(),
        markers_valid(b, c, x),
        0 <= p < c.len(),
        is_unit_dir(d.0, d.1),
    ensures
        next_key(b, c.len() as int, p, key_of(b, c, x), d) == key_of(
            b,
            forward(b, c, x, p, d.0 as int, d.1 as int).0,
            forward(b, c, x, p, d.0 as int, d.1 as int).1,
        ),
        key_ok(b, c.len() as int, key_of(b, c, x)),
{
    let n = c.len() as int;
    let k = key_of(b, c, x);
    lemma_flat_round_trip(b, c);
    lemma_flat_round_trip(b, x);
    let cf = flat_seq(b, c);
    let xf = flat_seq(b, x);
    assert(k.take(n) =~= cf);
    assert(k.skip(n) =~= canon(xf));
    lemma_canon_sorted(xf);
    lemma_rc_same_members(b, xf, canon(xf));
    let x2 = rc_seq(b, canon(xf));
    assert(puzzle_valid(b, cf, xf));
    lemma_valid_reordered(b, cf, xf, canon(xf));
    lemma_forward_same_members(b, c, x, x2, p, d.0 as int, d.1 as int);
    lemma_forward_keeps_markers_valid(b, c, x, p, d.0 as int, d.1 as int);
    lemma_forward_keeps_markers_valid(b, c, x2, p, d.0 as int, d.1 as int);
    let a1 = forward(b, c, x, p, d.0 as int, d.1 as int);
    let a2 = forward(b, c, x2, p, d.0 as int, d.1 as int);
    lemma_flats_of_valid(b, a1.1);
    lemma_flats_of_valid(b, a2.1);
    lemma_flat_members(b, a1.1, a2.1);
    lemma_same_multiset(flat_seq(b, a1.1), flat_seq(b, a2.1));
    lemma_canon_sorted(flat_seq(b, a2.1));
    lemma_canon_of_sorted(flat_seq(b, a1.1), canon(flat_seq(b, a2.1)));
}

/// Playing moves from a valid position keeps it valid.
pub proof fn lemma_run_valid(b: &Board, c: Seq<(usize, usize)>, x: Seq<(usize, usize)>, p: int, moves: Seq<(isize, isize)>)
    requires
        b.wf(),
        markers_valid(b, c, x),
        0 <= p < c.len(),
        unit_moves(moves),
    ensures
        markers_valid(b, run(b, c, x, p, moves).0, run(b, c, x, p, moves).1),
        run(b, c, x, p, moves).0.len() == c.len(),
    decreases moves.len(),
{
    if moves.len() > 0 {
        let ms = moves.drop_last();
        assert(unit_moves(ms)) by {
            assert forall|i: int| 0 <= i < ms.len() implies is_unit_dir(#[trigger] ms[i].0, ms[i].1) by {
                assert(ms[i] == moves[i]);
            }
        }
        lemma_run_valid(b, c, x, p, ms);
        let r = run(b, c, x, p, ms);
        let m = moves.last();
        assert(is_unit_dir(moves[moves.len() - 1].0, moves[moves.len() - 1].1));
        lemma_forward_keeps_markers_valid(b, r.0, r.1, p, m.0 as int, m.1 as int);
    }
}

/// After each of the `moves`, the crosses are not aligned.
pub open spec fn loss_free(b: &Board, c: Seq<(usize, usize)>, x: Seq<(usize, usize)>, p: int, moves: Seq<(isize, isize)>) -> bool {
    forall|i: int| 1 <= i <= moves.len() ==> !aligned(b, flat_seq(b, #[trigger] run(b, c, x, p, moves.take(i)).1))
}

/// Some `n` forward moves of circle `p` (never aligning the crosses, with `avoid_loss`)
/// put three circles in a line.
pub open spec fn wins_within(b: &Board, circles: Seq<usize>, crosses: Seq<usize>, p: int, avoid_loss: bool, n: nat) -> bool {
    exists|moves: Seq<(isize, isize)>|
        moves.len() == n && unit_moves(moves) && (avoid_loss ==> loss_free(b, rc_seq(b, circles), rc_seq(b, crosses), p, moves))
            && aligned(b, flat_seq(b, #[trigger] run(b, rc_seq(b, circles), rc_seq(b, crosses), p, moves).0))
}

/// Whether a list is aligned depends on its elements alone.
pub proof fn lemma_aligned_canon(b: &Board, s: Seq<usize>)
    ensures
        aligned(b, canon(s)) == aligned(b, s),
{
    lemma_canon_sorted(s);
    s.to_multiset_ensures();
    canon(s).to_multiset_ensures();
    assert forall|e: usize| canon(s).contains(e) == s.contains(e) by {
        assert(canon(s).contains(e) == (canon(s).to_multiset().count(e) > 0));
        assert(s.contains(e) == (s.to_multiset().count(e) > 0));
    }
    assert forall|r: int, c: int| #[trigger] crate::rules::line_at(b, canon(s), r, c) == crate::rules::line_at(b, s, r, c) by {}
    if aligned(b, s) {
        let (r, c) = choose|r: int, c: int| #[trigger] crate::rules::line_at(b, s, r, c);
        assert(crate::rules::line_at(b, canon(s), r, c));
    }
    if aligned(b, canon(s)) {
        let (r, c) = choose|r: int, c: int| #[trigger] crate::rules::line_at(b, canon(s), r, c);
        assert(crate::rules::line_at(b, s, r, c));
    }
}

/// A position reached by `moves` (never aligning the crosses, with the loss filter) has
/// its key in the layer of their count.
pub proof fn lemma_run_in_reach(
    b: &Board,
    c: Seq<(usize, usize)>,
    x: Seq<(usize, usize)>,
    p: int,
    avoid_loss: bool,
    moves: Seq<(isize, isize)>,
)
    requires
        b.wf(),
        markers_valid(b, c, x),
        0 <= p < c.len(),
        unit_moves(moves),
        avoid_loss ==> loss_free(b, c, x, p, moves),
    ensures
        reach(b, c.len() as int, p, avoid_loss, key_of(b, c, x), moves.len()).contains(
            key_of(b, run(b, c, x, p, moves).0, run(b, c, x, p, moves).1),
        ),
    decreases moves.len(),
{
    let n = c.len() as int;
    let st = key_of(b, c, x);
    if moves.len() > 0 {
        let ms = moves.drop_last();
        assert(unit_moves(ms)) by {
            assert forall|i: int| 0 <= i < ms.len() implies is_unit_dir(#[trigger] ms[i].0, ms[i].1) by {
                assert(ms[i] == moves[i]);
            }
        }
        if avoid_loss {
            assert forall|i: int| 1 <= i <= ms.len() implies !aligned(b, flat_seq(b, #[trigger] run(b, c, x, p, ms.take(i)).1)) by {
                assert(ms.take(i) =~= moves.take(i));
                assert(!aligned(b, flat_seq(b, run(b, c, x, p, moves.take(i)).1)));
            }
        }
        lemma_run_in_reach(b, c, x, p, avoid_loss, ms);
        lemma_run_valid(b, c, x, p, ms);
        let r = run(b, c, x, p, ms);
        let m = moves.last();
        assert(is_unit_dir(moves[moves.len() - 1].0, moves[moves.len() - 1].1));
        lemma_key_of_forward(b, r.0, r.1, p, m);
        let kr = key_of(b, r.0, r.1);
        let prev = reach(b, n, p, avoid_loss, st, ms.len());
        let j: int = if m == dir_of(0) { 0 } else if m == dir_of(1) { 1 } else if m == dir_of(2) { 2 } else { 3 };
        assert(m == dir_of(j));
        let t = next_key(b, n, p, kr, dir_of(j));
        let after = forward(b, r.0, r.1, p, m.0 as int, m.1 as int);
        lemma_run_valid(b, c, x, p, moves);
        if avoid_loss {
            assert(moves.take(moves.len() as int) =~= moves);
            assert(!aligned(b, flat_seq(b, run(b, c, x, p, moves).1)));
            lemma_aligned_canon(b, flat_seq(b, after.1));
            assert(t.skip(n) =~= canon(flat_seq(b, after.1)));
        }
        assert(admitted(b, n, t, avoid_loss));
        assert(step_set(b, n, p, avoid_loss, prev, j).contains(t));
    }
}

/// Every key within `k` steps is the key of a position reached by at most `k` moves
/// (that never align the crosses, with the loss filter).
pub proof fn lemma_reach_by_run(
    b: &Board,
    c: Seq<(usize, usize)>,
    x: Seq<(usize, usize)>,
    p: int,
    avoid_loss: bool,
    k: nat,
    t: Seq<usize>,
)
    requires
        b.wf(),
        markers_valid(b, c, x),
        0 <= p < c.len(),
        reach(b, c.len() as int, p, avoid_loss, key_of(b, c, x), k).contains(t),
    ensures
        exists|moves: Seq<(isize, isize)>|
            moves.len() <= k && unit_moves(moves) && (avoid_loss ==> loss_free(b, c, x, p, moves)) && t == key_of(
                b,
                #[trigger] run(b, c, x, p, moves).0,
                run(b, c, x, p, moves).1,
            ),
    decreases k,
{
    let n = c.len() as int;
    let st = key_of(b, c, x);
    if k == 0 {
        let moves = Seq::<(isize, isize)>::empty();
        assert(run(b, c, x, p, moves) == (c, x));
        assert(unit_moves(moves));
        assert(set![st].contains(t));
        assert(t == st);
        assert(loss_free(b, c, x, p, moves));
        assert(t == key_of(b, run(b, c, x, p, moves).0, run(b, c, x, p, moves).1));
    } else {
        let prev = reach(b, n, p, avoid_loss, st, (k - 1) as nat);
        if prev.contains(t) {
            lemma_reach_by_run(b, c, x, p, avoid_loss, (k - 1) as nat, t);
        } else {
            let j = choose|j: int| 0 <= j < 4 && #[trigger] step_set(b, n, p, avoid_loss, prev, j).contains(t);
            let s = choose|s: Seq<usize>| prev.contains(s) && t == next_key(b, n, p, s, dir_of(j));
            lemma_reach_by_run(b, c, x, p, avoid_loss, (k - 1) as nat, s);
            let ms = choose|moves: Seq<(isize, isize)>|
                moves.len() <= k - 1 && unit_moves(moves) && (avoid_loss ==> loss_free(b, c, x, p, moves)) && s == key_of(
                    b,
                    #[trigger] run(b, c, x, p, moves).0,
                    run(b, c, x, p, moves).1,
                );
            lemma_run_valid(b, c, x, p, ms);
            let r = run(b, c, x, p, ms);
            lemma_key_of_forward(b, r.0, r.1, p, dir_of(j));
            let moves = ms.push(dir_of(j));
            crate::puzzle::lemma_run_push(b, c, x, p, ms, dir_of(j));
            assert(unit_moves(moves)) by {
                assert forall|i: int| 0 <= i < moves.len() implies is_unit_dir(#[trigger] moves[i].0, moves[i].1) by {
                    if i < ms.len() {
                        assert(moves[i] == ms[i]);
                    }
                }
            }
            assert(t == key_of(b, run(b, c, x, p, moves).0, run(b, c, x, p, moves).1));
            if avoid_loss {
                let after = run(b, c, x, p, moves);
                lemma_aligned_canon(b, flat_seq(b, after.1));
                assert(t.skip(n) =~= canon(flat_seq(b, after.1)));
                assert forall|i: int| 1 <= i <= moves.len() implies !aligned(b, flat_seq(b, #[trigger] run(b, c, x, p, moves.take(i)).1)) by {
                    if i <= ms.len() {
                        assert(moves.take(i) =~= ms.take(i));
                    } else {
                        assert(moves.take(i) =~= moves);
                    }
                }
            }
            assert(moves.len() <= k);
        }
    }
}

} // verus!
