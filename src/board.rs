use vstd::prelude::*;

verus! {

/// Largest number of cells a board may have: flat indices are kept small enough to be
/// stored as `u16` search keys.
pub const MAX_CELLS: usize = 65535;

/// An irregular grid: `rows` rows of possibly different widths, flattened row by row,
/// with a per-cell existence mask (`false` marks a hole).
pub struct Board {
    pub rows: usize,
    pub cols: usize,
    pub row_widths: Vec<usize>,
    pub row_offsets: Vec<usize>,
    pub total_cells: usize,
    pub cells: Vec<bool>,
    pub default_grid_w: u16,
    pub default_grid_h: u16,
}

/// `dr`/`dc` is one of the four orthogonal unit steps.
pub open spec fn is_unit_dir(dr: isize, dc: isize) -> bool {
    ||| (dr == -1 && dc == 0)
    ||| (dr == 1 && dc == 0)
    ||| (dr == 0 && dc == -1)
    ||| (dr == 0 && dc == 1)
}

/// The `k`-th of the four directions: up, down, left, right.
pub open spec fn dir_of(k: int) -> (isize, isize) {
    if k == 0 {
        (-1isize, 0isize)
    } else if k == 1 {
        (1, 0)
    } else if k == 2 {
        (0isize, -1isize)
    } else {
        (0, 1)
    }
}

impl Board {
    /// Geometry is consistent: offsets are prefix sums of the widths, the mask covers
    /// every cell, every row holds at least one cell and no row is wider than `cols`.
    pub open spec fn wf(&self) -> bool {
        &&& self.rows >= 1
        &&& self.row_widths@.len() == self.rows
        &&& self.row_offsets@.len() == self.rows
        &&& self.cells@.len() == self.total_cells
        &&& self.total_cells <= MAX_CELLS
        &&& self.row_offsets@[0] == 0
        &&& forall|r: int|
            0 < r < self.rows ==> #[trigger] self.row_offsets@[r] == self.row_offsets@[r - 1]
                + self.row_widths@[r - 1]
        &&& self.total_cells == self.row_offsets@[self.rows - 1] + self.row_widths@[self.rows - 1]
        &&& forall|r: int| 0 <= r < self.rows ==> #[trigger] self.row_widths@[r] >= 1
        &&& forall|r: int| 0 <= r < self.rows ==> #[trigger] self.row_widths@[r] <= self.cols
    }

    /// (r, c) lies inside the board's geometry (present or hole).
    pub open spec fn valid_rc(&self, r: int, c: int) -> bool {
        0 <= r < self.rows && 0 <= c < self.row_widths@[r]
    }

    /// The flat index of (r, c).
    pub open spec fn flat(&self, r: int, c: int) -> int {
        self.row_offsets@[r] + c
    }

    /// (r, c) is a playable cell.
    pub open spec fn present(&self, r: int, c: int) -> bool {
        self.valid_rc(r, c) && self.cells@[self.flat(r, c)]
    }

    pub open spec fn present_pos(&self, p: (usize, usize)) -> bool {
        self.present(p.0 as int, p.1 as int)
    }

    /// First row, from `r` on, whose cell range reaches past `f`.
    pub open spec fn row_from(&self, f: int, r: int) -> int
        decreases self.rows - r,
    {
        if r >= self.rows {
            r
        } else if f < self.row_offsets@[r] + self.row_widths@[r] {
            r
        } else {
            self.row_from(f, r + 1)
        }
    }

    /// The (row, column) of flat index `f`.
    pub open spec fn pos_of(&self, f: int) -> (usize, usize) {
        let r = self.row_from(f, 0);
        (r as usize, (f - self.row_offsets@[r]) as usize)
    }

    /// The playable cell one unit step away from `p`, if there is one.
    pub open spec fn step(&self, p: (usize, usize), dr: int, dc: int) -> Option<(usize, usize)> {
        let r = p.0 + dr;
        let c = p.1 + dc;
        if self.present(r, c) {
            Some((r as usize, c as usize))
        } else {
            None
        }
    }

    /// Flat index of the playable cell one unit step away from `p`, when there is one.
    pub open spec fn step_flat(&self, p: (usize, usize), dr: int, dc: int) -> int {
        let q = self.step(p, dr, dc).unwrap();
        self.flat(q.0 as int, q.1 as int)
    }

    pub proof fn lemma_offsets_grow(&self, r1: int, r2: int)
        requires
            self.wf(),
            0 <= r1 < r2 < self.rows,
        ensures
            self.row_offsets@[r2] >= self.row_offsets@[r1] + self.row_widths@[r1],
        decreases r2 - r1,
    {
        if r2 > r1 + 1 {
            self.lemma_offsets_grow(r1, r2 - 1);
        }
    }

    /// Every row holds a cell, so a row's offset is at least its number.
    pub proof fn lemma_offset_at_least_row(&self, r: int)
        requires
            self.wf(),
            0 <= r < self.rows,
        ensures
            self.row_offsets@[r] >= r,
        decreases r,
    {
        if r > 0 {
            self.lemma_offset_at_least_row(r - 1);
        }
    }

    pub proof fn lemma_row_end(&self, r: int)
        requires
            self.wf(),
            0 <= r < self.rows,
        ensures
            self.row_offsets@[r] + self.row_widths@[r] <= self.total_cells,
    {
        if r < self.rows - 1 {
            self.lemma_offsets_grow(r, self.rows - 1);
        }
    }

    /// Distinct cells have distinct flat indices, and every cell's index is in range.
    pub proof fn lemma_flat_injective(&self, r1: int, c1: int, r2: int, c2: int)
        requires
            self.wf(),
            self.valid_rc(r1, c1),
            self.valid_rc(r2, c2),
        ensures
            0 <= self.flat(r1, c1) < self.total_cells,
            self.flat(r1, c1) == self.flat(r2, c2) <==> (r1 == r2 && c1 == c2),
    {
        self.lemma_row_end(r1);
        if r1 < r2 {
            self.lemma_offsets_grow(r1, r2);
        } else if r2 < r1 {
            self.lemma_offsets_grow(r2, r1);
        }
    }

    proof fn lemma_row_from(&self, f: int, r: int)
        requires
            self.wf(),
            0 <= r < self.rows,
            self.row_offsets@[r] <= f < self.total_cells,
        ensures
            r <= self.row_from(f, r) < self.rows,
            self.row_offsets@[self.row_from(f, r)] <= f < self.row_offsets@[self.row_from(f, r)]
                + self.row_widths@[self.row_from(f, r)],
        decreases self.rows - r,
    {
        if f >= self.row_offsets@[r] + self.row_widths@[r] {
            assert(r + 1 < self.rows);
            self.lemma_row_from(f, r + 1);
        }
    }

    /// `pos_of` finds a valid cell whose flat index is `f`.
    pub proof fn lemma_pos_of(&self, f: int)
        requires
            self.wf(),
            0 <= f < self.total_cells,
        ensures
            self.valid_rc(self.pos_of(f).0 as int, self.pos_of(f).1 as int),
            self.flat(self.pos_of(f).0 as int, self.pos_of(f).1 as int) == f,
    {
        self.lemma_row_from(f, 0);
    }

    /// `pos_of` inverts `flat`.
    pub proof fn lemma_pos_of_flat(&self, r: int, c: int)
        requires
            self.wf(),
            self.valid_rc(r, c),
        ensures
            self.pos_of(self.flat(r, c)) == (r as usize, c as usize),
    {
        let f = self.flat(r, c);
        self.lemma_flat_injective(r, c, r, c);
        self.lemma_pos_of(f);
        let p = self.pos_of(f);
        self.lemma_flat_injective(r, c, p.0 as int, p.1 as int);
    }

    /// The flat index of (r, c).
    pub fn to_flat(&self, r: usize, c: usize) -> (f: usize)
        requires
            self.wf(),
            self.valid_rc(r as int, c as int),
        ensures
            f == self.flat(r as int, c as int),
            f < self.total_cells,
    {
        proof {
            self.lemma_row_end(r as int);
        }
        self.row_offsets[r] + c
    }

    /// The (row, column) of a flat index; the index must lie on the board.
    pub fn from_flat(&self, idx: usize) -> (rc: (usize, usize))
        requires
            self.wf(),
            idx < self.total_cells,
        ensures
            rc == self.pos_of(idx as int),
            self.valid_rc(rc.0 as int, rc.1 as int),
            self.flat(rc.0 as int, rc.1 as int) == idx,
    {
        proof {
            self.lemma_pos_of(idx as int);
        }
        let mut r: usize = 0;
        while r < self.rows
            invariant
                self.wf(),
                idx < self.total_cells,
                0 <= r <= self.rows,
                r < self.rows ==> self.row_offsets@[r as int] <= idx,
                r < self.rows ==> self.row_from(idx as int, r as int) == self.row_from(idx as int, 0),
                r >= self.rows ==> idx >= self.total_cells,
            decreases self.rows - r,
        {
            let start = self.row_offsets[r];
            let w = self.row_widths[r];
            proof {
                self.lemma_row_end(r as int);
            }
            if idx < start + w {
                return (r, idx - start);
            }
            r += 1;
        }
        (0, 0)
    }

    /// Whether (r, c) is a playable cell; (r, c) must lie inside the geometry.
    pub fn is_cell_present(&self, r: usize, c: usize) -> (b: bool)
        requires
            self.wf(),
            self.valid_rc(r as int, c as int),
        ensures
            b == self.present(r as int, c as int),
    {
        let idx = self.to_flat(r, c);
        self.cells[idx]
    }

    /// The playable cell one unit step from `p` in direction (dr, dc), if any.
    pub fn neighbor(&self, p: (usize, usize), dr: isize, dc: isize) -> (n: Option<(usize, usize)>)
        requires
            self.wf(),
            is_unit_dir(dr, dc),
        ensures
            n == self.step(p, dr as int, dc as int),
    {
        let r = if dr < 0 {
            if p.0 == 0 {
                return None;
            }
            p.0 - 1
        } else if dr > 0 {
            if p.0 >= self.rows {
                return None;
            }
            p.0 + 1
        } else {
            p.0
        };
        let c = if dc < 0 {
            if p.1 == 0 {
                return None;
            }
            p.1 - 1
        } else if dc > 0 {
            if p.1 >= self.cols {
                return None;
            }
            p.1 + 1
        } else {
            p.1
        };
        if r >= self.rows || c >= self.row_widths[r] {
            return None;
        }
        if self.is_cell_present(r, c) {
            Some((r, c))
        } else {
            None
        }
    }
}


impl Board {
    /// Flat index `f` is a playable cell.
    pub open spec fn present_flat(&self, f: int) -> bool {
        0 <= f < self.total_cells && self.cells@[f]
    }

    /// Flat indices `f` and `g` are playable cells that share a side.
    pub open spec fn adjacent(&self, f: int, g: int) -> bool {
        let a = self.pos_of(f);
        let b = self.pos_of(g);
        &&& self.present_flat(f)
        &&& self.present_flat(g)
        &&& ((a.0 == b.0 && (a.1 + 1 == b.1 || b.1 + 1 == a.1)) || (a.1 == b.1 && (a.0 + 1 == b.0 || b.0 + 1
            == a.0)))
    }

    /// A walk over playable cells, each step to a cell sharing a side.
    pub open spec fn is_path(&self, path: Seq<int>) -> bool {
        &&& path.len() >= 1
        &&& forall|i: int| 0 <= i < path.len() ==> self.present_flat(#[trigger] path[i])
        &&& forall|i: int| 0 <= i < path.len() - 1 ==> self.adjacent(#[trigger] path[i], path[i + 1])
    }

    /// Some walk over playable cells leads from `f` to `g`.
    pub open spec fn linked(&self, f: int, g: int) -> bool {
        exists|path: Seq<int>| #[trigger] self.is_path(path) && path[0] == f && path.last() == g
    }

    /// The playable cells are not empty and form a single 4-connected region.
    pub open spec fn connected(&self) -> bool {
        &&& exists|f: int| #[trigger] self.present_flat(f)
        &&& forall|f: int, g: int|
            self.present_flat(f) && self.present_flat(g) ==> #[trigger] self.linked(f, g)
    }

    pub proof fn lemma_linked_self(&self, f: int)
        requires
            self.present_flat(f),
        ensures
            self.linked(f, f),
    {
        let path = seq![f];
        assert(self.is_path(path));
    }

    /// A walk can be extended by one step.
    pub proof fn lemma_linked_step(&self, f: int, g: int, h: int)
        requires
            self.linked(f, g),
            self.adjacent(g, h),
        ensures
            self.linked(f, h),
    {
        let path = choose|path: Seq<int>| #[trigger] self.is_path(path) && path[0] == f && path.last() == g;
        let longer = path.push(h);
        assert forall|i: int| 0 <= i < longer.len() - 1 implies self.adjacent(#[trigger] longer[i], longer[i + 1]) by {
            if i < path.len() - 1 {
                assert(longer[i] == path[i] && longer[i + 1] == path[i + 1]);
            }
        }
        assert(self.is_path(longer));
    }

    /// A walk can be taken backwards.
    pub proof fn lemma_linked_symmetric(&self, f: int, g: int)
        requires
            self.linked(f, g),
        ensures
            self.linked(g, f),
    {
        let path = choose|path: Seq<int>| #[trigger] self.is_path(path) && path[0] == f && path.last() == g;
        let n = path.len();
        let rev = Seq::new(n, |i: int| path[n - 1 - i]);
        assert forall|i: int| 0 <= i < rev.len() - 1 implies self.adjacent(#[trigger] rev[i], rev[i + 1]) by {
            assert(self.adjacent(path[n - 2 - i], path[n - 2 - i + 1]));
        }
        assert(self.is_path(rev));
    }

    /// Two walks that meet can be joined.
    pub proof fn lemma_linked_trans(&self, f: int, g: int, h: int)
        requires
            self.linked(f, g),
            self.linked(g, h),
        ensures
            self.linked(f, h),
    {
        let head = choose|path: Seq<int>| #[trigger] self.is_path(path) && path[0] == f && path.last() == g;
        let tail = choose|path: Seq<int>| #[trigger] self.is_path(path) && path[0] == g && path.last() == h;
        let joined = head + tail.subrange(1, tail.len() as int);
        assert forall|i: int| 0 <= i < joined.len() implies self.present_flat(#[trigger] joined[i]) by {
            if i >= head.len() {
                assert(joined[i] == tail[i - head.len() + 1]);
            }
        }
        assert forall|i: int| 0 <= i < joined.len() - 1 implies self.adjacent(#[trigger] joined[i], joined[i + 1]) by {
            if i < head.len() - 1 {
                assert(joined[i] == head[i] && joined[i + 1] == head[i + 1]);
            } else if i == head.len() - 1 {
                assert(joined[i] == tail[0]);
                assert(joined[i + 1] == tail[1]);
            } else {
                assert(joined[i] == tail[i - head.len() + 1]);
                assert(joined[i + 1] == tail[i - head.len() + 2]);
            }
        }
        if tail.len() == 1 {
            assert(joined =~= head);
        } else {
            assert(joined.last() == tail.last());
        }
        assert(self.is_path(joined));
    }

    /// When every playable cell is linked to one playable cell, all are linked pairwise.
    pub proof fn lemma_connected_from_root(&self, root: int)
        requires
            self.present_flat(root),
            forall|f: int| self.present_flat(f) ==> #[trigger] self.linked(root, f),
        ensures
            self.connected(),
    {
        assert forall|f: int, g: int| self.present_flat(f) && self.present_flat(g) implies #[trigger] self.linked(f, g) by {
            assert(self.linked(root, f));
            assert(self.linked(root, g));
            self.lemma_linked_symmetric(root, f);
            self.lemma_linked_trans(f, root, g);
        }
    }

    /// Queues the unseen playable neighbour of `cur` in direction (dr, dc), if any.
    fn visit_neighbor(
        &self,
        seen: &mut Vec<bool>,
        queue: &mut Vec<usize>,
        cur: usize,
        p: (usize, usize),
        dr: isize,
        dc: isize,
        Ghost(root): Ghost<int>,
    )
        requires
            self.wf(),
            is_unit_dir(dr, dc),
            cur < self.total_cells,
            old(seen)@[cur as int],
            p == self.pos_of(cur as int),
            self.valid_rc(p.0 as int, p.1 as int),
            self.flat(p.0 as int, p.1 as int) == cur,
            old(seen)@.len() == self.total_cells,
            forall|f: int| 0 <= f < self.total_cells && #[trigger] old(seen)@[f] ==> self.present_flat(f)
                && self.linked(root, f),
            forall|k: int| 0 <= k < old(queue)@.len() ==> #[trigger] old(queue)@[k] < self.total_cells
                && old(seen)@[old(queue)@[k] as int],
            forall|f: int| 0 <= f < self.total_cells && #[trigger] old(seen)@[f] ==> old(queue)@.contains(f as usize),
            old(queue)@.no_duplicates(),
        ensures
            final(seen)@.len() == self.total_cells,
            forall|f: int| 0 <= f < self.total_cells && #[trigger] old(seen)@[f] ==> final(seen)@[f],
            forall|f: int| 0 <= f < self.total_cells && #[trigger] final(seen)@[f] ==> self.present_flat(f)
                && self.linked(root, f),
            forall|k: int| 0 <= k < final(queue)@.len() ==> #[trigger] final(queue)@[k] < self.total_cells
                && final(seen)@[final(queue)@[k] as int],
            forall|f: int| 0 <= f < self.total_cells && #[trigger] final(seen)@[f] ==> final(queue)@.contains(f as usize),
            final(queue)@.no_duplicates(),
            final(queue)@.len() <= self.total_cells,
            final(queue)@.len() >= old(queue)@.len(),
            final(queue)@.subrange(0, old(queue)@.len() as int) == old(queue)@,
            self.step(p, dr as int, dc as int) is Some ==> final(seen)@[self.step_flat(p, dr as int, dc as int)],
    {
        proof {
            lemma_distinct_below(queue@, self.total_cells);
        }
        let ghost q0 = queue@;
        if let Some(n) = self.neighbor(p, dr, dc) {
            let g = self.to_flat(n.0, n.1);
            if !seen[g] {
                proof {
                    self.lemma_pos_of_flat(n.0 as int, n.1 as int);
                    assert(self.adjacent(cur as int, g as int));
                    self.lemma_linked_step(root, cur as int, g as int);
                }
                enqueue(seen, queue, g, self.total_cells);
                proof {
                    assert forall|f: int| 0 <= f < self.total_cells && #[trigger] seen@[f] implies queue@.contains(f as usize) by {
                        if f == g as int {
                            assert(queue@[queue@.len() - 1] == g);
                        } else {
                            let k = choose|k: int| 0 <= k < q0.len() && q0[k] == f as usize;
                            assert(queue@[k] == f as usize);
                        }
                    }
                }
            }
        }
        assert(queue@.subrange(0, q0.len() as int) =~= q0);
    }

    /// Cells that share a side are one unit step apart.
    #[verifier::rlimit(40)]
    proof fn lemma_adjacent_is_step(&self, f: int, g: int)
        requires
            self.wf(),
            self.adjacent(f, g),
        ensures
            exists|j: int|
                0 <= j < 4 && #[trigger] self.step(self.pos_of(f), dir_of(j).0 as int, dir_of(j).1 as int)
                    == Some(self.pos_of(g)),
            self.flat(self.pos_of(g).0 as int, self.pos_of(g).1 as int) == g,
    {
        self.lemma_pos_of(f);
        self.lemma_pos_of(g);
        let a = self.pos_of(f);
        let b = self.pos_of(g);
        assert(self.present(b.0 as int, b.1 as int));
        assert(self.present_pos(b));
        if a.0 == b.0 && a.1 + 1 == b.1 {
            assert(self.step(a, dir_of(3).0 as int, dir_of(3).1 as int) == Some(b));
        } else if a.0 == b.0 {
            assert(self.step(a, dir_of(2).0 as int, dir_of(2).1 as int) == Some(b));
        } else if a.0 + 1 == b.0 {
            assert(self.step(a, dir_of(1).0 as int, dir_of(1).1 as int) == Some(b));
        } else {
            assert(self.step(a, dir_of(0).0 as int, dir_of(0).1 as int) == Some(b));
        }
    }

    /// In a seen set closed under side steps, every cell of a walk from a seen cell is seen.
    proof fn lemma_closed_walk(&self, seen: Seq<bool>, queue: Seq<usize>, path: Seq<int>, i: int)
        requires
            self.wf(),
            self.is_path(path),
            0 <= i < path.len(),
            seen.len() == self.total_cells,
            seen[path[0]],
            forall|f: int| 0 <= f < self.total_cells && #[trigger] seen[f] ==> queue.contains(f as usize),
            forall|k: int, g: int| 0 <= k < queue.len() && #[trigger] self.adjacent(queue[k] as int, g) ==> seen[g],
        ensures
            seen[path[i]],
        decreases i,
    {
        if i > 0 {
            self.lemma_closed_walk(seen, queue, path, i - 1);
            let prev = path[i - 1];
            assert(self.present_flat(prev));
            let k = choose|k: int| 0 <= k < queue.len() && queue[k] == prev as usize;
            assert(self.adjacent(prev, path[i]));
            assert(self.adjacent(queue[k] as int, path[i]));
        }
    }

    /// Whether the playable cells are not empty and form one 4-connected region: a
    /// breadth-first search from the first playable cell must reach them all.
    pub fn present_cells_connected(&self) -> (ok: bool)
        requires
            self.wf(),
        ensures
            ok == self.connected(),
    {
        let mut start: usize = 0;
        while start < self.total_cells && !self.cells[start]
            invariant
                self.wf(),
                start <= self.total_cells,
                forall|f: int| 0 <= f < start ==> !#[trigger] self.present_flat(f),
            decreases self.total_cells - start,
        {
            start += 1;
        }
        if start >= self.total_cells {
            return false;
        }
        let ghost root = start as int;
        proof {
            self.lemma_linked_self(root);
        }
        let mut seen: Vec<bool> = Vec::new();
        let mut i: usize = 0;
        while i < self.total_cells
            invariant
                self.wf(),
                i <= self.total_cells,
                seen@.len() == i,
                forall|f: int| 0 <= f < i ==> !#[trigger] seen@[f],
            decreases self.total_cells - i,
        {
            seen.push(false);
            i += 1;
        }
        seen.set(start, true);
        let mut queue: Vec<usize> = Vec::new();
        queue.push(start);
        proof {
            assert forall|f: int| 0 <= f < self.total_cells && #[trigger] seen@[f] implies queue@.contains(f as usize) by {
                assert(f == start);
                assert(queue@[0] == start);
            }
        }
        let mut qi: usize = 0;
        while qi < queue.len()
            invariant
                self.wf(),
                self.present_flat(root),
                seen@.len() == self.total_cells,
                seen@[root],
                forall|f: int| 0 <= f < self.total_cells && #[trigger] seen@[f] ==> self.present_flat(f)
                    && self.linked(root, f),
                forall|k: int| 0 <= k < queue@.len() ==> #[trigger] queue@[k] < self.total_cells
                    && seen@[queue@[k] as int],
                forall|f: int| 0 <= f < self.total_cells && #[trigger] seen@[f] ==> queue@.contains(f as usize),
                forall|k: int, g: int| 0 <= k < qi && #[trigger] self.adjacent(queue@[k] as int, g) ==> seen@[g],
                queue@.len() <= self.total_cells,
                queue@.no_duplicates(),
                qi <= queue@.len(),
            decreases self.total_cells - qi,
        {
            let cur = queue[qi];
            let p = self.from_flat(cur);
            let ghost q_before = queue@;
            let ghost seen_before = seen@;
            let mut k: usize = 0;
            while k < 4
                invariant
                    self.wf(),
                    self.present_flat(root),
                    cur < self.total_cells,
                    seen@[cur as int],
                    seen@[root],
                    p == self.pos_of(cur as int),
                    self.valid_rc(p.0 as int, p.1 as int),
                    self.flat(p.0 as int, p.1 as int) == cur,
                    seen@.len() == self.total_cells,
                    forall|f: int| 0 <= f < self.total_cells && #[trigger] seen@[f] ==> self.present_flat(f)
                        && self.linked(root, f),
                    forall|k: int| 0 <= k < queue@.len() ==> #[trigger] queue@[k] < self.total_cells
                        && seen@[queue@[k] as int],
                    forall|f: int| 0 <= f < self.total_cells && #[trigger] seen@[f] ==> queue@.contains(f as usize),
                    seen_before.len() == self.total_cells,
                    forall|f: int| 0 <= f < self.total_cells && #[trigger] seen_before[f] ==> seen@[f],
                    queue@.no_duplicates(),
                    queue@.len() <= self.total_cells,
                    queue@.len() >= q_before.len(),
                    queue@.subrange(0, q_before.len() as int) == q_before,
                    qi < q_before.len(),
                    q_before[qi as int] == cur,
                    k <= 4,
                    forall|j: int|
                        0 <= j < k && #[trigger] self.step(p, dir_of(j).0 as int, dir_of(j).1 as int) is Some
                            ==> seen@[self.step_flat(p, dir_of(j).0 as int, dir_of(j).1 as int)],
                decreases 4 - k,
            {
                let (dr, dc) = crate::search::direction(k);
                let ghost seen_k = seen@;
                let ghost q_k = queue@;
                self.visit_neighbor(&mut seen, &mut queue, cur, p, dr, dc, Ghost(root));
                proof {
                    assert(queue@.subrange(0, q_before.len() as int) =~= q_before) by {
                        assert forall|t: int| 0 <= t < q_before.len() implies queue@[t] == q_before[t] by {
                            assert(queue@.subrange(0, q_k.len() as int)[t] == q_k[t]);
                            assert(q_k.subrange(0, q_before.len() as int)[t] == q_before[t]);
                        }
                    }
                    assert forall|j: int|
                        0 <= j < k + 1 && #[trigger] self.step(p, dir_of(j).0 as int, dir_of(j).1 as int) is Some
                            implies seen@[self.step_flat(p, dir_of(j).0 as int, dir_of(j).1 as int)] by {
                        if j < k {
                            let st = self.step(p, dir_of(j).0 as int, dir_of(j).1 as int).unwrap();
                            self.lemma_flat_injective(st.0 as int, st.1 as int, st.0 as int, st.1 as int);
                            assert(seen_k[self.flat(st.0 as int, st.1 as int)]);
                        }
                    }
                }
                k += 1;
            }
            proof {
                assert forall|kk: int, g: int| 0 <= kk < qi + 1 && #[trigger] self.adjacent(queue@[kk] as int, g)
                    implies seen@[g] by {
                    assert(queue@[kk] == q_before[kk]);
                    if kk < qi {
                        self.lemma_pos_of(g);
                        assert(seen_before[g]);
                    } else {
                        self.lemma_adjacent_is_step(cur as int, g);
                        let j = choose|j: int|
                            0 <= j < 4 && #[trigger] self.step(self.pos_of(cur as int), dir_of(j).0 as int, dir_of(j).1 as int)
                                == Some(self.pos_of(g));
                        assert(self.step(p, dir_of(j).0 as int, dir_of(j).1 as int) is Some);
                    }
                }
            }
            qi += 1;
        }
        let mut f: usize = 0;
        while f < self.total_cells
            invariant
                self.wf(),
                self.present_flat(root),
                seen@.len() == self.total_cells,
                forall|h: int| 0 <= h < self.total_cells && #[trigger] seen@[h] ==> self.present_flat(h)
                    && self.linked(root, h),
                forall|h: int| 0 <= h < f && self.present_flat(h) ==> #[trigger] seen@[h],
                seen@[root],
                forall|h: int| 0 <= h < self.total_cells && #[trigger] seen@[h] ==> queue@.contains(h as usize),
                forall|k: int, g: int| 0 <= k < queue@.len() && #[trigger] self.adjacent(queue@[k] as int, g) ==> seen@[g],
            decreases self.total_cells - f,
        {
            if self.cells[f] && !seen[f] {
                proof {
                    if self.connected() {
                        assert(self.linked(root, f as int));
                        let path = choose|path: Seq<int>| #[trigger] self.is_path(path) && path[0] == root
                            && path.last() == f as int;
                        self.lemma_closed_walk(seen@, queue@, path, path.len() - 1);
                    }
                }
                return false;
            }
            f += 1;
        }
        proof {
            assert forall|h: int| self.present_flat(h) implies #[trigger] self.linked(root, h) by {
                assert(seen@[h]);
            }
            self.lemma_connected_from_root(root);
        }
        true
    }
}

/// Two boards with the same rows and mask have the same offsets.
proof fn lemma_same_offsets(b1: &Board, b2: &Board, r: int)
    requires
        b1.wf(),
        b2.wf(),
        b1.row_widths@ == b2.row_widths@,
        0 <= r < b1.rows,
    ensures
        b1.row_offsets@[r] == b2.row_offsets@[r],
    decreases r,
{
    if r > 0 {
        lemma_same_offsets(b1, b2, r - 1);
    }
}

proof fn lemma_same_row_from(b1: &Board, b2: &Board, f: int, r: int)
    requires
        b1.rows == b2.rows,
        b1.row_widths@ == b2.row_widths@,
        b1.row_offsets@ == b2.row_offsets@,
    ensures
        b1.row_from(f, r) == b2.row_from(f, r),
    decreases b1.rows - r,
{
    if r < b1.rows {
        lemma_same_row_from(b1, b2, f, r + 1);
    }
}

/// Whether the playable cells are connected depends on the row widths and the mask alone.
pub proof fn lemma_connected_by_shape(b1: &Board, b2: &Board)
    requires
        b1.wf(),
        b2.wf(),
        b1.row_widths@ == b2.row_widths@,
        b1.cells@ == b2.cells@,
    ensures
        b1.connected() == b2.connected(),
{
    assert forall|r: int| 0 <= r < b1.rows implies b1.row_offsets@[r] == b2.row_offsets@[r] by {
        lemma_same_offsets(b1, b2, r);
    }
    assert(b1.row_offsets@ =~= b2.row_offsets@);
    assert forall|f: int| #[trigger] b1.pos_of(f) == b2.pos_of(f) by {
        lemma_same_row_from(b1, b2, f, 0);
    }
    assert forall|f: int, g: int| #[trigger] b1.adjacent(f, g) == b2.adjacent(f, g) by {
        assert(b1.pos_of(f) == b2.pos_of(f));
        assert(b1.pos_of(g) == b2.pos_of(g));
    }
    assert forall|path: Seq<int>| #[trigger] b1.is_path(path) == b2.is_path(path) by {
        if b1.is_path(path) {
            assert forall|i: int| 0 <= i < path.len() - 1 implies b2.adjacent(#[trigger] path[i], path[i + 1]) by {
                assert(b1.adjacent(path[i], path[i + 1]));
            }
        }
        if b2.is_path(path) {
            assert forall|i: int| 0 <= i < path.len() - 1 implies b1.adjacent(#[trigger] path[i], path[i + 1]) by {
                assert(b2.adjacent(path[i], path[i + 1]));
            }
        }
    }
    assert forall|f: int, g: int| #[trigger] b1.linked(f, g) == b2.linked(f, g) by {
        if b1.linked(f, g) {
            let path = choose|path: Seq<int>| #[trigger] b1.is_path(path) && path[0] == f && path.last() == g;
            assert(b2.is_path(path));
        }
        if b2.linked(f, g) {
            let path = choose|path: Seq<int>| #[trigger] b2.is_path(path) && path[0] == f && path.last() == g;
            assert(b1.is_path(path));
        }
    }
    assert(b1.total_cells == b2.total_cells);
    assert forall|f: int| #[trigger] b1.present_flat(f) == b2.present_flat(f) by {}
    if b1.connected() {
        let f = choose|f: int| #[trigger] b1.present_flat(f);
        assert(b2.present_flat(f));
        assert forall|f: int, g: int| b2.present_flat(f) && b2.present_flat(g) implies #[trigger] b2.linked(f, g) by {
            assert(b1.present_flat(f) && b1.present_flat(g));
            assert(b1.linked(f, g));
        }
    }
    if b2.connected() {
        let f = choose|f: int| #[trigger] b2.present_flat(f);
        assert(b1.present_flat(f));
        assert forall|f: int, g: int| b1.present_flat(f) && b1.present_flat(g) implies #[trigger] b1.linked(f, g) by {
            assert(b2.present_flat(f) && b2.present_flat(g));
            assert(b2.linked(f, g));
        }
    }
}

/// Marks `g` as seen and appends it to the queue of seen values below `n`.
pub fn enqueue(seen: &mut Vec<bool>, queue: &mut Vec<usize>, g: usize, n: usize)
    requires
        old(seen)@.len() == n,
        g < n,
        !old(seen)@[g as int],
        forall|k: int| 0 <= k < old(queue)@.len() ==> #[trigger] old(queue)@[k] < n && old(seen)@[old(queue)@[k] as int],
        old(queue)@.no_duplicates(),
    ensures
        final(seen)@ == old(seen)@.update(g as int, true),
        final(queue)@ == old(queue)@.push(g),
        forall|k: int| 0 <= k < final(queue)@.len() ==> #[trigger] final(queue)@[k] < n && final(seen)@[final(queue)@[k] as int],
        final(queue)@.no_duplicates(),
        final(queue)@.len() <= n,
{
    let ghost old_queue = queue@;
    assert(!old_queue.contains(g));
    seen.set(g, true);
    queue.push(g);
    proof {
        assert forall|a: int, b: int| 0 <= a < queue@.len() && 0 <= b < queue@.len() && a != b implies queue@[a]
            != queue@[b] by {
            if b == queue@.len() - 1 {
                assert(old_queue.contains(old_queue[a]));
            } else if a == queue@.len() - 1 {
                assert(old_queue.contains(old_queue[b]));
            }
        }
        lemma_distinct_below(queue@, n);
    }
}

/// Distinct values below `n` number at most `n`.
pub proof fn lemma_distinct_below(q: Seq<usize>, n: usize)
    requires
        q.no_duplicates(),
        forall|k: int| 0 <= k < q.len() ==> #[trigger] q[k] < n,
    ensures
        q.len() <= n,
{
    let s = q.to_set();
    q.unique_seq_to_set();
    let r = Set::new(|x: usize| x < n);
    assert(s.subset_of(r));
    lemma_usize_range_len(n);
    vstd::set_lib::lemma_len_subset(s, r);
}

/// The set of `usize` values below `n` has `n` elements.
proof fn lemma_usize_range_len(n: usize)
    ensures
        Set::new(|x: usize| x < n).finite(),
        Set::new(|x: usize| x < n).len() == n,
    decreases n,
{
    let s = Set::new(|x: usize| x < n);
    if n == 0 {
        assert(s =~= Set::empty());
    } else {
        let m = (n - 1) as usize;
        lemma_usize_range_len(m);
        let t = Set::new(|x: usize| x < m);
        assert(s =~= t.insert(m));
    }
}

} // verus!
