use vstd::prelude::*;
use crate::board::{Board, MAX_CELLS, enqueue};
use crate::random::random_in;

verus! {

/// Every row has the same width, `cols`.
pub open spec fn rectangular(b: &Board) -> bool {
    forall|r: int| 0 <= r < b.rows ==> #[trigger] b.row_widths@[r] == b.cols
}

/// Number of `true` entries.
pub open spec fn count_true(s: Seq<bool>) -> int
    decreases s.len(),
{
    if s.len() == 0 {
        0
    } else {
        count_true(s.drop_last()) + if s.last() { 1int } else { 0int }
    }
}

/// Setting one entry changes the count by that entry alone.
pub proof fn lemma_count_true_update(s: Seq<bool>, i: int, v: bool)
    requires
        0 <= i < s.len(),
    ensures
        count_true(s.update(i, v)) == count_true(s) - (if s[i] { 1int } else { 0int }) + (if v { 1int } else { 0int }),
    decreases s.len(),
{
    let t = s.update(i, v);
    if i < s.len() - 1 {
        lemma_count_true_update(s.drop_last(), i, v);
        assert(t.drop_last() =~= s.drop_last().update(i, v));
    } else {
        assert(t.drop_last() =~= s.drop_last());
    }
}

/// A mask that is all `true` counts its length.
pub proof fn lemma_count_true_full(s: Seq<bool>)
    requires
        forall|i: int| 0 <= i < s.len() ==> #[trigger] s[i],
    ensures
        count_true(s) == s.len(),
    decreases s.len(),
{
    if s.len() > 0 {
        lemma_count_true_full(s.drop_last());
    }
}

/// Every cell of the board is playable.
pub open spec fn full(b: &Board) -> bool {
    forall|f: int| 0 <= f < b.total_cells ==> #[trigger] b.cells@[f]
}

/// On a full rectangle every cell is linked to the first one.
proof fn lemma_full_linked(b: &Board, r: int, c: int)
    requires
        b.wf(),
        rectangular(b),
        full(b),
        b.valid_rc(r, c),
    ensures
        b.linked(0, b.flat(r, c)),
    decreases r, c,
{
    b.lemma_flat_injective(r, c, r, c);
    if r == 0 && c == 0 {
        b.lemma_linked_self(0);
    } else if c > 0 {
        lemma_full_linked(b, r, c - 1);
        b.lemma_flat_injective(r, c - 1, r, c - 1);
        b.lemma_pos_of_flat(r, c - 1);
        b.lemma_pos_of_flat(r, c);
        assert(b.adjacent(b.flat(r, c - 1), b.flat(r, c)));
        b.lemma_linked_step(0, b.flat(r, c - 1), b.flat(r, c));
    } else {
        assert(b.row_widths@[r - 1] == b.cols);
        lemma_full_linked(b, r - 1, c);
        b.lemma_flat_injective(r - 1, c, r - 1, c);
        b.lemma_pos_of_flat(r - 1, c);
        b.lemma_pos_of_flat(r, c);
        assert(b.adjacent(b.flat(r - 1, c), b.flat(r, c)));
        b.lemma_linked_step(0, b.flat(r - 1, c), b.flat(r, c));
    }
}

/// A full rectangle is connected.
proof fn lemma_full_connected(b: &Board)
    requires
        b.wf(),
        rectangular(b),
        full(b),
    ensures
        b.connected(),
{
    b.lemma_flat_injective(0, 0, 0, 0);
    assert forall|f: int| b.present_flat(f) implies #[trigger] b.linked(0, f) by {
        b.lemma_pos_of(f);
        let p = b.pos_of(f);
        lemma_full_linked(b, p.0 as int, p.1 as int);
    }
    b.lemma_connected_from_root(0);
}

/// Sum of the row widths.
pub open spec fn width_sum(widths: Seq<usize>) -> int
    decreases widths.len(),
{
    if widths.len() == 0 {
        0
    } else {
        width_sum(widths.drop_last()) + widths.last()
    }
}

/// Row widths and a mask that describe a board: at least one row, every row holds a cell,
/// the mask covers every cell and the board has at most `MAX_CELLS` cells.
pub open spec fn shape_ok(widths: Seq<usize>, cells: Seq<bool>) -> bool {
    &&& widths.len() >= 1
    &&& forall|r: int| 0 <= r < widths.len() ==> #[trigger] widths[r] >= 1
    &&& width_sum(widths) == cells.len()
    &&& cells.len() <= MAX_CELLS
}

/// The smallest row width that gives at least 20 cells on `rows` rows (3 to 8 rows).
pub open spec fn min_width(rows: usize) -> usize {
    if rows == 3 {
        7
    } else if rows == 4 {
        5
    } else if rows <= 6 {
        4
    } else {
        3
    }
}

/// Row and column distance between two cells.
fn manhattan(a: (usize, usize), b: (usize, usize)) -> (d: usize)
    requires
        a.0 <= MAX_CELLS && a.1 <= MAX_CELLS && b.0 <= MAX_CELLS && b.1 <= MAX_CELLS,
{
    let dr = if a.0 >= b.0 { a.0 - b.0 } else { b.0 - a.0 };
    let dc = if a.1 >= b.1 { a.1 - b.1 } else { b.1 - a.1 };
    dr + dc
}

/// Offsets of the rows (prefix sums of the widths), the cell count and the largest width;
/// `None` when there is no row, a row is empty or the board would exceed `MAX_CELLS`.
fn prefix_offsets(row_widths: &Vec<usize>) -> (out: Option<(Vec<usize>, usize, usize)>)
    ensures
        match out {
            Some((row_offsets, total, cols)) => {
                let rows = row_widths@.len();
                &&& rows >= 1
                &&& row_offsets@.len() == rows
                &&& total <= MAX_CELLS
                &&& total == width_sum(row_widths@)
                &&& forall|i: int| 0 <= i < rows ==> #[trigger] row_widths@[i] >= 1
                &&& forall|i: int| 0 <= i < rows ==> #[trigger] row_widths@[i] <= cols
                &&& row_offsets@[0] == 0
                &&& forall|i: int| 0 < i < rows ==> #[trigger] row_offsets@[i] == row_offsets@[i - 1] + row_widths@[i - 1]
                &&& total == row_offsets@[rows - 1] + row_widths@[rows - 1]
                &&& cols <= total
                &&& rows <= total
            },
            None => !(row_widths@.len() >= 1 && (forall|r: int| 0 <= r < row_widths@.len() ==> #[trigger] row_widths@[r] >= 1)
                && width_sum(row_widths@) <= MAX_CELLS),
        },
{
    let rows = row_widths.len();
    if rows == 0 {
        return None;
    }
    let mut row_offsets: Vec<usize> = Vec::new();
    let mut total: usize = 0;
    let mut cols: usize = 0;
    let mut r: usize = 0;
    while r < rows
        invariant
            rows == row_widths@.len(),
            r <= rows,
            row_offsets@.len() == r,
            total <= MAX_CELLS,
            total == width_sum(row_widths@.subrange(0, r as int)),
            forall|i: int| 0 <= i < r ==> #[trigger] row_widths@[i] >= 1,
            forall|i: int| 0 <= i < r ==> #[trigger] row_widths@[i] <= cols,
            r > 0 ==> row_offsets@[0] == 0,
            forall|i: int| 0 < i < r ==> #[trigger] row_offsets@[i] == row_offsets@[i - 1] + row_widths@[i - 1],
            r > 0 ==> total == row_offsets@[r - 1] + row_widths@[r - 1],
            r == 0 ==> total == 0,
            cols <= total,
            r <= total,
        decreases rows - r,
    {
        let w = row_widths[r];
        proof {
            assert(row_widths@.subrange(0, r + 1).drop_last() =~= row_widths@.subrange(0, r as int));
        }
        if w == 0 {
            return None;
        }
        if w > MAX_CELLS - total {
            proof {
                lemma_width_sum_grows(row_widths@, r as int + 1);
            }
            return None;
        }
        row_offsets.push(total);
        total = total + w;
        if w > cols {
            cols = w;
        }
        r += 1;
    }
    proof {
        assert(row_widths@.subrange(0, rows as int) =~= row_widths@);
    }
    Some((row_offsets, total, cols))
}

impl Board {
    /// The board with the given row widths and existence mask (flattened row by row).
    /// `None` when they do not describe a board, or when the playable cells are empty or
    /// do not form one 4-connected region.
    pub fn new(row_widths: Vec<usize>, cells: Vec<bool>) -> (out: Option<Board>)
        ensures
            match out {
                Some(b) => {
                    &&& b.wf()
                    &&& b.connected()
                    &&& b.row_widths@ == row_widths@
                    &&& b.cells@ == cells@
                    &&& shape_ok(row_widths@, cells@)
                },
                None => !shape_ok(row_widths@, cells@) || forall|b: Board|
                    b.wf() && b.row_widths@ == row_widths@ && b.cells@ == cells@ ==> !#[trigger] b.connected(),
            },
    {
        let rows = row_widths.len();
        let (row_offsets, total, cols) = match prefix_offsets(&row_widths) {
            Some(t) => t,
            None => return None,
        };
        if cells.len() != total {
            return None;
        }
        let b = Board::assemble(row_widths, row_offsets, total, cols, cells);
        if b.present_cells_connected() {
            Some(b)
        } else {
            proof {
                assert forall|b2: Board|
                    b2.wf() && b2.row_widths@ == b.row_widths@ && b2.cells@ == b.cells@ implies !#[trigger] b2.connected() by {
                    crate::board::lemma_connected_by_shape(&b, &b2);
                }
            }
            None
        }
    }

    /// The board made of checked parts.
    fn assemble(
        row_widths: Vec<usize>,
        row_offsets: Vec<usize>,
        total: usize,
        cols: usize,
        cells: Vec<bool>,
    ) -> (b: Board)
        requires
            row_widths@.len() >= 1,
            row_offsets@.len() == row_widths@.len(),
            total <= MAX_CELLS,
            cells@.len() == total,
            forall|i: int| 0 <= i < row_widths@.len() ==> #[trigger] row_widths@[i] >= 1,
            forall|i: int| 0 <= i < row_widths@.len() ==> #[trigger] row_widths@[i] <= cols,
            row_offsets@[0] == 0,
            forall|i: int|
                0 < i < row_widths@.len() ==> #[trigger] row_offsets@[i] == row_offsets@[i - 1] + row_widths@[i
                    - 1],
            total == row_offsets@[row_widths@.len() - 1] + row_widths@[row_widths@.len() - 1],
            cols <= total,
            row_widths@.len() <= total,
        ensures
            b.wf(),
            b.row_widths@ == row_widths@,
            b.cells@ == cells@,
    {
        let rows = row_widths.len();
        Board {
            rows,
            cols,
            row_widths,
            row_offsets,
            total_cells: total,
            cells,
            default_grid_w: (4 * cols + 1) as u16,
            default_grid_h: (2 * rows + 1) as u16,
        }
    }

    /// A full `rows` x `cols` rectangle.
    fn full_rectangle(rows: usize, cols: usize) -> (b: Board)
        requires
            3 <= rows <= 8,
            1 <= cols <= 15,
        ensures
            b.wf(),
            rectangular(&b),
            full(&b),
            b.rows == rows,
            b.cols == cols,
            b.default_grid_w == 4 * cols + 1,
            b.default_grid_h == 2 * rows + 1,
    {
        let mut row_widths: Vec<usize> = Vec::new();
        let mut row_offsets: Vec<usize> = Vec::new();
        let mut total: usize = 0;
        let mut r: usize = 0;
        while r < rows
            invariant
                r <= rows <= 8,
                1 <= cols <= 15,
                row_widths@.len() == r,
                row_offsets@.len() == r,
                total <= 15 * r,
                forall|i: int| 0 <= i < r ==> #[trigger] row_widths@[i] == cols,
                r > 0 ==> row_offsets@[0] == 0,
                forall|i: int| 0 < i < r ==> #[trigger] row_offsets@[i] == row_offsets@[i - 1] + row_widths@[i - 1],
                r > 0 ==> total == row_offsets@[r - 1] + row_widths@[r - 1],
                r == 0 ==> total == 0,
            decreases rows - r,
        {
            row_offsets.push(total);
            row_widths.push(cols);
            total = total + cols;
            r += 1;
        }
        let mut cells: Vec<bool> = Vec::new();
        let mut i: usize = 0;
        while i < total
            invariant
                i <= total,
                cells@.len() == i,
                forall|f: int| 0 <= f < i ==> #[trigger] cells@[f],
            decreases total - i,
        {
            cells.push(true);
            i += 1;
        }
        Board {
            rows,
            cols,
            row_widths,
            row_offsets,
            total_cells: total,
            cells,
            default_grid_w: (4 * cols + 1) as u16,
            default_grid_h: (2 * rows + 1) as u16,
        }
    }

    /// A random irregular board: 3 to 8 rows of equal width, at least 20 cells, with
    /// random-walk holes carved out (about 6% to 16% of the cells, at least 6 cells kept)
    /// and the remaining pieces joined by corridors. The playable cells always form one
    /// 4-connected region; should they not, no holes are kept.
    pub fn random() -> (b: Board)
        ensures
            b.wf(),
            b.connected(),
            rectangular(&b),
            3 <= b.rows <= 8,
            min_width(b.rows) <= b.cols <= min_width(b.rows) + 8,
            b.total_cells == b.rows * b.cols,
            b.total_cells >= 20,
            b.default_grid_w == 4 * b.cols + 1,
            b.default_grid_h == 2 * b.rows + 1,
            count_true(b.cells@) >= 6,
            b.total_cells - count_true(b.cells@) <= (b.total_cells * 159 + 500) / 1000,
    {
        let rows = random_in(3, 8);
        // the smallest width that gives at least 20 cells
        let min_cols: usize = if rows == 3 {
            7
        } else if rows == 4 {
            5
        } else if rows <= 6 {
            4
        } else {
            3
        };
        assert(rows * min_cols >= 20) by (nonlinear_arith)
            requires
                3 <= rows <= 8,
                rows == 3 ==> min_cols == 7,
                rows == 4 ==> min_cols == 5,
                5 <= rows <= 6 ==> min_cols == 4,
                7 <= rows ==> min_cols == 3,
        ;
        let cols = random_in(min_cols, min_cols + 8);
        let mut b = Board::full_rectangle(rows, cols);
        proof {
            lemma_rect_total(&b);
            assert(rows * cols >= rows * min_cols) by (nonlinear_arith)
                requires
                    cols >= min_cols,
            ;
        }
        let total = b.total_cells;

        let hole_per_mille = random_in(60, 159);
        assert(total * hole_per_mille <= 120 * 159) by (nonlinear_arith)
            requires
                total <= 120,
                hole_per_mille <= 159,
        ;
        let mut target = (total * hole_per_mille + 500) / 1000;
        proof {
            assert((total * hole_per_mille + 500) / 1000 <= (total * 159 + 500) / 1000) by (nonlinear_arith)
                requires
                    hole_per_mille <= 159,
            ;
            assert((total * 159 + 500) / 1000 >= 1) by (nonlinear_arith)
                requires
                    total >= 20,
            ;
            lemma_count_true_full(b.cells@);
        }
        if target == 0 && total > 8 {
            target = 1;
        }
        if target > total - 6 {
            target = total - 6;
        }
        if target > 0 {
            b.carve_holes(target);
            b.join_pieces();
        }
        if !b.present_cells_connected() {
            let mut f: usize = 0;
            while f < b.total_cells
                invariant
                    b.wf(),
                    rectangular(&b),
                    3 <= b.rows <= 8,
                    b.total_cells >= 20,
                    b.rows == rows,
                    b.cols == cols,
                    min_width(rows) == min_cols,
                    min_cols <= cols <= min_cols + 8,
                    b.total_cells == rows * cols,
                    b.default_grid_w == 4 * cols + 1,
                    b.default_grid_h == 2 * rows + 1,
                    forall|h: int| 0 <= h < f ==> #[trigger] b.cells@[h],
                decreases b.total_cells - f,
            {
                b.cells.set(f, true);
                f += 1;
            }
            proof {
                lemma_full_connected(&b);
                lemma_count_true_full(b.cells@);
            }
        }
        b
    }

    /// Random-walk carving: up to 3 seeds, each walk removing cells as it steps to a random
    /// side neighbour (1 to 4 steps), a seed moving elsewhere at random 18% of the time,
    /// until `target` cells are gone or `20 * target` walks were made.
    fn carve_holes(&mut self, target: usize)
        requires
            old(self).wf(),
            rectangular(old(self)),
            old(self).total_cells <= 120,
            1 <= target <= old(self).total_cells,
            full(old(self)),
        ensures
            count_true(final(self).cells@) >= old(self).total_cells - target,
            final(self).wf(),
            rectangular(final(self)),
            final(self).rows == old(self).rows,
            final(self).cols == old(self).cols,
            final(self).total_cells == old(self).total_cells,
            final(self).default_grid_w == old(self).default_grid_w,
            final(self).default_grid_h == old(self).default_grid_h,
    {
        let total = self.total_cells;
        let seeds = random_in(1, 3);
        let mut seeds_pos: Vec<usize> = Vec::new();
        let mut s: usize = 0;
        while s < seeds
            invariant
                self.wf(),
                self.total_cells == total,
                total >= 1,
                forall|k: int| 0 <= k < seeds_pos@.len() ==> #[trigger] seeds_pos@[k] < total,
                seeds_pos@.len() == s,
                s <= seeds,
                self.cells@ == old(self).cells@,
            decreases seeds - s,
        {
            let mut f = random_in(0, total - 1);
            let (sr, sc) = self.from_flat(f);
            let w = self.row_widths[sr];
            if sc == 0 && w >= 2 {
                f = self.to_flat(sr, 1);
            }
            if sc + 1 >= w && w >= 2 {
                f = self.to_flat(sr, w - 2);
            }
            seeds_pos.push(f);
            s += 1;
        }
        proof {
            lemma_count_true_full(self.cells@);
        }
        let mut removed: usize = 0;
        let mut attempts: usize = 0;
        while removed < target && attempts < target * 20
            invariant
                self.wf(),
                rectangular(self),
                self.rows == old(self).rows,
                self.cols == old(self).cols,
                self.default_grid_w == old(self).default_grid_w,
                self.default_grid_h == old(self).default_grid_h,
                self.total_cells == total,
                total == old(self).total_cells,
                total <= 120,
                target <= total,
                seeds_pos@.len() >= 1,
                forall|k: int| 0 <= k < seeds_pos@.len() ==> #[trigger] seeds_pos@[k] < total,
                removed <= target,
                count_true(self.cells@) + removed == total,
            decreases target * 20 - attempts,
        {
            attempts += 1;
            let seed_idx = random_in(0, seeds_pos.len() - 1);
            let mut cur = seeds_pos[seed_idx];
            let steps = random_in(1, 4);
            let mut step: usize = 0;
            while step < steps && removed < target
                invariant
                    self.wf(),
                    rectangular(self),
                    self.rows == old(self).rows,
                    self.cols == old(self).cols,
                    self.default_grid_w == old(self).default_grid_w,
                    self.default_grid_h == old(self).default_grid_h,
                    self.total_cells == total,
                    cur < total,
                    removed <= target,
                    count_true(self.cells@) + removed == total,
                decreases steps - step,
            {
                step += 1;
                let (r, c) = self.from_flat(cur);
                if self.cells[cur] {
                    proof {
                        lemma_count_true_update(self.cells@, cur as int, false);
                    }
                    self.cells.set(cur, false);
                    removed += 1;
                    if removed >= target {
                        break;
                    }
                }
                match self.random_side_neighbor(r, c) {
                    Some(n) => {
                        cur = n;
                    },
                    None => {
                        break;
                    },
                }
            }
            if random_in(0, 99) < 18 {
                seeds_pos.set(seed_idx, random_in(0, total - 1));
            }
        }
    }

    /// A random one of the cells that share a side with (r, c), playable or not.
    fn random_side_neighbor(&self, r: usize, c: usize) -> (n: Option<usize>)
        requires
            self.wf(),
            self.valid_rc(r as int, c as int),
        ensures
            match n {
                Some(f) => f < self.total_cells,
                None => true,
            },
    {
        let mut neighbors: Vec<usize> = Vec::new();
        if c > 0 {
            neighbors.push(self.to_flat(r, c - 1));
        }
        if c + 1 < self.row_widths[r] {
            neighbors.push(self.to_flat(r, c + 1));
        }
        if r > 0 && c < self.row_widths[r - 1] {
            neighbors.push(self.to_flat(r - 1, c));
        }
        if r + 1 < self.rows && c < self.row_widths[r + 1] {
            neighbors.push(self.to_flat(r + 1, c));
        }
        if neighbors.len() == 0 {
            return None;
        }
        Some(neighbors[random_in(0, neighbors.len() - 1)])
    }

    /// The playable cells reached from `start` by side steps over playable cells.
    fn piece_from(&self, start: usize, seen: &mut Vec<bool>) -> (piece: Vec<usize>)
        requires
            self.wf(),
            start < self.total_cells,
            old(seen)@.len() == self.total_cells,
            !old(seen)@[start as int],
        ensures
            final(seen)@.len() == self.total_cells,
            piece@.len() >= 1,
            piece@[0] == start,
            forall|k: int| 0 <= k < piece@.len() ==> #[trigger] piece@[k] < self.total_cells,
    {
        seen.set(start, true);
        let mut queue: Vec<usize> = Vec::new();
        queue.push(start);
        let mut qi: usize = 0;
        while qi < queue.len()
            invariant
                self.wf(),
                seen@.len() == self.total_cells,
                queue@.len() >= 1,
                queue@[0] == start,
                forall|k: int| 0 <= k < queue@.len() ==> #[trigger] queue@[k] < self.total_cells
                    && seen@[queue@[k] as int],
                queue@.no_duplicates(),
                queue@.len() <= self.total_cells,
            decreases self.total_cells - qi,
        {
            let cur = queue[qi];
            qi += 1;
            let p = self.from_flat(cur);
            let mut k: usize = 0;
            while k < 4
                invariant
                    self.wf(),
                    seen@.len() == self.total_cells,
                    queue@.len() >= 1,
                    queue@[0] == start,
                    forall|k: int| 0 <= k < queue@.len() ==> #[trigger] queue@[k] < self.total_cells
                        && seen@[queue@[k] as int],
                    queue@.no_duplicates(),
                    queue@.len() <= self.total_cells,
                    qi <= queue@.len(),
                decreases 4 - k,
            {
                let (dr, dc) = crate::search::direction(k);
                k += 1;
                if let Some(n) = self.neighbor(p, dr, dc) {
                    let g = self.to_flat(n.0, n.1);
                    if !seen[g] {
                        enqueue(seen, &mut queue, g, self.total_cells);
                    }
                }
            }
        }
        queue
    }

    /// Joins every smaller piece of playable cells to the largest by a corridor: from the
    /// piece's first cell, along its column to the row of the nearest cell of the largest
    /// piece, then along that row, making every cell passed playable.
    fn join_pieces(&mut self)
        requires
            old(self).wf(),
            rectangular(old(self)),
        ensures
            count_true(final(self).cells@) >= count_true(old(self).cells@),
            final(self).wf(),
            rectangular(final(self)),
            final(self).rows == old(self).rows,
            final(self).cols == old(self).cols,
            final(self).total_cells == old(self).total_cells,
            final(self).default_grid_w == old(self).default_grid_w,
            final(self).default_grid_h == old(self).default_grid_h,
    {
        let total = self.total_cells;
        let mut seen: Vec<bool> = Vec::new();
        let mut i: usize = 0;
        while i < total
            invariant
                seen@.len() == i,
                i <= total,
            decreases total - i,
        {
            seen.push(false);
            i += 1;
        }
        let mut pieces: Vec<Vec<usize>> = Vec::new();
        let mut f: usize = 0;
        while f < total
            invariant
                self.wf(),
                self.total_cells == total,
                seen@.len() == total,
                forall|a: int| 0 <= a < pieces@.len() ==> (#[trigger] pieces@[a])@.len() >= 1,
                forall|a: int, k: int| 0 <= a < pieces@.len() && 0 <= k < pieces@[a]@.len() ==> #[trigger] pieces@[a]@[k] < total,
            decreases total - f,
        {
            if self.cells[f] && !seen[f] {
                let piece = self.piece_from(f, &mut seen);
                pieces.push(piece);
            }
            f += 1;
        }
        if pieces.len() <= 1 {
            return ;
        }
        let mut largest: usize = 0;
        let mut a: usize = 0;
        while a < pieces.len()
            invariant
                largest < pieces@.len(),
            decreases pieces@.len() - a,
        {
            if pieces[a].len() > pieces[largest].len() {
                largest = a;
            }
            a += 1;
        }
        let mut a: usize = 0;
        while a < pieces.len()
            invariant
                self.wf(),
                rectangular(self),
                self.rows == old(self).rows,
                self.cols == old(self).cols,
                self.default_grid_w == old(self).default_grid_w,
                self.default_grid_h == old(self).default_grid_h,
                count_true(self.cells@) >= count_true(old(self).cells@),
                self.total_cells == total,
                total == old(self).total_cells,
                largest < pieces@.len(),
                forall|a: int| 0 <= a < pieces@.len() ==> (#[trigger] pieces@[a])@.len() >= 1,
                forall|a: int, k: int| 0 <= a < pieces@.len() && 0 <= k < pieces@[a]@.len() ==> #[trigger] pieces@[a]@[k] < total,
            decreases pieces@.len() - a,
        {
            if a != largest {
                self.join_to_piece(pieces[a][0], &pieces[largest]);
            }
            a += 1;
        }
    }

    /// Carves a corridor from `src` to the nearest cell of `piece`.
    fn join_to_piece(&mut self, src: usize, piece: &Vec<usize>)
        requires
            old(self).wf(),
            rectangular(old(self)),
            src < old(self).total_cells,
            piece@.len() >= 1,
            forall|k: int| 0 <= k < piece@.len() ==> #[trigger] piece@[k] < old(self).total_cells,
        ensures
            count_true(final(self).cells@) >= count_true(old(self).cells@),
            final(self).wf(),
            rectangular(final(self)),
            final(self).rows == old(self).rows,
            final(self).cols == old(self).cols,
            final(self).total_cells == old(self).total_cells,
            final(self).default_grid_w == old(self).default_grid_w,
            final(self).default_grid_h == old(self).default_grid_h,
    {
        let sp = self.from_flat(src);
        proof {
            self.lemma_row_end(sp.0 as int);
            self.lemma_offset_at_least_row(sp.0 as int);
        }
        let mut best: usize = piece[0];
        let mut best_dist: usize = usize::MAX;
        let mut t: usize = 0;
        while t < piece.len()
            invariant
                self.wf(),
                sp.0 <= MAX_CELLS && sp.1 <= MAX_CELLS,
                best < self.total_cells,
                forall|k: int| 0 <= k < piece@.len() ==> #[trigger] piece@[k] < self.total_cells,
            decreases piece@.len() - t,
        {
            let cand = piece[t];
            let tp = self.from_flat(cand);
            proof {
                self.lemma_row_end(tp.0 as int);
                self.lemma_offset_at_least_row(tp.0 as int);
            }
            let dist = manhattan(sp, tp);
            if dist < best_dist {
                best_dist = dist;
                best = cand;
            }
            t += 1;
        }
        self.carve_corridor(src, best);
    }

    /// Makes playable every cell on the way from `src` to `dest`: first along the column,
    /// then along the row.
    fn carve_corridor(&mut self, src: usize, dest: usize)
        requires
            old(self).wf(),
            rectangular(old(self)),
            src < old(self).total_cells,
            dest < old(self).total_cells,
        ensures
            count_true(final(self).cells@) >= count_true(old(self).cells@),
            final(self).wf(),
            rectangular(final(self)),
            final(self).rows == old(self).rows,
            final(self).cols == old(self).cols,
            final(self).total_cells == old(self).total_cells,
            final(self).default_grid_w == old(self).default_grid_w,
            final(self).default_grid_h == old(self).default_grid_h,
    {
        let (mut r, mut c) = self.from_flat(src);
        let (tr, tc) = self.from_flat(dest);
        while r != tr
            invariant
                self.wf(),
                rectangular(self),
                self.rows == old(self).rows,
                self.cols == old(self).cols,
                self.default_grid_w == old(self).default_grid_w,
                self.default_grid_h == old(self).default_grid_h,
                count_true(self.cells@) >= count_true(old(self).cells@),
                self.total_cells == old(self).total_cells,
                self.valid_rc(r as int, c as int),
                tr < self.rows,
            decreases if r < tr { tr - r } else { r - tr },
        {
            if r < tr {
                r += 1;
            } else {
                r -= 1;
            }
            if c >= self.row_widths[r] {
                c = self.row_widths[r] - 1;
            }
            let idx = self.to_flat(r, c);
            proof {
                lemma_count_true_update(self.cells@, idx as int, true);
            }
            self.cells.set(idx, true);
        }
        while c != tc
            invariant
                self.wf(),
                rectangular(self),
                self.rows == old(self).rows,
                self.cols == old(self).cols,
                self.default_grid_w == old(self).default_grid_w,
                self.default_grid_h == old(self).default_grid_h,
                count_true(self.cells@) >= count_true(old(self).cells@),
                self.total_cells == old(self).total_cells,
                r < self.rows,
                c < self.row_widths@[r as int],
                tc < self.row_widths@[r as int],
            decreases if c < tc { tc - c } else { c - tc },
        {
            if c < tc {
                c += 1;
            } else {
                c -= 1;
            }
            let idx = self.to_flat(r, c);
            proof {
                lemma_count_true_update(self.cells@, idx as int, true);
            }
            self.cells.set(idx, true);
        }
    }
}

/// The sum of the first `n` widths is at most the sum of all of them, and a zero width
/// among the first `n` breaks the shape.
proof fn lemma_width_sum_grows(widths: Seq<usize>, n: int)
    requires
        0 <= n <= widths.len(),
    ensures
        width_sum(widths.subrange(0, n)) <= width_sum(widths),
    decreases widths.len() - n,
{
    if n < widths.len() {
        lemma_width_sum_grows(widths, n + 1);
        assert(widths.subrange(0, n + 1).drop_last() =~= widths.subrange(0, n));
    } else {
        assert(widths.subrange(0, n) =~= widths);
    }
}

/// A rectangle's cell count is its rows times its width.
proof fn lemma_rect_total(b: &Board)
    requires
        b.wf(),
        rectangular(b),
        b.rows <= 8,
        b.cols <= 15,
    ensures
        b.total_cells == b.rows * b.cols,
        b.total_cells <= 120,
{
    assert forall|r: int| 0 <= r < b.rows implies #[trigger] b.row_offsets@[r] == r * b.cols by {
        lemma_rect_offset(b, r);
    }
    assert(b.total_cells == (b.rows - 1) * b.cols + b.cols);
    assert((b.rows - 1) * b.cols + b.cols == b.rows * b.cols) by (nonlinear_arith);
    assert(b.rows * b.cols <= 8 * 15) by (nonlinear_arith)
        requires
            b.rows <= 8,
            b.cols <= 15,
    ;
}

proof fn lemma_rect_offset(b: &Board, r: int)
    requires
        b.wf(),
        rectangular(b),
        0 <= r < b.rows,
    ensures
        b.row_offsets@[r] == r * b.cols,
    decreases r,
{
    if r == 0 {
        assert(0 * b.cols == 0) by (nonlinear_arith);
    } else {
        lemma_rect_offset(b, r - 1);
        assert(b.row_offsets@[r] == b.row_offsets@[r - 1] + b.row_widths@[r - 1]);
        assert((r - 1) * b.cols + b.cols == r * b.cols) by (nonlinear_arith);
    }
}

} // verus!
