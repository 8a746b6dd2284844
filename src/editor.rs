use vstd::prelude::*;

verus! {

/// Largest side of the editor's preview grid.
pub const MAX_PREVIEW: usize = 12;

/// Smallest side of the editor's preview grid.
pub const MIN_PREVIEW: usize = 3;

/// What a key does to the cell under the editor's cursor.
#[derive(Clone, Copy, Debug, PartialEq, Eq, Structural)]
pub enum EditKey {
    /// Put a circle there, taking away a cross.
    Circle,
    /// Put a cross there, taking away a circle.
    Cross,
    /// Take away the marker there; on an empty cell, remove the cell itself.
    Erase,
}

/// A cursor step in the editor.
#[derive(Clone, Copy, Debug, PartialEq, Eq, Structural)]
pub enum CursorKey {
    Up,
    Down,
    Left,
    Right,
}

/// `s` with `x` appended unless it already holds it.
pub open spec fn add_once(s: Seq<(usize, usize)>, x: (usize, usize)) -> Seq<(usize, usize)> {
    if s.contains(x) {
        s
    } else {
        s.push(x)
    }
}

/// Cells inside a `rows` x `cols` grid.
pub open spec fn inside(rows: usize, cols: usize) -> spec_fn((usize, usize)) -> bool {
    |p: (usize, usize)| p.0 < rows && p.1 < cols
}

fn position_of(s: &Vec<(usize, usize)>, x: (usize, usize)) -> (k: Option<usize>)
    ensures
        match k {
            Some(i) => s@.index_of_first(x) == Some(i as int),
            None => s@.index_of_first(x) is None,
        },
{
    proof {
        s@.index_of_first_ensures(x);
    }
    let mut i: usize = 0;
    while i < s.len()
        invariant
            i <= s@.len(),
            forall|j: int| 0 <= j < i ==> s@[j] != x,
        decreases s@.len() - i,
    {
        if s[i].0 == x.0 && s[i].1 == x.1 {
            proof {
                assert(s@[i as int] == x);
                assert(s@.contains(x));
                s@.index_of_first_ensures(x);
                let first = s@.index_of_first(x).unwrap();
                assert(first == i as int) by {
                    if first < i {
                        assert(s@[first] == x);
                    } else if first > i {
                        assert(s@[i as int] != x);
                    }
                }
            }
            return Some(i);
        }
        i += 1;
    }
    None
}

fn remove_first(s: &mut Vec<(usize, usize)>, x: (usize, usize))
    ensures
        final(s)@ == old(s)@.remove_value(x),
{
    proof {
        old(s)@.index_of_first_ensures(x);
    }
    if let Some(k) = position_of(s, x) {
        s.remove(k);
    }
}

fn add_if_missing(s: &mut Vec<(usize, usize)>, x: (usize, usize))
    ensures
        final(s)@ == add_once(old(s)@, x),
{
    if position_of(s, x).is_none() {
        proof {
            old(s)@.index_of_first_ensures(x);
        }
        s.push(x);
    } else {
        proof {
            old(s)@.index_of_first_ensures(x);
        }
    }
}

fn has(s: &Vec<(usize, usize)>, x: (usize, usize)) -> (b: bool)
    ensures
        b == s@.contains(x),
{
    proof {
        s@.index_of_first_ensures(x);
    }
    position_of(s, x).is_some()
}

/// Applies an edit key to the cell under the cursor (the first entry of `cursor`); nothing
/// happens without a cursor. A circle or a cross is not put on a removed cell.
pub fn edit_cell(
    key: EditKey,
    cursor: &[(usize, usize)],
    circles: &mut Vec<(usize, usize)>,
    crosses: &mut Vec<(usize, usize)>,
    removed: &mut Vec<(usize, usize)>,
)
    ensures
        cursor@.len() == 0 ==> (final(circles)@ == old(circles)@ && final(crosses)@ == old(crosses)@
            && final(removed)@ == old(removed)@),
        cursor@.len() > 0 ==> ({
            let pos = cursor@[0];
            match key {
                EditKey::Circle => if old(removed)@.contains(pos) {
                    final(circles)@ == old(circles)@ && final(crosses)@ == old(crosses)@
                } else {
                    final(circles)@ == add_once(old(circles)@, pos) && final(crosses)@ == old(
                        crosses,
                    )@.remove_value(pos)
                },
                EditKey::Cross => if old(removed)@.contains(pos) {
                    final(circles)@ == old(circles)@ && final(crosses)@ == old(crosses)@
                } else {
                    final(crosses)@ == add_once(old(crosses)@, pos) && final(circles)@ == old(
                        circles,
                    )@.remove_value(pos)
                },
                EditKey::Erase => if old(circles)@.contains(pos) {
                    final(circles)@ == old(circles)@.remove_value(pos) && final(crosses)@ == old(
                        crosses,
                    )@
                } else if old(crosses)@.contains(pos) {
                    final(circles)@ == old(circles)@ && final(crosses)@ == old(crosses)@.remove_value(
                        pos,
                    )
                } else {
                    final(circles)@ == old(circles)@ && final(crosses)@ == old(crosses)@
                },
            }
        }),
        cursor@.len() > 0 ==> final(removed)@ == (if key == EditKey::Erase && !old(circles)@.contains(
            cursor@[0],
        ) && !old(crosses)@.contains(cursor@[0]) {
            add_once(old(removed)@, cursor@[0])
        } else {
            old(removed)@
        }),
{
    if cursor.len() == 0 {
        return ;
    }
    let pos = cursor[0];
    match key {
        EditKey::Circle => {
            if has(removed, pos) {
                return ;
            }
            remove_first(crosses, pos);
            add_if_missing(circles, pos);
        },
        EditKey::Cross => {
            if has(removed, pos) {
                return ;
            }
            remove_first(circles, pos);
            add_if_missing(crosses, pos);
        },
        EditKey::Erase => {
            if has(circles, pos) {
                remove_first(circles, pos);
            } else if has(crosses, pos) {
                remove_first(crosses, pos);
            } else {
                add_if_missing(removed, pos);
            }
        },
    }
}

/// Moves the cursor one cell within a `rows` x `cols` grid, staying at the border; an
/// absent cursor starts at (0, 0). Nothing happens on an empty grid.
pub fn move_cursor(cursor: &mut Vec<(usize, usize)>, key: CursorKey, rows: usize, cols: usize)
    ensures
        rows == 0 || cols == 0 ==> final(cursor)@ == old(cursor)@,
        rows > 0 && cols > 0 ==> ({
            let start = if old(cursor)@.len() == 0 {
                seq![(0usize, 0usize)]
            } else {
                old(cursor)@
            };
            let p = start[0];
            let moved: (usize, usize) = match key {
                CursorKey::Up => (if p.0 == 0 { 0 } else { (p.0 - 1) as usize }, p.1),
                CursorKey::Down => (if p.0 + 1 <= rows - 1 { (p.0 + 1) as usize } else { (rows - 1) as usize }, p.1),
                CursorKey::Left => (p.0, if p.1 == 0 { 0 } else { (p.1 - 1) as usize }),
                CursorKey::Right => (p.0, if p.1 + 1 <= cols - 1 { (p.1 + 1) as usize } else { (cols - 1) as usize }),
            };
            final(cursor)@ == start.update(0, moved)
        }),
{
    if rows == 0 || cols == 0 {
        return ;
    }
    if cursor.len() == 0 {
        cursor.push((0, 0));
    }
    let p = cursor[0];
    let moved = match key {
        CursorKey::Up => (if p.0 == 0 { 0 } else { p.0 - 1 }, p.1),
        CursorKey::Down => (if p.0 < rows - 1 { p.0 + 1 } else { rows - 1 }, p.1),
        CursorKey::Left => (p.0, if p.1 == 0 { 0 } else { p.1 - 1 }),
        CursorKey::Right => (p.0, if p.1 < cols - 1 { p.1 + 1 } else { cols - 1 }),
    };
    cursor.set(0, moved);
}

/// Grows each side of the preview grid by one, up to `MAX_PREVIEW`.
pub fn increase_preview(size: &mut (usize, usize))
    ensures
        final(size).0 == if old(size).0 < MAX_PREVIEW { old(size).0 + 1 } else { old(size).0 as int },
        final(size).1 == if old(size).1 < MAX_PREVIEW { old(size).1 + 1 } else { old(size).1 as int },
{
    if size.0 < MAX_PREVIEW {
        size.0 = size.0 + 1;
    }
    if size.1 < MAX_PREVIEW {
        size.1 = size.1 + 1;
    }
}

/// The cells of `s` inside a `rows` x `cols` grid, in order.
fn keep_inside(s: &mut Vec<(usize, usize)>, rows: usize, cols: usize)
    ensures
        final(s)@ == old(s)@.filter(inside(rows, cols)),
{
    let mut kept: Vec<(usize, usize)> = Vec::new();
    let mut i: usize = 0;
    while i < s.len()
        invariant
            i <= s@.len(),
            s@ == old(s)@,
            kept@ == s@.subrange(0, i as int).filter(inside(rows, cols)),
        decreases s@.len() - i,
    {
        let p = s[i];
        proof {
            reveal(Seq::filter);
            assert(s@.subrange(0, i + 1).drop_last() =~= s@.subrange(0, i as int));
        }
        if p.0 < rows && p.1 < cols {
            kept.push(p);
        }
        i += 1;
    }
    proof {
        assert(s@.subrange(0, i as int) =~= s@);
    }
    *s = kept;
}

/// Shrinks each side of the preview grid by one, down to `MIN_PREVIEW`, and drops the
/// circles, crosses and removed cells that fall outside.
pub fn decrease_preview(
    size: &mut (usize, usize),
    circles: &mut Vec<(usize, usize)>,
    crosses: &mut Vec<(usize, usize)>,
    removed: &mut Vec<(usize, usize)>,
)
    ensures
        final(size).0 == if old(size).0 > MIN_PREVIEW { old(size).0 - 1 } else { old(size).0 as int },
        final(size).1 == if old(size).1 > MIN_PREVIEW { old(size).1 - 1 } else { old(size).1 as int },
        final(circles)@ == old(circles)@.filter(inside(final(size).0, final(size).1)),
        final(crosses)@ == old(crosses)@.filter(inside(final(size).0, final(size).1)),
        final(removed)@ == old(removed)@.filter(inside(final(size).0, final(size).1)),
{
    if size.0 > MIN_PREVIEW {
        size.0 = size.0 - 1;
    }
    if size.1 > MIN_PREVIEW {
        size.1 = size.1 - 1;
    }
    let (rows, cols) = *size;
    keep_inside(circles, rows, cols);
    keep_inside(crosses, rows, cols);
    keep_inside(removed, rows, cols);
}

} // verus!
