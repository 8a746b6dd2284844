use tic_tac_go::editor::{
    decrease_preview, edit_cell, increase_preview, move_cursor, CursorKey, EditKey,
};

#[test]
fn preview_grows_up_to_twelve() {
    let mut size = (5usize, 11usize);
    increase_preview(&mut size);
    assert_eq!(size, (6, 12));
    increase_preview(&mut size);
    assert_eq!(size, (7, 12));
    let mut big = (12usize, 12usize);
    increase_preview(&mut big);
    assert_eq!(big, (12, 12));
}

#[test]
fn preview_shrinks_down_to_three_and_drops_outside_marks() {
    let mut size = (5usize, 4usize);
    let mut circles = vec![(0, 0), (4, 1), (2, 3)];
    let mut crosses = vec![(3, 2), (1, 3)];
    let mut removed = vec![(3, 0), (0, 2)];
    decrease_preview(&mut size, &mut circles, &mut crosses, &mut removed);
    assert_eq!(size, (4, 3));
    assert_eq!(circles, vec![(0, 0)]);
    assert_eq!(crosses, vec![(3, 2)]);
    assert_eq!(removed, vec![(3, 0), (0, 2)]);
    let mut small = (3usize, 3usize);
    let mut none: Vec<(usize, usize)> = Vec::new();
    let mut none2: Vec<(usize, usize)> = Vec::new();
    let mut none3: Vec<(usize, usize)> = Vec::new();
    decrease_preview(&mut small, &mut none, &mut none2, &mut none3);
    assert_eq!(small, (3, 3));
}

#[test]
fn circle_key_replaces_cross() {
    let cursor = vec![(1, 1)];
    let mut circles = vec![];
    let mut crosses = vec![(0, 0), (1, 1)];
    let mut removed = vec![];
    edit_cell(EditKey::Circle, &cursor, &mut circles, &mut crosses, &mut removed);
    assert_eq!(circles, vec![(1, 1)]);
    assert_eq!(crosses, vec![(0, 0)]);
    edit_cell(EditKey::Circle, &cursor, &mut circles, &mut crosses, &mut removed);
    assert_eq!(circles, vec![(1, 1)]);
}

#[test]
fn cross_key_replaces_circle() {
    let cursor = vec![(2, 0)];
    let mut circles = vec![(2, 0), (1, 1)];
    let mut crosses = vec![];
    let mut removed = vec![];
    edit_cell(EditKey::Cross, &cursor, &mut circles, &mut crosses, &mut removed);
    assert_eq!(circles, vec![(1, 1)]);
    assert_eq!(crosses, vec![(2, 0)]);
}

#[test]
fn marks_are_not_put_on_removed_cells() {
    let cursor = vec![(0, 1)];
    let mut circles = vec![];
    let mut crosses = vec![];
    let mut removed = vec![(0, 1)];
    edit_cell(EditKey::Circle, &cursor, &mut circles, &mut crosses, &mut removed);
    edit_cell(EditKey::Cross, &cursor, &mut circles, &mut crosses, &mut removed);
    assert!(circles.is_empty());
    assert!(crosses.is_empty());
}

#[test]
fn erase_takes_marker_then_cell() {
    let cursor = vec![(1, 2)];
    let mut circles = vec![(1, 2)];
    let mut crosses = vec![];
    let mut removed = vec![];
    edit_cell(EditKey::Erase, &cursor, &mut circles, &mut crosses, &mut removed);
    assert!(circles.is_empty());
    assert!(removed.is_empty());
    edit_cell(EditKey::Erase, &cursor, &mut circles, &mut crosses, &mut removed);
    assert_eq!(removed, vec![(1, 2)]);
    edit_cell(EditKey::Erase, &cursor, &mut circles, &mut crosses, &mut removed);
    assert_eq!(removed, vec![(1, 2)]);
}

#[test]
fn edit_without_cursor_does_nothing() {
    let mut circles = vec![(0, 0)];
    let mut crosses = vec![(1, 1)];
    let mut removed = vec![];
    edit_cell(EditKey::Erase, &[], &mut circles, &mut crosses, &mut removed);
    assert_eq!(circles, vec![(0, 0)]);
    assert_eq!(crosses, vec![(1, 1)]);
    assert!(removed.is_empty());
}

#[test]
fn cursor_stays_inside_grid() {
    let mut cursor = vec![(0, 0)];
    move_cursor(&mut cursor, CursorKey::Up, 3, 3);
    move_cursor(&mut cursor, CursorKey::Left, 3, 3);
    assert_eq!(cursor, vec![(0, 0)]);
    move_cursor(&mut cursor, CursorKey::Down, 3, 3);
    move_cursor(&mut cursor, CursorKey::Down, 3, 3);
    move_cursor(&mut cursor, CursorKey::Down, 3, 3);
    move_cursor(&mut cursor, CursorKey::Right, 3, 3);
    assert_eq!(cursor, vec![(2, 1)]);
    let mut empty: Vec<(usize, usize)> = Vec::new();
    move_cursor(&mut empty, CursorKey::Right, 3, 3);
    assert_eq!(empty, vec![(0, 1)]);
    let mut untouched: Vec<(usize, usize)> = Vec::new();
    move_cursor(&mut untouched, CursorKey::Down, 0, 3);
    assert!(untouched.is_empty());
}
