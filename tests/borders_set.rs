use quadratic_core::borders::{Borders, BordersUpdates, Direction};
use quadratic_core::operations::{A1Selection, BorderSelection, GridController, Operation, RefRangeBounds, SheetId};
use quadratic_core::plane::{BorderStyle, ClearOption, UpdatePlane};

const DIRS: [Direction; 4] = [Direction::Top, Direction::Bottom, Direction::Left, Direction::Right];

fn snapshot(b: &Borders) -> Vec<Option<BorderStyle>> {
    let mut out = Vec::new();
    for x in 1..=8 {
        for y in 1..=8 {
            for d in DIRS {
                out.push(b.get(d, x, y));
            }
        }
    }
    out
}

fn batch(mode: BorderSelection, style: Option<BorderStyle>, x1: i64, y1: i64, x2: Option<i64>, y2: Option<i64>, cn: bool) -> BordersUpdates {
    let mut gc = GridController::test();
    // a sheet bordered everywhere in another colour, so that every request
    // changes something and none is a repeat
    let other = BorderStyle { color: 0x12345678, ..BorderStyle::default_style() };
    let mut seed = UpdatePlane::new();
    seed.set_rect(1, 1, None, None, ClearOption::Style(other));
    let mut u = BordersUpdates::new();
    u.top = Some(seed.clone());
    u.bottom = Some(seed.clone());
    u.left = Some(seed.clone());
    u.right = Some(seed);
    gc.sheets[0].borders.apply_updates(&u);
    let sel = A1Selection { sheet_id: SheetId::test(), ranges: vec![RefRangeBounds { x1, y1, x2, y2 }] };
    match gc.set_borders_a1_selection_operations(sel, mode, style, cn) {
        Some(ops) => {
            let Operation::SetBordersA1 { borders, .. } = ops[0].clone();
            borders
        }
        None => BordersUpdates::new(),
    }
}

#[test]
fn undo_restores_the_previous_state() {
    let style = BorderStyle::default_style();
    let red = BorderStyle { color: 0xff0000ff, timestamp: 3, ..style };
    let mut b = Borders::new();
    b.apply_updates(&batch(BorderSelection::All, Some(style), 2, 2, Some(5), Some(5), false));
    let before = snapshot(&b);
    let u = batch(BorderSelection::Outer, Some(red), 3, 1, Some(7), Some(4), false);
    let rev = b.apply_updates(&u);
    assert_eq!(b.get(Direction::Top, 3, 1), Some(red));
    assert_ne!(snapshot(&b), before);
    b.apply_updates(&rev);
    assert_eq!(snapshot(&b), before);
}

#[test]
fn set_borders_a1_returns_the_undo() {
    let style = BorderStyle::default_style();
    let mut b = Borders::new();
    let ops = b.set_borders_a1(SheetId::test(), &batch(BorderSelection::Inner, Some(style), 1, 1, Some(3), Some(3), false));
    assert_eq!(ops.len(), 1);
    assert_eq!(b.get(Direction::Left, 2, 1), Some(style));
    assert_eq!(b.get(Direction::Left, 1, 1), None);
    assert_eq!(b.get(Direction::Right, 2, 3), Some(style));
    assert_eq!(b.get(Direction::Right, 3, 3), None);
    let Operation::SetBordersA1 { sheet_id, borders } = ops[0].clone();
    assert_eq!(sheet_id, SheetId::test());
    b.apply_updates(&borders);
    assert!(snapshot(&b).iter().all(|v| v.is_none()));
}

#[test]
fn clearing_twice_gives_an_empty_undo() {
    let style = BorderStyle::default_style();
    let mut b = Borders::new();
    b.apply_updates(&batch(BorderSelection::All, Some(style), 2, 2, Some(4), Some(4), false));
    let clear = batch(BorderSelection::Clear, None, 2, 2, Some(4), Some(4), false);
    let first = b.apply_updates(&clear);
    assert!(!first.is_empty());
    let second = b.apply_updates(&clear);
    assert!(second.is_empty());
}

#[test]
fn clearing_with_neighbours_leaves_no_mirrored_edge() {
    let style = BorderStyle::default_style();
    let mut b = Borders::new();
    // the neighbours' facing edges are set too
    b.apply_updates(&batch(BorderSelection::All, Some(style), 2, 2, Some(4), Some(4), false));
    b.apply_updates(&batch(BorderSelection::Right, Some(style), 1, 2, Some(1), Some(4), false));
    b.apply_updates(&batch(BorderSelection::Left, Some(style), 5, 2, Some(5), Some(4), false));
    b.apply_updates(&batch(BorderSelection::Bottom, Some(style), 2, 1, Some(4), Some(1), false));
    b.apply_updates(&batch(BorderSelection::Top, Some(style), 2, 5, Some(4), Some(5), false));
    b.apply_updates(&batch(BorderSelection::All, None, 2, 2, Some(4), Some(4), true));
    for y in 2..=4 {
        assert_eq!(b.get(Direction::Right, 1, y), None);
        assert_eq!(b.get(Direction::Left, 5, y), None);
    }
    for x in 2..=4 {
        assert_eq!(b.get(Direction::Bottom, x, 1), None);
        assert_eq!(b.get(Direction::Top, x, 5), None);
    }
}

#[test]
fn horizontal_and_vertical_inner_lines() {
    let style = BorderStyle::default_style();
    let h = batch(BorderSelection::Horizontal, Some(style), 2, 2, Some(3), Some(4), false);
    assert_eq!(h.get(Direction::Top, 2, 2), None);
    assert_eq!(h.get(Direction::Top, 3, 3), Some(ClearOption::Style(style)));
    assert_eq!(h.get(Direction::Top, 3, 4), Some(ClearOption::Style(style)));
    assert!(h.left.is_none() && h.right.is_none() && h.bottom.is_none());
    let v = batch(BorderSelection::Vertical, Some(style), 2, 2, Some(4), Some(3), false);
    assert_eq!(v.get(Direction::Left, 2, 2), None);
    assert_eq!(v.get(Direction::Left, 4, 3), Some(ClearOption::Style(style)));
    assert!(v.top.is_none() && v.right.is_none() && v.bottom.is_none());
}

#[test]
fn right_on_whole_columns_is_one_rectangle() {
    let style = BorderStyle::default_style();
    let u = batch(BorderSelection::Right, Some(style), 3, 1, Some(5), None, true);
    let right = u.right.as_ref().unwrap();
    assert_eq!(right.entries.len(), 1);
    assert_eq!(right.get(5, 1_000_000_000), Some(ClearOption::Style(style)));
    assert_eq!(right.get(4, 1), None);
    assert_eq!(right.get(6, 1), None);
}

#[test]
fn inner_on_the_first_column_clamps_to_column_one() {
    let style = BorderStyle::default_style();
    let u = batch(BorderSelection::Inner, Some(style), 1, 1, Some(1), Some(3), false);
    // the right edge keeps column 1 even though the range has a single column
    assert_eq!(u.get(Direction::Right, 1, 2), Some(ClearOption::Style(style)));
    assert_eq!(u.get(Direction::Right, 2, 2), None);
    // left edges start one column in, which is past the range: none is set
    assert_eq!(u.get(Direction::Left, 1, 2), None);
    assert_eq!(u.get(Direction::Left, 2, 2), None);
    assert_eq!(u.get(Direction::Top, 1, 1), None);
    assert_eq!(u.get(Direction::Top, 1, 2), Some(ClearOption::Style(style)));
    assert_eq!(u.get(Direction::Bottom, 1, 2), Some(ClearOption::Style(style)));
    assert_eq!(u.get(Direction::Bottom, 1, 3), None);
}

#[test]
fn clear_at_the_corner_does_not_reach_below_one() {
    let u = batch(BorderSelection::Clear, None, 1, 1, Some(2), Some(2), false);
    assert_eq!(u.get(Direction::Right, 1, 1), Some(ClearOption::Clear));
    assert_eq!(u.get(Direction::Bottom, 1, 1), Some(ClearOption::Clear));
    assert_eq!(u.get(Direction::Left, 3, 2), Some(ClearOption::Clear));
    assert_eq!(u.get(Direction::Top, 2, 3), Some(ClearOption::Clear));
    assert_eq!(u.get(Direction::Top, 2, 4), None);
    assert_eq!(u.get(Direction::Left, 4, 2), None);
}

#[test]
fn outer_left_edge_on_an_unbounded_range() {
    let style = BorderStyle::default_style();
    let u = batch(BorderSelection::Outer, Some(style), 3, 2, None, Some(4), false);
    assert_eq!(u.get(Direction::Left, 3, 3), Some(ClearOption::Style(style)));
    assert_eq!(u.get(Direction::Top, 1000, 2), Some(ClearOption::Style(style)));
    assert_eq!(u.get(Direction::Bottom, 1000, 4), Some(ClearOption::Style(style)));
    assert!(u.right.is_none());
}

#[test]
fn clearing_no_range_gives_no_operation() {
    let gc = GridController::test();
    let sel = A1Selection { sheet_id: SheetId::test(), ranges: vec![] };
    assert!(gc.clear_borders_a1_operations(&sel).is_empty());
}

#[test]
fn set_borders_a1_without_change_gives_no_operation() {
    let mut b = Borders::new();
    let mut clear = UpdatePlane::new();
    clear.set_rect(1, 1, Some(4), Some(4), ClearOption::Clear);
    let mut u = BordersUpdates::new();
    u.top = Some(clear);
    assert!(b.set_borders_a1(SheetId::test(), &u).is_empty());
}

#[test]
fn outer_clear_with_neighbours_leaves_no_mirrored_edge() {
    let style = BorderStyle::default_style();
    let mut b = Borders::new();
    b.apply_updates(&batch(BorderSelection::Outer, Some(style), 2, 2, Some(4), Some(4), false));
    b.apply_updates(&batch(BorderSelection::Right, Some(style), 1, 2, Some(1), Some(4), false));
    b.apply_updates(&batch(BorderSelection::Top, Some(style), 2, 5, Some(4), Some(5), false));
    b.apply_updates(&batch(BorderSelection::Outer, None, 2, 2, Some(4), Some(4), true));
    for y in 2..=4 {
        assert_eq!(b.get(Direction::Left, 2, y), None);
        assert_eq!(b.get(Direction::Right, 4, y), None);
        assert_eq!(b.get(Direction::Right, 1, y), None);
        assert_eq!(b.get(Direction::Left, 5, y), None);
    }
    for x in 2..=4 {
        assert_eq!(b.get(Direction::Top, x, 2), None);
        assert_eq!(b.get(Direction::Bottom, x, 4), None);
        assert_eq!(b.get(Direction::Top, x, 5), None);
        assert_eq!(b.get(Direction::Bottom, x, 1), None);
    }
}
