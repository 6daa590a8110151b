use quadratic_core::borders::{BordersUpdates, Direction};
use quadratic_core::operations::{
    A1Selection, BorderSelection, GridController, Operation, RefRangeBounds, SheetId,
};
use quadratic_core::plane::BorderStyle;

const ZZZZ: i64 = 475254;
const ZZZZZ: i64 = 12356630;

fn selection(x1: i64, y1: i64, x2: Option<i64>, y2: Option<i64>) -> A1Selection {
    A1Selection {
        sheet_id: SheetId::test(),
        ranges: vec![RefRangeBounds { x1, y1, x2, y2 }],
    }
}

fn assert_borders(borders: &BordersUpdates, x: i64, y: i64, side: &str) {
    let planes = [
        ("top", &borders.top),
        ("bottom", &borders.bottom),
        ("left", &borders.left),
        ("right", &borders.right),
    ];
    for (name, plane) in planes {
        if side.contains(name) {
            assert!(
                plane.as_ref().unwrap().get(x, y).is_some(),
                "Expected {name} border at ({x}, {y}) but found none"
            );
        } else {
            assert!(
                plane.is_none() || plane.as_ref().unwrap().get(x, y).is_none(),
                "Expected no {name} border at ({x}, {y}) but found one"
            );
        }
    }
}

fn single_op(ops: Vec<Operation>) -> (SheetId, BordersUpdates) {
    assert_eq!(ops.len(), 1);
    let Operation::SetBordersA1 { sheet_id, borders } = ops[0].clone();
    (sheet_id, borders)
}

#[test]
fn test_borders_operations_all_all() {
    let gc = GridController::test();
    let ops = gc
        .set_borders_a1_selection_operations(
            selection(1, 1, None, None),
            BorderSelection::All,
            Some(BorderStyle::default_style()),
            true,
        )
        .unwrap();
    let (sheet_id, borders) = single_op(ops);
    assert_eq!(sheet_id, SheetId::test());
    assert_borders(&borders, 1, 1, "top,bottom,left,right");
    assert_borders(&borders, ZZZZ, 10000, "top,bottom,left,right");
}

#[test]
fn test_borders_operations_all_left() {
    let gc = GridController::test();
    let ops = gc
        .set_borders_a1_selection_operations(
            selection(1, 1, None, None),
            BorderSelection::Left,
            Some(BorderStyle::default_style()),
            true,
        )
        .unwrap();
    let (sheet_id, borders) = single_op(ops);
    assert_eq!(sheet_id, SheetId::test());
    assert_borders(&borders, 1, 1, "left");
    assert_borders(&borders, 1, 100000, "left");
    assert!(borders.right.is_none());
    assert!(borders.top.is_none());
    assert!(borders.bottom.is_none());
}

#[test]
fn test_borders_operations_columns() {
    let gc = GridController::test();
    let ops = gc
        .set_borders_a1_selection_operations(
            selection(3, 1, Some(5), None),
            BorderSelection::Right,
            Some(BorderStyle::default_style()),
            true,
        )
        .unwrap();
    let (sheet_id, borders) = single_op(ops);
    assert_eq!(sheet_id, SheetId::test());
    assert_borders(&borders, 5, 1, "right");
    assert_borders(&borders, 5, 100000, "right");
    assert_borders(&borders, 1, 1, "");
    assert!(borders.left.is_none());
    assert!(borders.top.is_none());
    assert!(borders.bottom.is_none());
}

#[test]
fn test_borders_operations_rows() {
    let gc = GridController::test();
    let ops = gc
        .set_borders_a1_selection_operations(
            selection(1, 2, None, Some(4)),
            BorderSelection::Bottom,
            Some(BorderStyle::default_style()),
            true,
        )
        .unwrap();
    let (sheet_id, borders) = single_op(ops);
    assert_eq!(sheet_id, SheetId::test());
    assert_borders(&borders, 1, 1, "");
    assert_borders(&borders, 1, 2, "");
    assert_borders(&borders, 1, 3, "");
    assert_borders(&borders, 1, 4, "bottom");
    assert_borders(&borders, ZZZZZ, 4, "bottom");
    assert!(borders.left.is_none());
    assert!(borders.right.is_none());
    assert!(borders.top.is_none());
}

#[test]
fn test_borders_operations_rects() {
    let gc = GridController::test();
    let ops = gc
        .set_borders_a1_selection_operations(
            selection(2, 3, Some(4), Some(5)),
            BorderSelection::Outer,
            Some(BorderStyle::default_style()),
            true,
        )
        .unwrap();
    let (sheet_id, borders) = single_op(ops);
    assert_eq!(sheet_id, SheetId::test());
    assert_borders(&borders, 2, 3, "left,top");
    assert_borders(&borders, 3, 3, "top");
    assert_borders(&borders, 4, 5, "right,bottom");
    assert_borders(&borders, 3, 5, "bottom");
}

#[test]
fn clearing_an_empty_selection_gives_no_operation() {
    let gc = GridController::test();
    let ops = gc.set_borders_a1_selection_operations(
        selection(2, 3, Some(4), Some(5)),
        BorderSelection::All,
        None,
        true,
    );
    assert!(ops.is_none());
}

#[test]
fn unknown_sheet_gives_no_operation() {
    let gc = GridController::test();
    let sel = A1Selection {
        sheet_id: SheetId { id: 7 },
        ranges: vec![RefRangeBounds { x1: 1, y1: 1, x2: Some(2), y2: Some(2) }],
    };
    let ops = gc.set_borders_a1_selection_operations(
        sel,
        BorderSelection::All,
        Some(BorderStyle::default_style()),
        false,
    );
    assert!(ops.is_none());
}

#[test]
fn clear_operations_grow_the_range_by_one() {
    let gc = GridController::test();
    let (sheet_id, borders) = single_op(gc.clear_borders_a1_operations(&selection(2, 3, Some(4), Some(5))));
    assert_eq!(sheet_id, SheetId::test());
    // top edges down to the row below, bottom edges from the row above
    assert!(borders.get(Direction::Top, 3, 6).is_some());
    assert!(borders.get(Direction::Top, 3, 7).is_none());
    assert!(borders.get(Direction::Bottom, 3, 2).is_some());
    assert!(borders.get(Direction::Bottom, 3, 1).is_none());
    assert!(borders.get(Direction::Left, 5, 4).is_some());
    assert!(borders.get(Direction::Right, 1, 4).is_some());
    assert!(borders.get(Direction::Right, 5, 4).is_none());
}

#[test]
fn toggle_clears_a_repeated_style() {
    let mut gc = GridController::test();
    let style = BorderStyle::default_style();
    let sel = selection(2, 3, Some(4), Some(5));
    let (_, set) = single_op(
        gc.set_borders_a1_selection_operations(sel.clone(), BorderSelection::All, Some(style), false)
            .unwrap(),
    );
    gc.sheets[0].borders.apply_updates(&set);
    assert_eq!(gc.sheets[0].borders.get(Direction::Top, 3, 4), Some(style));

    // the same request again, with a later timestamp, turns into a clear
    let later = BorderStyle { timestamp: 9, ..style };
    let (_, again) = single_op(
        gc.set_borders_a1_selection_operations(sel, BorderSelection::All, Some(later), false)
            .unwrap(),
    );
    gc.sheets[0].borders.apply_updates(&again);
    for x in 2..=4 {
        for y in 3..=5 {
            for d in [Direction::Top, Direction::Bottom, Direction::Left, Direction::Right] {
                assert_eq!(gc.sheets[0].borders.get(d, x, y), None);
            }
        }
    }
}

#[test]
fn a_different_style_is_no_toggle() {
    let mut gc = GridController::test();
    let style = BorderStyle::default_style();
    let sel = selection(2, 2, Some(3), Some(3));
    let (_, set) = single_op(
        gc.set_borders_a1_selection_operations(sel.clone(), BorderSelection::Top, Some(style), false)
            .unwrap(),
    );
    gc.sheets[0].borders.apply_updates(&set);
    let red = BorderStyle { color: 0xff0000ff, ..style };
    let (_, next) = single_op(
        gc.set_borders_a1_selection_operations(sel, BorderSelection::Top, Some(red), false)
            .unwrap(),
    );
    gc.sheets[0].borders.apply_updates(&next);
    assert_eq!(gc.sheets[0].borders.get(Direction::Top, 3, 2), Some(red));
}
