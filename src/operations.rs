use vstd::prelude::*;
use crate::borders::{Borders, BordersUpdates, Direction};
use crate::toggle::repeats;
use crate::plane::{needs_undo, update_at};
use crate::plane::{BorderStyle, ClearOption, UpdatePlane, UpdateRect};
use crate::rect::{Rect, UNBOUNDED};

verus! {

/// Which edges of a range a border request draws or removes.
#[derive(Clone, Copy, Debug, PartialEq, Eq, Structural)]
pub enum BorderSelection {
    All,
    Inner,
    Outer,
    Horizontal,
    Vertical,
    Left,
    Top,
    Right,
    Bottom,
    Clear,
}

/// A range of cells in 1-based coordinates; an absent far bound runs to the
/// end of the grid (a whole column, row, or the whole sheet).
#[derive(Clone, Copy, Debug, PartialEq, Eq, Structural)]
pub struct RefRangeBounds {
    pub x1: i64,
    pub y1: i64,
    pub x2: Option<i64>,
    pub y2: Option<i64>,
}

impl RefRangeBounds {
    pub open spec fn wf(self) -> bool {
        &&& 1 <= self.x1 < UNBOUNDED
        &&& 1 <= self.y1 < UNBOUNDED
        &&& match self.x2 { Some(v) => self.x1 <= v < UNBOUNDED, None => true }
        &&& match self.y2 { Some(v) => self.y1 <= v < UNBOUNDED, None => true }
    }

    /// The corners of the range, with `None` for an unbounded far side.
    pub fn to_contiguous2d_coords(&self) -> (r: (i64, i64, Option<i64>, Option<i64>))
        ensures
            r == (self.x1, self.y1, self.x2, self.y2),
    {
        (self.x1, self.y1, self.x2, self.y2)
    }
}

/// An update rectangle from `(x1, y1)` to the optional far corner.
pub open spec fn ur(x1: int, y1: int, x2: Option<i64>, y2: Option<i64>, v: ClearOption) -> UpdateRect {
    UpdateRect { rect: Rect::spec_new(x1 as i64, y1 as i64, x2, y2), value: v }
}

pub open spec fn add_if(s: Seq<UpdateRect>, c: bool, e: UpdateRect) -> Seq<UpdateRect> {
    if c { s.push(e) } else { s }
}

pub open spec fn at_least_one(v: int) -> int {
    if v > 1 { v } else { 1 }
}

pub open spec fn next_of(v: Option<i64>) -> Option<i64> {
    match v {
        Some(b) => Some((b + 1) as i64),
        None => None,
    }
}

/// The rectangles that `mode` adds to plane `d` over range `r`, in order.
/// `v` is the value assigned; `cn` says whether neighbouring edges are cleared.
pub open spec fn mode_adds(mode: BorderSelection, v: ClearOption, r: RefRangeBounds, cn: bool, d: Direction) -> Seq<UpdateRect> {
    let (x1, y1, x2, y2) = (r.x1 as int, r.y1 as int, r.x2, r.y2);
    let full = ur(x1, y1, x2, y2, v);
    let clear = ClearOption::Clear;
    // the opposing edges just outside the range
    let right_of_left = ur(x1 - 1, y1, Some((x1 - 1) as i64), y2, clear);
    let bottom_of_above = ur(x1, y1 - 1, x2, Some((y1 - 1) as i64), clear);
    let left_of_right = ur(x2.unwrap() + 1, y1, Some((x2.unwrap() + 1) as i64), y2, clear);
    let top_of_below = ur(x1, y2.unwrap() + 1, x2, Some((y2.unwrap() + 1) as i64), clear);
    let e = Seq::<UpdateRect>::empty();
    match mode {
        BorderSelection::All => match d {
            Direction::Top => add_if(seq![full], cn && y2.is_some(), top_of_below),
            Direction::Bottom => add_if(seq![full], cn && y1 > 1, bottom_of_above),
            Direction::Left => add_if(seq![full], cn && x2.is_some(), left_of_right),
            Direction::Right => add_if(seq![full], cn && x1 > 1, right_of_left),
        },
        BorderSelection::Inner => match d {
            Direction::Left => seq![ur(x1 + 1, y1, x2, y2, v)],
            Direction::Right => add_if(e, x2.is_some(), ur(x1, y1, Some(at_least_one(x2.unwrap() - 1) as i64), y2, v)),
            Direction::Top => seq![ur(x1, y1 + 1, x2, y2, v)],
            Direction::Bottom => add_if(e, y2.is_some(), ur(x1, y1, x2, Some(at_least_one(y2.unwrap() - 1) as i64), v)),
        },
        BorderSelection::Outer => match d {
            Direction::Left => add_if(seq![ur(x1, y1, Some(x1 as i64), y2, v)], cn && x2.is_some(), left_of_right),
            Direction::Right => add_if(
                add_if(e, x2.is_some(), ur(x2.unwrap() as int, y1, x2, y2, v)),
                cn && x1 > 1,
                right_of_left,
            ),
            Direction::Top => add_if(seq![ur(x1, y1, x2, Some(y1 as i64), v)], cn && y2.is_some(), top_of_below),
            Direction::Bottom => add_if(
                add_if(e, y2.is_some(), ur(x1, y2.unwrap() as int, x2, y2, v)),
                cn && y1 > 1,
                bottom_of_above,
            ),
        },
        BorderSelection::Horizontal => match d {
            Direction::Top => seq![ur(x1, y1 + 1, x2, y2, v)],
            Direction::Bottom => add_if(e, cn && y2.is_some(), ur(x1, y1, x2, Some(at_least_one(y2.unwrap() - 1) as i64), clear)),
            _ => e,
        },
        BorderSelection::Vertical => match d {
            Direction::Left => seq![ur(x1 + 1, y1, x2, y2, v)],
            Direction::Right => add_if(e, cn && x2.is_some(), ur(x1, y1, Some(at_least_one(x2.unwrap() - 1) as i64), y2, clear)),
            _ => e,
        },
        BorderSelection::Left => match d {
            Direction::Left => seq![ur(x1, y1, Some(x1 as i64), y2, v)],
            Direction::Right => add_if(e, cn && x1 > 1, right_of_left),
            _ => e,
        },
        BorderSelection::Top => match d {
            Direction::Top => seq![ur(x1, y1, x2, Some(y1 as i64), v)],
            Direction::Bottom => add_if(e, cn && y1 > 1, bottom_of_above),
            _ => e,
        },
        BorderSelection::Right => match d {
            Direction::Right => add_if(e, x2.is_some(), ur(x2.unwrap() as int, y1, x2, y2, v)),
            Direction::Left => add_if(e, cn && x2.is_some(), left_of_right),
            _ => e,
        },
        BorderSelection::Bottom => match d {
            Direction::Bottom => add_if(e, y2.is_some(), ur(x1, y2.unwrap() as int, x2, y2, v)),
            Direction::Top => add_if(e, cn && y2.is_some(), top_of_below),
            _ => e,
        },
        // the range grown by one cell on each bounded side
        BorderSelection::Clear => match d {
            Direction::Top => seq![ur(x1, y1, x2, next_of(y2), clear)],
            Direction::Bottom => seq![ur(x1, at_least_one(y1 - 1), x2, y2, clear)],
            Direction::Left => seq![ur(x1, y1, next_of(x2), y2, clear)],
            Direction::Right => seq![ur(at_least_one(x1 - 1), y1, x2, y2, clear)],
        },
    }
}

/// The rectangles of an optional plane, `None` where the plane is absent.
pub open spec fn plane_entries(p: Option<UpdatePlane>) -> Option<Seq<UpdateRect>> {
    match p {
        Some(u) => Some(u.entries@),
        None => None,
    }
}

/// A plane with `adds` appended; an absent plane comes into being only when
/// something is added.
pub open spec fn extended(p: Option<Seq<UpdateRect>>, adds: Seq<UpdateRect>) -> Option<Seq<UpdateRect>> {
    if adds.len() == 0 {
        p
    } else {
        match p {
            Some(s) => Some(s + adds),
            None => Some(adds),
        }
    }
}

/// The value a request assigns: the style, or a clear when there is none.
pub open spec fn style_value(style: Option<BorderStyle>) -> ClearOption {
    match style {
        Some(s) => ClearOption::Style(s),
        None => ClearOption::Clear,
    }
}

/// Appends `adds` to an optional plane, creating it when needed.
fn append_plane(p: &mut Option<UpdatePlane>, adds: Vec<UpdateRect>)
    requires
        crate::borders::opt_wf(*old(p)),
        forall|i: int| 0 <= i < adds@.len() ==> (#[trigger] adds@[i]).rect.wf(),
    ensures
        crate::borders::opt_wf(*final(p)),
        plane_entries(*final(p)) == extended(plane_entries(*old(p)), adds@),
{
    if adds.len() == 0 {
        return;
    }
    let mut plane = match p.take() {
        Some(u) => u,
        None => UpdatePlane::new(),
    };
    let ghost start = plane.entries@;
    let mut i: usize = 0;
    while i < adds.len()
        invariant
            plane.wf(),
            i <= adds@.len(),
            forall|k: int| 0 <= k < adds@.len() ==> (#[trigger] adds@[k]).rect.wf(),
            plane.entries@ == start + adds@.take(i as int),
        decreases adds@.len() - i,
    {
        let e = adds[i];
        plane.entries.push(e);
        assert(adds@.take(i + 1) =~= adds@.take(i as int).push(e));
        assert(start + adds@.take(i + 1) =~= (start + adds@.take(i as int)).push(e));
        i = i + 1;
    }
    assert(adds@.take(adds@.len() as int) =~= adds@);
    assert(start == Seq::<UpdateRect>::empty() ==> start + adds@ =~= adds@);
    *p = Some(plane);
}

fn mk(x1: i64, y1: i64, x2: Option<i64>, y2: Option<i64>, v: ClearOption) -> (r: UpdateRect)
    ensures
        r == ur(x1 as int, y1 as int, x2, y2, v),
{
    UpdateRect { rect: Rect::new(x1, y1, x2, y2), value: v }
}

/// What a batch holds, plane by plane.
pub open spec fn batch_view(b: BordersUpdates, d: Direction) -> Option<Seq<UpdateRect>> {
    plane_entries(b.plane(d))
}

/// A reversible change to a sheet.
#[derive(Clone, Debug)]
pub enum Operation {
    SetBordersA1 { sheet_id: SheetId, borders: BordersUpdates },
}

/// A selection: ranges on one sheet.
#[derive(Clone, Debug)]
pub struct A1Selection {
    pub sheet_id: SheetId,
    pub ranges: Vec<RefRangeBounds>,
}

/// The batch that a request builds over a list of ranges, plane by plane:
/// each range appends the rectangles of its mode, in order.
pub open spec fn selection_view(
    mode: BorderSelection,
    style: Option<BorderStyle>,
    ranges: Seq<RefRangeBounds>,
    cn: bool,
    d: Direction,
) -> Option<Seq<UpdateRect>>
    decreases ranges.len(),
{
    if ranges.len() == 0 {
        None
    } else {
        extended(
            selection_view(mode, style, ranges.drop_last(), cn, d),
            mode_adds(mode, style_value(style), ranges.last(), cn && style.is_none(), d),
        )
    }
}

/// An optional list of update rectangles that holds none.
pub open spec fn view_empty(v: Option<Seq<UpdateRect>>) -> bool {
    match v {
        Some(s) => s.len() == 0,
        None => true,
    }
}

/// What an optional list of update rectangles says of a cell.
pub open spec fn seq_at(v: Option<Seq<UpdateRect>>, x: int, y: int) -> Option<ClearOption> {
    match v {
        Some(s) => update_at(s, x, y),
        None => None,
    }
}

/// Requesting `style` in `mode` over `ranges` would only repeat what `b` shows.
pub open spec fn toggles(b: Borders, mode: BorderSelection, style: Option<BorderStyle>, ranges: Seq<RefRangeBounds>) -> bool {
    forall|d: Direction, x: int, y: int| #[trigger] repeats(seq_at(selection_view(mode, style, ranges, false, d), x, y), b.at(d, x, y))
}

/// The style a request ends up with: none when it would only repeat what is there.
pub open spec fn effective_style(b: Borders, mode: BorderSelection, style: Option<BorderStyle>, ranges: Seq<RefRangeBounds>) -> Option<BorderStyle> {
    if style.is_some() && toggles(b, mode, style, ranges) { None } else { style }
}

/// Applying the batch of a request to `b` changes something.
pub open spec fn request_changes(b: Borders, mode: BorderSelection, style: Option<BorderStyle>, ranges: Seq<RefRangeBounds>, cn: bool) -> bool {
    exists|d: Direction, i: int| #![trigger selection_view(mode, style, ranges, cn, d).unwrap()[i]]
        selection_view(mode, style, ranges, cn, d).is_some()
        && 0 <= i < selection_view(mode, style, ranges, cn, d).unwrap().len()
        && needs_undo(b.plane(d).entries@, selection_view(mode, style, ranges, cn, d).unwrap()[i])
}

pub open spec fn all_wf(ranges: Seq<RefRangeBounds>) -> bool {
    forall|i: int| 0 <= i < ranges.len() ==> (#[trigger] ranges[i]).wf()
}

pub struct GridController {
    pub sheets: Vec<Sheet>,
}

/// Identifies a sheet.
#[derive(Clone, Copy, Debug, PartialEq, Eq, Structural)]
pub struct SheetId {
    pub id: u64,
}

impl SheetId {
    /// The identifier of the first sheet of a new grid.
    pub fn test() -> (r: SheetId)
        ensures
            r.id == 0,
    {
        SheetId { id: 0 }
    }
}

/// One sheet and its borders.
pub struct Sheet {
    pub id: SheetId,
    pub borders: crate::borders::Borders,
}

impl GridController {
    /// Sheet ids are distinct and every sheet's borders are well formed.
    pub open spec fn wf(&self) -> bool {
        &&& forall|i: int| 0 <= i < self.sheets@.len() ==> (#[trigger] self.sheets@[i]).borders.wf()
        &&& forall|i: int, j: int| 0 <= i < self.sheets@.len() && 0 <= j < self.sheets@.len()
            && (#[trigger] self.sheets@[i]).id == (#[trigger] self.sheets@[j]).id ==> i == j
    }

    /// A grid with one empty sheet.
    pub fn test() -> (r: GridController)
        ensures
            r.wf(),
            r.sheets@.len() == 1,
            r.sheets@[0].id.id == 0,
            forall|d: Direction, x: int, y: int| r.sheets@[0].borders.at(d, x, y).is_none(),
    {
        let mut sheets: Vec<Sheet> = Vec::new();
        sheets.push(Sheet { id: SheetId::test(), borders: Borders::new() });
        GridController { sheets }
    }

    /// Where the sheet `id` stands.
    pub fn sheet_index(&self, id: SheetId) -> (r: Option<usize>)
        ensures
            match r {
                Some(i) => i < self.sheets@.len() && self.sheets@[i as int].id == id,
                None => forall|i: int| 0 <= i < self.sheets@.len() ==> (#[trigger] self.sheets@[i]).id != id,
            },
    {
        let mut i: usize = 0;
        while i < self.sheets.len()
            invariant
                i <= self.sheets@.len(),
                forall|j: int| 0 <= j < i ==> (#[trigger] self.sheets@[j]).id != id,
            decreases self.sheets@.len() - i,
        {
            if self.sheets[i].id.id == id.id {
                return Some(i);
            }
            i = i + 1;
        }
        None
    }

    /// The batch of a request over every range of a selection.
    fn selection_batch(
        &self,
        border_selection: BorderSelection,
        style: Option<BorderStyle>,
        ranges: &Vec<RefRangeBounds>,
        clear_neighbors: bool,
    ) -> (r: BordersUpdates)
        requires
            all_wf(ranges@),
        ensures
            r.wf(),
            forall|d: Direction| #[trigger] batch_view(r, d) == selection_view(border_selection, style, ranges@, clear_neighbors, d),
    {
        let mut borders = BordersUpdates::new();
        let mut i: usize = 0;
        while i < ranges.len()
            invariant
                i <= ranges@.len(),
                all_wf(ranges@),
                borders.wf(),
                forall|d: Direction| #[trigger] batch_view(borders, d) == selection_view(border_selection, style, ranges@.take(i as int), clear_neighbors, d),
            decreases ranges@.len() - i,
        {
            let range = ranges[i];
            assert(ranges@[i as int].wf());
            self.a1_border_style_range(border_selection, style, &range, &mut borders, clear_neighbors);
            assert(ranges@.take(i + 1).drop_last() =~= ranges@.take(i as int));
            i = i + 1;
        }
        assert(ranges@.take(ranges@.len() as int) =~= ranges@);
        borders
    }

    /// Creates border operations to clear the selection of any borders; none
    /// when the selection holds no range, as the batch would be empty.
    pub fn clear_borders_a1_operations(&self, selection: &A1Selection) -> (ops: Vec<Operation>)
        requires
            all_wf(selection.ranges@),
        ensures
            ops@.len() == if selection.ranges@.len() == 0 { 0int } else { 1int },
            ops@.len() == 0 <==> forall|d: Direction| #[trigger] view_empty(
                selection_view(BorderSelection::Clear, None, selection.ranges@, false, d)),
            ops@.len() == 1 ==> match ops@[0] {
                Operation::SetBordersA1 { sheet_id, borders } => {
                    &&& sheet_id == selection.sheet_id
                    &&& borders.wf()
                    &&& !borders.is_empty_spec()
                    &&& forall|d: Direction| #[trigger] batch_view(borders, d)
                        == selection_view(BorderSelection::Clear, None, selection.ranges@, false, d)
                },
            },
    {
        let borders = self.selection_batch(BorderSelection::Clear, None, &selection.ranges, false);
        let ghost rs = selection.ranges@;
        assert(borders.is_empty_spec() <==> forall|d: Direction| #[trigger] view_empty(
            selection_view(BorderSelection::Clear, None, rs, false, d))) by {
            assert(batch_view(borders, Direction::Left) == selection_view(BorderSelection::Clear, None, rs, false, Direction::Left));
            assert(batch_view(borders, Direction::Right) == selection_view(BorderSelection::Clear, None, rs, false, Direction::Right));
            assert(batch_view(borders, Direction::Top) == selection_view(BorderSelection::Clear, None, rs, false, Direction::Top));
            assert(batch_view(borders, Direction::Bottom) == selection_view(BorderSelection::Clear, None, rs, false, Direction::Bottom));
            if borders.is_empty_spec() {
                assert forall|d: Direction| #[trigger] view_empty(selection_view(BorderSelection::Clear, None, rs, false, d)) by {
                    match d {
                        Direction::Left => {},
                        Direction::Right => {},
                        Direction::Top => {},
                        Direction::Bottom => {},
                    }
                }
            }
            if forall|d: Direction| #[trigger] view_empty(selection_view(BorderSelection::Clear, None, rs, false, d)) {
                assert(view_empty(selection_view(BorderSelection::Clear, None, rs, false, Direction::Left)));
                assert(view_empty(selection_view(BorderSelection::Clear, None, rs, false, Direction::Right)));
                assert(view_empty(selection_view(BorderSelection::Clear, None, rs, false, Direction::Top)));
                assert(view_empty(selection_view(BorderSelection::Clear, None, rs, false, Direction::Bottom)));
            }
        }
        proof {
            if rs.len() > 0 {
                assert(mode_adds(BorderSelection::Clear, ClearOption::Clear, rs.last(), false, Direction::Top).len() == 1);
                assert(!view_empty(selection_view(BorderSelection::Clear, None, rs, false, Direction::Top)));
            } else {
                assert forall|d: Direction| #[trigger] view_empty(selection_view(BorderSelection::Clear, None, rs, false, d)) by {}
            }
        }
        if borders.is_empty() {
            Vec::new()
        } else {
            vec![Operation::SetBordersA1 { sheet_id: selection.sheet_id, borders }]
        }
    }

    /// Creates the border operation for a request over a selection. A styled
    /// request that would only repeat what the sheet shows becomes a clear
    /// (toggle). Returns None when the sheet is unknown or the batch would
    /// change nothing.
    pub fn set_borders_a1_selection_operations(
        &self,
        selection: A1Selection,
        border_selection: BorderSelection,
        style: Option<BorderStyle>,
        clear_neighbors: bool,
    ) -> (r: Option<Vec<Operation>>)
        requires
            self.wf(),
            all_wf(selection.ranges@),
        ensures
            (forall|i: int| 0 <= i < self.sheets@.len() ==> (#[trigger] self.sheets@[i]).id != selection.sheet_id) ==> r.is_none(),
            forall|i: int| 0 <= i < self.sheets@.len() && (#[trigger] self.sheets@[i]).id == selection.sheet_id ==> {
                let b = self.sheets@[i].borders;
                let st = effective_style(b, border_selection, style, selection.ranges@);
                match r {
                    None => !request_changes(b, border_selection, st, selection.ranges@, clear_neighbors),
                    Some(ops) => {
                        &&& request_changes(b, border_selection, st, selection.ranges@, clear_neighbors)
                        &&& ops@.len() == 1
                        &&& match ops@[0] {
                            Operation::SetBordersA1 { sheet_id, borders } => {
                                &&& sheet_id == selection.sheet_id
                                &&& borders.wf()
                                &&& forall|d: Direction| #[trigger] batch_view(borders, d)
                                    == selection_view(border_selection, st, selection.ranges@, clear_neighbors, d)
                            },
                        }
                    },
                }
            },
    {
        let idx = match self.sheet_index(selection.sheet_id) {
            Some(i) => i,
            None => return None,
        };
        let sheet = &self.sheets[idx];
        let ghost b = sheet.borders;
        assert(b.wf());

        // Mutable so we can clear it if the style is toggled.
        let mut style = style;
        if style.is_some() {
            // Compared without clearing neighbours: toggling looks only at
            // the edges the request itself sets.
            let candidate = self.selection_batch(border_selection, style, &selection.ranges, false);
            let t = sheet.borders.is_toggle_borders(&candidate);
            assert(t == toggles(b, border_selection, style, selection.ranges@)) by {
                assert forall|d: Direction, x: int, y: int| #[trigger] candidate.at(d, x, y)
                    == seq_at(selection_view(border_selection, style, selection.ranges@, false, d), x, y) by {
                    assert(batch_view(candidate, d) == selection_view(border_selection, style, selection.ranges@, false, d));
                }
                if t {
                    assert forall|d: Direction, x: int, y: int| #[trigger] repeats(seq_at(selection_view(border_selection, style, selection.ranges@, false, d), x, y), b.at(d, x, y)) by {
                        assert(candidate.at(d, x, y) == seq_at(selection_view(border_selection, style, selection.ranges@, false, d), x, y));
                        assert(repeats(candidate.at(d, x, y), b.at(d, x, y)));
                    }
                } else {
                    let (d, x, y) = choose|d: Direction, x: int, y: int| !repeats(candidate.at(d, x, y), b.at(d, x, y));
                    assert(candidate.at(d, x, y) == seq_at(selection_view(border_selection, style, selection.ranges@, false, d), x, y));
                    assert(!repeats(seq_at(selection_view(border_selection, style, selection.ranges@, false, d), x, y), b.at(d, x, y)));
                }
            }
            if t {
                style = None;
            }
        }
        let borders = self.selection_batch(border_selection, style, &selection.ranges, clear_neighbors);
        let changes = sheet.borders.changes(&borders);
        assert(changes == request_changes(b, border_selection, style, selection.ranges@, clear_neighbors)) by {
            assert(batch_view(borders, Direction::Left) == selection_view(border_selection, style, selection.ranges@, clear_neighbors, Direction::Left));
            assert(batch_view(borders, Direction::Right) == selection_view(border_selection, style, selection.ranges@, clear_neighbors, Direction::Right));
            assert(batch_view(borders, Direction::Top) == selection_view(border_selection, style, selection.ranges@, clear_neighbors, Direction::Top));
            assert(batch_view(borders, Direction::Bottom) == selection_view(border_selection, style, selection.ranges@, clear_neighbors, Direction::Bottom));
            if request_changes(b, border_selection, style, selection.ranges@, clear_neighbors) {
                let (d, i) = choose|d: Direction, i: int| #![trigger selection_view(border_selection, style, selection.ranges@, clear_neighbors, d).unwrap()[i]]
                    selection_view(border_selection, style, selection.ranges@, clear_neighbors, d).is_some()
                    && 0 <= i < selection_view(border_selection, style, selection.ranges@, clear_neighbors, d).unwrap().len()
                    && needs_undo(b.plane(d).entries@, selection_view(border_selection, style, selection.ranges@, clear_neighbors, d).unwrap()[i]);
                match d {
                    Direction::Left => assert(needs_undo(b.left.entries@, borders.left.unwrap().entries@[i])),
                    Direction::Right => assert(needs_undo(b.right.entries@, borders.right.unwrap().entries@[i])),
                    Direction::Top => assert(needs_undo(b.top.entries@, borders.top.unwrap().entries@[i])),
                    Direction::Bottom => assert(needs_undo(b.bottom.entries@, borders.bottom.unwrap().entries@[i])),
                }
            }
            if changes {
                if crate::borders::plane_changes(b.left, borders.left) {
                    let i = choose|i: int| 0 <= i < borders.left.unwrap().entries@.len() && needs_undo(b.left.entries@, #[trigger] borders.left.unwrap().entries@[i]);
                    assert(selection_view(border_selection, style, selection.ranges@, clear_neighbors, Direction::Left).unwrap()[i] == borders.left.unwrap().entries@[i]);
                } else if crate::borders::plane_changes(b.right, borders.right) {
                    let i = choose|i: int| 0 <= i < borders.right.unwrap().entries@.len() && needs_undo(b.right.entries@, #[trigger] borders.right.unwrap().entries@[i]);
                    assert(selection_view(border_selection, style, selection.ranges@, clear_neighbors, Direction::Right).unwrap()[i] == borders.right.unwrap().entries@[i]);
                } else if crate::borders::plane_changes(b.top, borders.top) {
                    let i = choose|i: int| 0 <= i < borders.top.unwrap().entries@.len() && needs_undo(b.top.entries@, #[trigger] borders.top.unwrap().entries@[i]);
                    assert(selection_view(border_selection, style, selection.ranges@, clear_neighbors, Direction::Top).unwrap()[i] == borders.top.unwrap().entries@[i]);
                } else {
                    let i = choose|i: int| 0 <= i < borders.bottom.unwrap().entries@.len() && needs_undo(b.bottom.entries@, #[trigger] borders.bottom.unwrap().entries@[i]);
                    assert(selection_view(border_selection, style, selection.ranges@, clear_neighbors, Direction::Bottom).unwrap()[i] == borders.bottom.unwrap().entries@[i]);
                }
            }
        }
        if changes {
            Some(vec![Operation::SetBordersA1 { sheet_id: selection.sheet_id, borders }])
        } else {
            None
        }
    }

    /// Populates the BordersUpdates for a range.
    fn a1_border_style_range(
        &self,
        border_selection: BorderSelection,
        style: Option<BorderStyle>,
        range: &RefRangeBounds,
        borders: &mut BordersUpdates,
        clear_neighbors: bool,
    )
        requires
            range.wf(),
            old(borders).wf(),
        ensures
            final(borders).wf(),
            forall|d: Direction| #[trigger] batch_view(*final(borders), d) == extended(
                batch_view(*old(borders), d),
                mode_adds(border_selection, style_value(style), *range, clear_neighbors && style.is_none(), d),
            ),
    {
        // Neighbouring edges are cleared only when removing borders: set
        // styles carry a recency marker that settles a shared edge.
        let cn = clear_neighbors && style.is_none();
        let v = match style {
            Some(s) => ClearOption::Style(s),
            None => ClearOption::Clear,
        };
        let c = ClearOption::Clear;
        let (x1, y1, x2, y2) = range.to_contiguous2d_coords();
        let mut l: Vec<UpdateRect> = Vec::new();
        let mut r: Vec<UpdateRect> = Vec::new();
        let mut t: Vec<UpdateRect> = Vec::new();
        let mut b: Vec<UpdateRect> = Vec::new();
        match border_selection {
            BorderSelection::All => {
                t.push(mk(x1, y1, x2, y2, v));
                b.push(mk(x1, y1, x2, y2, v));
                l.push(mk(x1, y1, x2, y2, v));
                r.push(mk(x1, y1, x2, y2, v));
                if cn {
                    if x1 > 1 {
                        r.push(mk(x1 - 1, y1, Some(x1 - 1), y2, c));
                    }
                    if y1 > 1 {
                        b.push(mk(x1, y1 - 1, x2, Some(y1 - 1), c));
                    }
                    if let Some(x2) = x2 {
                        l.push(mk(x2 + 1, y1, Some(x2 + 1), y2, c));
                    }
                    if let Some(y2) = y2 {
                        t.push(mk(x1, y2 + 1, x2, Some(y2 + 1), c));
                    }
                }
            },
            BorderSelection::Inner => {
                l.push(mk(x1 + 1, y1, x2, y2, v));
                if let Some(x2) = x2 {
                    r.push(mk(x1, y1, Some(if x2 - 1 > 1 { x2 - 1 } else { 1 }), y2, v));
                }
                t.push(mk(x1, y1 + 1, x2, y2, v));
                if let Some(y2) = y2 {
                    b.push(mk(x1, y1, x2, Some(if y2 - 1 > 1 { y2 - 1 } else { 1 }), v));
                }
            },
            BorderSelection::Outer => {
                l.push(mk(x1, y1, Some(x1), y2, v));
                if let Some(x2) = x2 {
                    r.push(mk(x2, y1, Some(x2), y2, v));
                }
                t.push(mk(x1, y1, x2, Some(y1), v));
                if let Some(y2) = y2 {
                    b.push(mk(x1, y2, x2, Some(y2), v));
                }
                if cn {
                    if x1 > 1 {
                        r.push(mk(x1 - 1, y1, Some(x1 - 1), y2, c));
                    }
                    if y1 > 1 {
                        b.push(mk(x1, y1 - 1, x2, Some(y1 - 1), c));
                    }
                    if let Some(x2) = x2 {
                        l.push(mk(x2 + 1, y1, Some(x2 + 1), y2, c));
                    }
                    if let Some(y2) = y2 {
                        t.push(mk(x1, y2 + 1, x2, Some(y2 + 1), c));
                    }
                }
            },
            BorderSelection::Horizontal => {
                t.push(mk(x1, y1 + 1, x2, y2, v));
                if cn {
                    if let Some(y2) = y2 {
                        b.push(mk(x1, y1, x2, Some(if y2 - 1 > 1 { y2 - 1 } else { 1 }), c));
                    }
                }
            },
            BorderSelection::Vertical => {
                l.push(mk(x1 + 1, y1, x2, y2, v));
                if cn {
                    if let Some(x2) = x2 {
                        r.push(mk(x1, y1, Some(if x2 - 1 > 1 { x2 - 1 } else { 1 }), y2, c));
                    }
                }
            },
            BorderSelection::Left => {
                l.push(mk(x1, y1, Some(x1), y2, v));
                if cn && x1 > 1 {
                    r.push(mk(x1 - 1, y1, Some(x1 - 1), y2, c));
                }
            },
            BorderSelection::Top => {
                t.push(mk(x1, y1, x2, Some(y1), v));
                if cn && y1 > 1 {
                    b.push(mk(x1, y1 - 1, x2, Some(y1 - 1), c));
                }
            },
            BorderSelection::Right => {
                if let Some(x2) = x2 {
                    r.push(mk(x2, y1, Some(x2), y2, v));
                    if cn {
                        l.push(mk(x2 + 1, y1, Some(x2 + 1), y2, c));
                    }
                }
            },
            BorderSelection::Bottom => {
                if let Some(y2) = y2 {
                    b.push(mk(x1, y2, x2, Some(y2), v));
                    if cn {
                        t.push(mk(x1, y2 + 1, x2, Some(y2 + 1), c));
                    }
                }
            },
            // for clear, we need to remove any borders that are at the edges of
            // the range--eg, the left border at the next column to the right of the range
            BorderSelection::Clear => {
                t.push(mk(x1, y1, x2, match y2 { Some(y2) => Some(y2 + 1), None => None }, c));
                b.push(mk(x1, if y1 - 1 > 1 { y1 - 1 } else { 1 }, x2, y2, c));
                l.push(mk(x1, y1, match x2 { Some(x2) => Some(x2 + 1), None => None }, y2, c));
                r.push(mk(if x1 - 1 > 1 { x1 - 1 } else { 1 }, y1, x2, y2, c));
            },
        }
        assert(l@ =~= mode_adds(border_selection, v, *range, cn, Direction::Left));
        assert(r@ =~= mode_adds(border_selection, v, *range, cn, Direction::Right));
        assert(t@ =~= mode_adds(border_selection, v, *range, cn, Direction::Top));
        assert(b@ =~= mode_adds(border_selection, v, *range, cn, Direction::Bottom));
        append_plane(&mut borders.left, l);
        append_plane(&mut borders.right, r);
        append_plane(&mut borders.top, t);
        append_plane(&mut borders.bottom, b);
        assert forall|d: Direction| #[trigger] batch_view(*borders, d) == extended(
            batch_view(*old(borders), d),
            mode_adds(border_selection, v, *range, cn, d),
        ) by {
            match d {
                Direction::Left => {},
                Direction::Right => {},
                Direction::Top => {},
                Direction::Bottom => {},
            }
        }
    }
}

} // verus!
