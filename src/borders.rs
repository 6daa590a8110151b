use vstd::prelude::*;
use crate::operations::{Operation, SheetId};
use crate::toggle::{plane_is_toggle, repeats};
use crate::plane::{
    undo_covers,
    applied, needs_undo, restore_of, BorderPlane, BorderStyle, ClearOption, UpdatePlane,
};

verus! {

/// The four edges of a cell.
#[derive(Clone, Copy, Debug, PartialEq, Eq, Structural)]
pub enum Direction {
    Left,
    Right,
    Top,
    Bottom,
}

/// The borders of one sheet: one plane per edge direction.
#[derive(Clone, Debug)]
pub struct Borders {
    pub left: BorderPlane,
    pub right: BorderPlane,
    pub top: BorderPlane,
    pub bottom: BorderPlane,
}

/// A batch of changes to the four planes; an absent plane is left alone.
#[derive(Clone, Debug)]
pub struct BordersUpdates {
    pub left: Option<UpdatePlane>,
    pub right: Option<UpdatePlane>,
    pub top: Option<UpdatePlane>,
    pub bottom: Option<UpdatePlane>,
}

/// What an optional update plane says of a cell.
pub open spec fn opt_update_at(p: Option<UpdatePlane>, x: int, y: int) -> Option<ClearOption> {
    match p {
        Some(u) => u.get_at(x, y),
        None => None,
    }
}

pub open spec fn opt_wf(p: Option<UpdatePlane>) -> bool {
    match p {
        Some(u) => u.wf(),
        None => true,
    }
}

pub open spec fn opt_empty(p: Option<UpdatePlane>) -> bool {
    match p {
        Some(u) => u.entries@.len() == 0,
        None => true,
    }
}

/// Whether applying `p` over plane `s` changes anything that an undo must restore.
pub open spec fn plane_changes(s: BorderPlane, p: Option<UpdatePlane>) -> bool {
    match p {
        Some(u) => exists|i: int| 0 <= i < u.entries@.len() && needs_undo(s.entries@, #[trigger] u.entries@[i]),
        None => false,
    }
}

impl Borders {
    pub open spec fn plane(self, d: Direction) -> BorderPlane {
        match d {
            Direction::Left => self.left,
            Direction::Right => self.right,
            Direction::Top => self.top,
            Direction::Bottom => self.bottom,
        }
    }

    /// The border on edge `d` of cell `(x, y)`.
    pub open spec fn at(self, d: Direction, x: int, y: int) -> Option<BorderStyle> {
        self.plane(d).at(x, y)
    }

    pub open spec fn wf(self) -> bool {
        self.left.wf() && self.right.wf() && self.top.wf() && self.bottom.wf()
    }

    /// `after` is `self` with `u` applied.
    pub open spec fn becomes(self, u: BordersUpdates, after: Borders) -> bool {
        forall|d: Direction, x: int, y: int| #[trigger] after.at(d, x, y) == applied(self.at(d, x, y), u.at(d, x, y))
    }

    /// `rev` undoes the step from `self` to `after`: where it speaks it puts
    /// back the old value, and where it is silent nothing changed.
    pub open spec fn undone_by(self, after: Borders, rev: BordersUpdates) -> bool {
        forall|d: Direction, x: int, y: int| #[trigger] rev.at(d, x, y) == match rev.at(d, x, y) {
            Some(v) => Some(restore_of(self.at(d, x, y))),
            None => None,
        } && (rev.at(d, x, y).is_none() ==> after.at(d, x, y) == self.at(d, x, y))
    }

    /// The undo of applying `u` to `self` mentions edge `d` of `(x, y)`: some
    /// rectangle of `u` that changes something covers it.
    pub open spec fn undo_touches(self, u: BordersUpdates, d: Direction, x: int, y: int) -> bool {
        match u.plane(d) {
            Some(p) => undo_covers(self.plane(d).entries@, p.entries@, p.entries@.len() as int, x, y),
            None => false,
        }
    }

    /// Applying `u` changes something (it sets a style, or clears a border that exists).
    pub open spec fn changed_by(self, u: BordersUpdates) -> bool {
        plane_changes(self.left, u.left) || plane_changes(self.right, u.right)
            || plane_changes(self.top, u.top) || plane_changes(self.bottom, u.bottom)
    }

    /// Whether applying `u` changes anything.
    pub fn changes(&self, u: &BordersUpdates) -> (r: bool)
        requires
            self.wf(),
        ensures
            r == self.changed_by(*u),
    {
        let l = match &u.left { Some(p) => self.left.changed_by(p), None => false };
        let r = match &u.right { Some(p) => self.right.changed_by(p), None => false };
        let t = match &u.top { Some(p) => self.top.changed_by(p), None => false };
        let b = match &u.bottom { Some(p) => self.bottom.changed_by(p), None => false };
        l || r || t || b
    }

    /// Whether every edge that `u` touches already shows the style it sets
    /// (the request repeats what is there, so it should toggle the borders off).
    pub fn is_toggle_borders(&self, u: &BordersUpdates) -> (r: bool)
        requires
            self.wf(),
            u.wf(),
        ensures
            r == forall|d: Direction, x: int, y: int| #[trigger] repeats(u.at(d, x, y), self.at(d, x, y)),
    {
        let l = match &u.left { Some(p) => plane_is_toggle(&self.left, p), None => true };
        let r = match &u.right { Some(p) => plane_is_toggle(&self.right, p), None => true };
        let t = match &u.top { Some(p) => plane_is_toggle(&self.top, p), None => true };
        let b = match &u.bottom { Some(p) => plane_is_toggle(&self.bottom, p), None => true };
        let res = l && r && t && b;
        if res {
            assert forall|d: Direction, x: int, y: int| #[trigger] repeats(u.at(d, x, y), self.at(d, x, y)) by {
                match d {
                    Direction::Left => { if u.left.is_some() { assert(repeats(u.left.unwrap().get_at(x, y), self.left.at(x, y))); } },
                    Direction::Right => { if u.right.is_some() { assert(repeats(u.right.unwrap().get_at(x, y), self.right.at(x, y))); } },
                    Direction::Top => { if u.top.is_some() { assert(repeats(u.top.unwrap().get_at(x, y), self.top.at(x, y))); } },
                    Direction::Bottom => { if u.bottom.is_some() { assert(repeats(u.bottom.unwrap().get_at(x, y), self.bottom.at(x, y))); } },
                }
            }
        } else {
            if !l {
                let ghost p = u.left.unwrap();
                let ghost (x, y) = choose|x: int, y: int| !repeats(p.get_at(x, y), self.left.at(x, y));
                assert(!repeats(u.at(Direction::Left, x, y), self.at(Direction::Left, x, y)));
            } else if !r {
                let ghost p = u.right.unwrap();
                let ghost (x, y) = choose|x: int, y: int| !repeats(p.get_at(x, y), self.right.at(x, y));
                assert(!repeats(u.at(Direction::Right, x, y), self.at(Direction::Right, x, y)));
            } else if !t {
                let ghost p = u.top.unwrap();
                let ghost (x, y) = choose|x: int, y: int| !repeats(p.get_at(x, y), self.top.at(x, y));
                assert(!repeats(u.at(Direction::Top, x, y), self.at(Direction::Top, x, y)));
            } else {
                let ghost p = u.bottom.unwrap();
                let ghost (x, y) = choose|x: int, y: int| !repeats(p.get_at(x, y), self.bottom.at(x, y));
                assert(!repeats(u.at(Direction::Bottom, x, y), self.at(Direction::Bottom, x, y)));
            }
        }
        res
    }

    /// Applies `borders` and returns the operation that undoes it, for the
    /// sheet `sheet_id`; no operation when nothing changed.
    pub fn set_borders_a1(&mut self, sheet_id: SheetId, borders: &BordersUpdates) -> (ops: Vec<Operation>)
        requires
            old(self).wf(),
            borders.wf(),
        ensures
            final(self).wf(),
            old(self).becomes(*borders, *final(self)),
            ops@.len() == if old(self).changed_by(*borders) { 1int } else { 0int },
            ops@.len() == 1 ==> match ops@[0] {
                Operation::SetBordersA1 { sheet_id: id, borders: rev } => {
                    &&& id == sheet_id
                    &&& rev.wf()
                    &&& !rev.is_empty_spec()
                    &&& old(self).undone_by(*final(self), rev)
                    &&& forall|d: Direction, x: int, y: int| #[trigger] rev.at(d, x, y).is_some() <==> old(self).undo_touches(*borders, d, x, y)
                },
            },
    {
        let reverse_borders = self.apply_updates(borders);
        if reverse_borders.is_empty() {
            Vec::new()
        } else {
            vec![Operation::SetBordersA1 { sheet_id, borders: reverse_borders }]
        }
    }

    /// A sheet with no borders.
    pub fn new() -> (r: Borders)
        ensures
            r.wf(),
            forall|d: Direction, x: int, y: int| r.at(d, x, y).is_none(),
    {
        Borders {
            left: BorderPlane::new(),
            right: BorderPlane::new(),
            top: BorderPlane::new(),
            bottom: BorderPlane::new(),
        }
    }

    /// The border on edge `d` of cell `(x, y)`.
    pub fn get(&self, d: Direction, x: i64, y: i64) -> (r: Option<BorderStyle>)
        ensures
            r == self.at(d, x as int, y as int),
    {
        match d {
            Direction::Left => self.left.get(x, y),
            Direction::Right => self.right.get(x, y),
            Direction::Top => self.top.get(x, y),
            Direction::Bottom => self.bottom.get(x, y),
        }
    }

    fn set_borders_item(item: &Option<UpdatePlane>, border_type: &mut BorderPlane) -> (r: Option<UpdatePlane>)
        requires
            old(border_type).wf(),
            opt_wf(*item),
        ensures
            final(border_type).wf(),
            opt_wf(r),
            r.is_some() == item.is_some(),
            forall|x: int, y: int| #[trigger] final(border_type).at(x, y) == applied(old(border_type).at(x, y), opt_update_at(*item, x, y)),
            forall|x: int, y: int| #[trigger] opt_update_at(r, x, y) == match opt_update_at(r, x, y) {
                Some(v) => Some(restore_of(old(border_type).at(x, y))),
                None => None,
            } && (opt_update_at(r, x, y).is_none() ==> final(border_type).at(x, y) == old(border_type).at(x, y)),
            opt_empty(r) <==> !plane_changes(*old(border_type), *item),
            forall|x: int, y: int| #[trigger] opt_update_at(r, x, y).is_some() <==> match *item {
                Some(p) => undo_covers(old(border_type).entries@, p.entries@, p.entries@.len() as int, x, y),
                None => false,
            },
    {
        match item {
            Some(u) => {
                let rev = border_type.set_from(u);
                Some(rev)
            },
            None => None,
        }
    }

    /// Applies the updates to the borders and returns an update to undo the changes.
    pub fn apply_updates(&mut self, updates: &BordersUpdates) -> (rev: BordersUpdates)
        requires
            old(self).wf(),
            updates.wf(),
        ensures
            final(self).wf(),
            rev.wf(),
            old(self).becomes(*updates, *final(self)),
            old(self).undone_by(*final(self), rev),
            rev.is_empty_spec() <==> !old(self).changed_by(*updates),
            forall|d: Direction, x: int, y: int| #[trigger] rev.at(d, x, y).is_some() <==> old(self).undo_touches(*updates, d, x, y),
    {
        let left = Self::set_borders_item(&updates.left, &mut self.left);
        let right = Self::set_borders_item(&updates.right, &mut self.right);
        let top = Self::set_borders_item(&updates.top, &mut self.top);
        let bottom = Self::set_borders_item(&updates.bottom, &mut self.bottom);
        let rev = BordersUpdates { left, right, top, bottom };
        assert forall|d: Direction, x: int, y: int| #[trigger] self.at(d, x, y) == applied(old(self).at(d, x, y), updates.at(d, x, y)) by {
            match d {
                Direction::Left => {},
                Direction::Right => {},
                Direction::Top => {},
                Direction::Bottom => {},
            }
        }
        assert forall|d: Direction, x: int, y: int| #[trigger] rev.at(d, x, y).is_some() <==> old(self).undo_touches(*updates, d, x, y) by {
            match d {
                Direction::Left => {},
                Direction::Right => {},
                Direction::Top => {},
                Direction::Bottom => {},
            }
        }
        assert forall|d: Direction, x: int, y: int| #[trigger] rev.at(d, x, y) == match rev.at(d, x, y) {
            Some(v) => Some(restore_of(old(self).at(d, x, y))),
            None => None,
        } && (rev.at(d, x, y).is_none() ==> self.at(d, x, y) == old(self).at(d, x, y)) by {
            match d {
                Direction::Left => {},
                Direction::Right => {},
                Direction::Top => {},
                Direction::Bottom => {},
            }
        }
        rev
    }
}

impl BordersUpdates {
    pub open spec fn plane(self, d: Direction) -> Option<UpdatePlane> {
        match d {
            Direction::Left => self.left,
            Direction::Right => self.right,
            Direction::Top => self.top,
            Direction::Bottom => self.bottom,
        }
    }

    /// What the batch says of edge `d` of cell `(x, y)`; `None` is untouched.
    pub open spec fn at(self, d: Direction, x: int, y: int) -> Option<ClearOption> {
        opt_update_at(self.plane(d), x, y)
    }

    pub open spec fn wf(self) -> bool {
        opt_wf(self.left) && opt_wf(self.right) && opt_wf(self.top) && opt_wf(self.bottom)
    }

    /// Holds no assignment in any plane.
    pub open spec fn is_empty_spec(self) -> bool {
        opt_empty(self.left) && opt_empty(self.right) && opt_empty(self.top) && opt_empty(self.bottom)
    }

    /// Every assignment of the batch clears.
    pub open spec fn only_clears(self) -> bool {
        forall|d: Direction, i: int| #![trigger self.plane(d).unwrap().entries@[i]]
            self.plane(d).is_some() && 0 <= i < self.plane(d).unwrap().entries@.len()
                ==> self.plane(d).unwrap().entries@[i].value == ClearOption::Clear
    }

    /// A batch that touches nothing.
    pub fn new() -> (r: BordersUpdates)
        ensures
            r.wf(),
            r.is_empty_spec(),
            r.left.is_none() && r.right.is_none() && r.top.is_none() && r.bottom.is_none(),
    {
        BordersUpdates { left: None, right: None, top: None, bottom: None }
    }

    /// Holds no assignment in any plane.
    pub fn is_empty(&self) -> (r: bool)
        ensures
            r == self.is_empty_spec(),
    {
        let l = match &self.left { Some(p) => p.is_empty(), None => true };
        let r = match &self.right { Some(p) => p.is_empty(), None => true };
        let t = match &self.top { Some(p) => p.is_empty(), None => true };
        let b = match &self.bottom { Some(p) => p.is_empty(), None => true };
        l && r && t && b
    }

    /// What the batch says of edge `d` of cell `(x, y)`; `None` is untouched.
    pub fn get(&self, d: Direction, x: i64, y: i64) -> (r: Option<ClearOption>)
        ensures
            r == self.at(d, x as int, y as int),
    {
        let p = match d {
            Direction::Left => &self.left,
            Direction::Right => &self.right,
            Direction::Top => &self.top,
            Direction::Bottom => &self.bottom,
        };
        match p {
            Some(u) => u.get(x, y),
            None => None,
        }
    }
}

/// Undo is exact: applying a batch and then the batch it returned gives back
/// every edge of every cell as it was.
pub proof fn lemma_undo_restores(
    s0: Borders,
    u: BordersUpdates,
    s1: Borders,
    rev: BordersUpdates,
    s2: Borders,
)
    requires
        s0.becomes(u, s1),
        s0.undone_by(s1, rev),
        s1.becomes(rev, s2),
    ensures
        forall|d: Direction, x: int, y: int| #[trigger] s2.at(d, x, y) == s0.at(d, x, y),
{
    assert forall|d: Direction, x: int, y: int| #[trigger] s2.at(d, x, y) == s0.at(d, x, y) by {
        assert(s2.at(d, x, y) == applied(s1.at(d, x, y), rev.at(d, x, y)));
        assert(rev.at(d, x, y) == match rev.at(d, x, y) {
            Some(v) => Some(restore_of(s0.at(d, x, y))),
            None => None,
        } && (rev.at(d, x, y).is_none() ==> s1.at(d, x, y) == s0.at(d, x, y)));
        match s0.at(d, x, y) {
            Some(t) => {},
            None => {},
        }
    }
}

/// Clearing twice: once a batch that only clears has been applied, applying
/// it again changes nothing, so the undo it returns is empty.
pub proof fn lemma_clear_twice_is_noop(s0: Borders, u: BordersUpdates, s1: Borders)
    requires
        u.wf(),
        u.only_clears(),
        s0.becomes(u, s1),
    ensures
        !s1.changed_by(u),
{
    assert forall|d: Direction| #[trigger] plane_changes(s1.plane(d), u.plane(d)) == false by {
        match u.plane(d) {
            Some(p) => {
                assert forall|i: int| 0 <= i < p.entries@.len() implies !needs_undo(s1.plane(d).entries@, #[trigger] p.entries@[i]) by {
                    assert(p.entries@[i] == u.plane(d).unwrap().entries@[i]);
                    assert(u.plane(d).unwrap().entries@[i].value == ClearOption::Clear);
                    assert forall|x: int, y: int| p.entries@[i].rect.covers(x, y) implies !(#[trigger] crate::plane::style_at(s1.plane(d).entries@, x, y)).is_some() by {
                        assert(s1.at(d, x, y) == applied(s0.at(d, x, y), u.at(d, x, y)));
                        assert(p.get_at(x, y).is_some()) by {
                            crate::plane::lemma_update_at_covered(p.entries@, i, x, y);
                        }
                        crate::plane::lemma_update_at_value(p.entries@, x, y);
                        let j = choose|j: int| 0 <= j < p.entries@.len() && #[trigger] p.entries@[j].value == p.get_at(x, y).unwrap();
                        assert(u.plane(d).unwrap().entries@[j].value == ClearOption::Clear);
                        assert(u.at(d, x, y) == Some(ClearOption::Clear));
                        assert(s1.at(d, x, y).is_none());
                    }
                }
            },
            None => {},
        }
    }
    assert(!plane_changes(s1.plane(Direction::Left), u.plane(Direction::Left)));
    assert(!plane_changes(s1.plane(Direction::Right), u.plane(Direction::Right)));
    assert(!plane_changes(s1.plane(Direction::Top), u.plane(Direction::Top)));
    assert(!plane_changes(s1.plane(Direction::Bottom), u.plane(Direction::Bottom)));
}

} // verus!
