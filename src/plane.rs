use vstd::prelude::*;
use crate::rect::Rect;

verus! {

/// The pattern of a border line.
#[derive(Clone, Copy, Debug, PartialEq, Eq, Structural)]
pub enum CellBorderLine {
    Line1,
    Line2,
    Line3,
    Dotted,
    Dashed,
    Double,
}

/// How a border looks (colour and line) and when it was set.
#[derive(Clone, Copy, Debug, PartialEq, Eq, Structural)]
pub struct BorderStyle {
    /// Colour as 0xRRGGBBAA.
    pub color: u32,
    pub line: CellBorderLine,
    /// Recency marker: the larger one was set later.
    pub timestamp: u64,
}

impl BorderStyle {
    /// Same appearance, whatever the recency.
    pub open spec fn looks_like(self, o: BorderStyle) -> bool {
        self.color == o.color && self.line == o.line
    }

    pub fn same_look(&self, o: &BorderStyle) -> (r: bool)
        ensures
            r == self.looks_like(*o),
    {
        self.color == o.color && self.line == o.line
    }

    /// A thin black line.
    pub fn default_style() -> (r: BorderStyle)
        ensures
            r.color == 0x000000ff && r.line == CellBorderLine::Line1 && r.timestamp == 0,
    {
        BorderStyle { color: 0x000000ff, line: CellBorderLine::Line1, timestamp: 0 }
    }
}

/// What an update says of one edge: remove the border, or set a style.
#[derive(Clone, Copy, Debug, PartialEq, Eq, Structural)]
pub enum ClearOption {
    Clear,
    Style(BorderStyle),
}

/// The edge value that an update leaves behind.
pub open spec fn cleared_to(v: ClearOption) -> Option<BorderStyle> {
    match v {
        ClearOption::Clear => None,
        ClearOption::Style(s) => Some(s),
    }
}

/// The update that puts an edge value back.
pub open spec fn restore_of(v: Option<BorderStyle>) -> ClearOption {
    match v {
        None => ClearOption::Clear,
        Some(s) => ClearOption::Style(s),
    }
}

#[derive(Clone, Copy, Debug, PartialEq, Eq, Structural)]
pub struct StyledRect {
    pub rect: Rect,
    pub style: BorderStyle,
}

#[derive(Clone, Copy, Debug, PartialEq, Eq, Structural)]
pub struct UpdateRect {
    pub rect: Rect,
    pub value: ClearOption,
}

/// The style of cell `(x, y)` in a list of styled rectangles: the last one
/// that covers it wins; `None` where none covers it.
pub open spec fn style_at(s: Seq<StyledRect>, x: int, y: int) -> Option<BorderStyle>
    decreases s.len(),
{
    if s.len() == 0 {
        None
    } else if s.last().rect.covers(x, y) {
        Some(s.last().style)
    } else {
        style_at(s.drop_last(), x, y)
    }
}

/// What a list of update rectangles says of cell `(x, y)`: the last one that
/// covers it wins; `None` (untouched) where none covers it.
pub open spec fn update_at(s: Seq<UpdateRect>, x: int, y: int) -> Option<ClearOption>
    decreases s.len(),
{
    if s.len() == 0 {
        None
    } else if s.last().rect.covers(x, y) {
        Some(s.last().value)
    } else {
        update_at(s.drop_last(), x, y)
    }
}

/// The edge value at `(x, y)` after applying update `u` over plane value `before`.
pub open spec fn applied(before: Option<BorderStyle>, u: Option<ClearOption>) -> Option<BorderStyle> {
    match u {
        None => before,
        Some(v) => cleared_to(v),
    }
}

/// Whether an update rectangle changes anything over `s`: it sets a style, or
/// it clears a cell that has one.
pub open spec fn needs_undo(s: Seq<StyledRect>, e: UpdateRect) -> bool {
    e.value != ClearOption::Clear || exists|x: int, y: int|
        e.rect.covers(x, y) && style_at(s, x, y).is_some()
}

/// Among the first `n` rectangles of `u`, one that changes something over `s`
/// covers `(x, y)`: the cells an undo has to mention.
pub open spec fn undo_covers(s: Seq<StyledRect>, u: Seq<UpdateRect>, n: int, x: int, y: int) -> bool {
    exists|i: int| 0 <= i < n && needs_undo(s, #[trigger] u[i]) && u[i].rect.covers(x, y)
}

pub proof fn lemma_style_at_some(s: Seq<StyledRect>, x: int, y: int)
    ensures
        style_at(s, x, y).is_some() <==> exists|j: int| 0 <= j < s.len() && s[j].rect.covers(x, y),
    decreases s.len(),
{
    if s.len() > 0 {
        lemma_style_at_some(s.drop_last(), x, y);
        if style_at(s.drop_last(), x, y).is_some() {
            let j = choose|j: int| 0 <= j < s.drop_last().len() && s.drop_last()[j].rect.covers(x, y);
            assert(s[j] == s.drop_last()[j]);
        }
        if exists|j: int| 0 <= j < s.len() && s[j].rect.covers(x, y) {
            let j = choose|j: int| 0 <= j < s.len() && s[j].rect.covers(x, y);
            if j < s.len() - 1 {
                assert(s.drop_last()[j] == s[j]);
            }
        }
    }
}

pub proof fn lemma_style_at_push(s: Seq<StyledRect>, e: StyledRect, x: int, y: int)
    ensures
        style_at(s.push(e), x, y) == if e.rect.covers(x, y) { Some(e.style) } else { style_at(s, x, y) },
{
    assert(s.push(e).drop_last() =~= s);
}

/// A cell that some rectangle covers is touched.
pub proof fn lemma_update_at_covered(s: Seq<UpdateRect>, i: int, x: int, y: int)
    requires
        0 <= i < s.len(),
        s[i].rect.covers(x, y),
    ensures
        update_at(s, x, y).is_some(),
    decreases s.len(),
{
    if !s.last().rect.covers(x, y) {
        assert(s.drop_last()[i] == s[i]);
        lemma_update_at_covered(s.drop_last(), i, x, y);
    }
}

/// What a list says of a cell is the value of one of its rectangles.
pub proof fn lemma_update_at_value(s: Seq<UpdateRect>, x: int, y: int)
    ensures
        update_at(s, x, y).is_some() ==> exists|j: int| 0 <= j < s.len() && #[trigger] s[j].value == update_at(s, x, y).unwrap(),
    decreases s.len(),
{
    if s.len() > 0 && !s.last().rect.covers(x, y) {
        lemma_update_at_value(s.drop_last(), x, y);
        if update_at(s, x, y).is_some() {
            let j = choose|j: int| 0 <= j < s.drop_last().len() && #[trigger] s.drop_last()[j].value == update_at(s, x, y).unwrap();
            assert(s[j] == s.drop_last()[j]);
        }
    }
    if s.len() > 0 && s.last().rect.covers(x, y) {
        assert(s[s.len() - 1].value == update_at(s, x, y).unwrap());
    }
}

pub proof fn lemma_update_at_push(s: Seq<UpdateRect>, e: UpdateRect, x: int, y: int)
    ensures
        update_at(s.push(e), x, y) == if e.rect.covers(x, y) { Some(e.value) } else { update_at(s, x, y) },
{
    assert(s.push(e).drop_last() =~= s);
}


/// A pending change to one direction: rectangles of updates, the later one
/// winning where they overlap; a cell that none covers is left untouched.
#[derive(Clone, Debug)]
pub struct UpdatePlane {
    pub entries: Vec<UpdateRect>,
}

impl UpdatePlane {
    pub open spec fn wf(&self) -> bool {
        forall|i: int| 0 <= i < self.entries@.len() ==> (#[trigger] self.entries@[i]).rect.wf()
    }

    /// What the update says of cell `(x, y)`; `None` is untouched.
    pub open spec fn get_at(&self, x: int, y: int) -> Option<ClearOption> {
        update_at(self.entries@, x, y)
    }

    pub fn new() -> (r: UpdatePlane)
        ensures
            r.wf(),
            r.entries@.len() == 0,
            forall|x: int, y: int| r.get_at(x, y).is_none(),
    {
        UpdatePlane { entries: Vec::new() }
    }

    /// Assigns `value` over the rectangle from `(x1, y1)` to the optional far
    /// corner (`None` runs to the end of the grid), over what was there.
    pub fn set_rect(&mut self, x1: i64, y1: i64, x2: Option<i64>, y2: Option<i64>, value: ClearOption)
        requires
            old(self).wf(),
            x1 >= 1,
            y1 >= 1,
        ensures
            final(self).wf(),
            final(self).entries@ == old(self).entries@.push(UpdateRect { rect: Rect::spec_new(x1, y1, x2, y2), value }),
            forall|x: int, y: int| #[trigger] final(self).get_at(x, y) == if Rect::spec_new(x1, y1, x2, y2).covers(x, y) {
                Some(value)
            } else {
                old(self).get_at(x, y)
            },
    {
        let e = UpdateRect { rect: Rect::new(x1, y1, x2, y2), value };
        let ghost o = self.entries@;
        self.entries.push(e);
        assert forall|x: int, y: int| #[trigger] self.get_at(x, y) == if e.rect.covers(x, y) { Some(value) } else { update_at(o, x, y) } by {
            lemma_update_at_push(o, e, x, y);
        }
    }

    /// What the update says of cell `(x, y)`; `None` is untouched.
    pub fn get(&self, x: i64, y: i64) -> (r: Option<ClearOption>)
        ensures
            r == self.get_at(x as int, y as int),
    {
        let mut i: usize = self.entries.len();
        assert(self.entries@.take(i as int) =~= self.entries@);
        while i > 0
            invariant
                i <= self.entries@.len(),
                update_at(self.entries@, x as int, y as int) == update_at(self.entries@.take(i as int), x as int, y as int),
            decreases i,
        {
            let e = self.entries[i - 1];
            assert(self.entries@.take(i as int).drop_last() =~= self.entries@.take(i - 1));
            if e.rect.contains(x, y) {
                return Some(e.value);
            }
            i = i - 1;
        }
        None
    }

    /// Holds no assignment at all.
    pub fn is_empty(&self) -> (r: bool)
        ensures
            r == (self.entries@.len() == 0),
    {
        self.entries.len() == 0
    }
}

/// One direction's borders over the whole grid: disjoint pieces are not
/// required; where pieces overlap the later one wins. Only styled runs are
/// stored, so a cell that no piece covers has no border.
#[derive(Clone, Debug)]
pub struct BorderPlane {
    pub entries: Vec<StyledRect>,
}

impl BorderPlane {
    pub open spec fn wf(&self) -> bool {
        forall|i: int| 0 <= i < self.entries@.len() ==> {
            &&& (#[trigger] self.entries@[i]).rect.wf()
            &&& self.entries@[i].rect.nonempty()
        }
    }

    /// The border at cell `(x, y)`.
    pub open spec fn at(&self, x: int, y: int) -> Option<BorderStyle> {
        style_at(self.entries@, x, y)
    }

    pub fn new() -> (r: BorderPlane)
        ensures
            r.wf(),
            forall|x: int, y: int| r.at(x, y).is_none(),
    {
        BorderPlane { entries: Vec::new() }
    }

    /// The border at cell `(x, y)`.
    pub fn get(&self, x: i64, y: i64) -> (r: Option<BorderStyle>)
        ensures
            r == self.at(x as int, y as int),
    {
        let mut i: usize = self.entries.len();
        assert(self.entries@.take(i as int) =~= self.entries@);
        while i > 0
            invariant
                i <= self.entries@.len(),
                style_at(self.entries@, x as int, y as int) == style_at(self.entries@.take(i as int), x as int, y as int),
            decreases i,
        {
            let e = self.entries[i - 1];
            assert(self.entries@.take(i as int).drop_last() =~= self.entries@.take(i - 1));
            if e.rect.contains(x, y) {
                return Some(e.style);
            }
            i = i - 1;
        }
        None
    }

    /// Whether some stored run shares a cell with `r`.
    fn meets_any(&self, r: &Rect) -> (b: bool)
        requires
            self.wf(),
            r.nonempty(),
        ensures
            b <==> exists|x: int, y: int| r.covers(x, y) && self.at(x, y).is_some(),
    {
        let mut i: usize = 0;
        while i < self.entries.len()
            invariant
                self.wf(),
                r.nonempty(),
                i <= self.entries@.len(),
                forall|j: int| 0 <= j < i ==> !self.entries@[j].rect.meets(*r),
            decreases self.entries@.len() - i,
        {
            let e = self.entries[i];
            if e.rect.intersects(r) {
                proof {
                    let (px, py) = choose|px: int, py: int| e.rect.covers(px, py) && r.covers(px, py);
                    lemma_style_at_some(self.entries@, px, py);
                }
                return true;
            }
            i = i + 1;
        }
        assert forall|x: int, y: int| r.covers(x, y) implies self.at(x, y).is_none() by {
            lemma_style_at_some(self.entries@, x, y);
            if self.at(x, y).is_some() {
                let j = choose|j: int| 0 <= j < self.entries@.len() && self.entries@[j].rect.covers(x, y);
                assert(self.entries@[j].rect.meets(*r));
            }
        }
        false
    }

    /// The updates that would put back, over `r`, what the plane holds now.
    fn restore_rect(&self, r: Rect, out: &mut Vec<UpdateRect>)
        requires
            self.wf(),
            r.wf(),
            forall|j: int| 0 <= j < old(out)@.len() ==> (#[trigger] old(out)@[j]).rect.wf(),
        ensures
            forall|j: int| 0 <= j < final(out)@.len() ==> (#[trigger] final(out)@[j]).rect.wf(),
            final(out)@.len() > old(out)@.len(),
            forall|x: int, y: int| #[trigger] update_at(final(out)@, x, y) == if r.covers(x, y) {
                Some(restore_of(self.at(x, y)))
            } else {
                update_at(old(out)@, x, y)
            },
    {
        let ghost o0 = out@;
        let first = UpdateRect { rect: r, value: ClearOption::Clear };
        out.push(first);
        assert forall|x: int, y: int| #[trigger] update_at(out@, x, y) == if r.covers(x, y) { Some(ClearOption::Clear) } else { update_at(o0, x, y) } by {
            lemma_update_at_push(o0, first, x, y);
        }
        let n = self.entries.len();
        let mut i: usize = 0;
        while i < n
            invariant
                n == self.entries@.len(),
                self.wf(),
                r.wf(),
                i <= n,
                out@.len() > o0.len(),
                forall|j: int| 0 <= j < out@.len() ==> (#[trigger] out@[j]).rect.wf(),
                forall|x: int, y: int| #[trigger] update_at(out@, x, y) == if r.covers(x, y) {
                    Some(restore_of(style_at(self.entries@.take(i as int), x, y)))
                } else {
                    update_at(o0, x, y)
                },
            decreases n - i,
        {
            let e = self.entries[i];
            let c = e.rect.clip(&r);
            let ghost o1 = out@;
            assert(self.entries@.take(i + 1).drop_last() =~= self.entries@.take(i as int));
            assert(self.entries@.take(i + 1).last() == e);
            if c.is_nonempty() {
                let p = UpdateRect { rect: c, value: ClearOption::Style(e.style) };
                out.push(p);
                assert forall|x: int, y: int| #[trigger] update_at(out@, x, y) == if r.covers(x, y) {
                    Some(restore_of(style_at(self.entries@.take(i + 1), x, y)))
                } else {
                    update_at(o0, x, y)
                } by {
                    lemma_update_at_push(o1, p, x, y);
                }
            } else {
                assert forall|x: int, y: int| #[trigger] update_at(out@, x, y) == if r.covers(x, y) {
                    Some(restore_of(style_at(self.entries@.take(i + 1), x, y)))
                } else {
                    update_at(o0, x, y)
                } by {
                    assert(!c.covers(x, y));
                }
            }
            i = i + 1;
        }
        assert(self.entries@.take(n as int) =~= self.entries@);
    }

    /// Applies `u` and returns the updates that undo it: where the returned
    /// batch is silent, the cell did not change.
    pub fn set_from(&mut self, u: &UpdatePlane) -> (rev: UpdatePlane)
        requires
            old(self).wf(),
            u.wf(),
        ensures
            final(self).wf(),
            rev.wf(),
            forall|x: int, y: int| #[trigger] final(self).at(x, y) == applied(old(self).at(x, y), u.get_at(x, y)),
            forall|x: int, y: int| #[trigger] rev.get_at(x, y) == (match rev.get_at(x, y) {
                Some(v) => Some(restore_of(old(self).at(x, y))),
                None => None,
            }),
            forall|x: int, y: int| rev.get_at(x, y).is_none() ==> #[trigger] final(self).at(x, y) == old(self).at(x, y),
            rev.entries@.len() == 0 <==> forall|i: int| 0 <= i < u.entries@.len() ==> !needs_undo(old(self).entries@, #[trigger] u.entries@[i]),
            forall|x: int, y: int| #[trigger] rev.get_at(x, y).is_some() <==> undo_covers(old(self).entries@, u.entries@, u.entries@.len() as int, x, y),
    {
        let mut out: Vec<UpdateRect> = Vec::new();
        let n = u.entries.len();
        let mut i: usize = 0;
        while i < n
            invariant
                n == u.entries@.len(),
                self.wf(),
                u.wf(),
                i <= n,
                forall|j: int| 0 <= j < out@.len() ==> (#[trigger] out@[j]).rect.wf(),
                forall|x: int, y: int| #[trigger] update_at(out@, x, y) == (match update_at(out@, x, y) {
                    Some(v) => Some(restore_of(self.at(x, y))),
                    None => None,
                }),
                forall|x: int, y: int| update_at(out@, x, y).is_none() ==> #[trigger] applied(self.at(x, y), update_at(u.entries@.take(i as int), x, y)) == self.at(x, y),
                out@.len() == 0 <==> forall|j: int| 0 <= j < i ==> !needs_undo(self.entries@, #[trigger] u.entries@[j]),
                forall|x: int, y: int| #[trigger] update_at(out@, x, y).is_some() <==> undo_covers(self.entries@, u.entries@, i as int, x, y),
            decreases n - i,
        {
            let e = u.entries[i];
            assert(u.entries@.take(i + 1) =~= u.entries@.take(i as int).push(e));
            assert(u.entries@.take(i + 1).last() == e);
            assert(u.entries@[i as int].rect.wf());
            let ghost o0 = out@;
            let skip = match e.value {
                ClearOption::Clear => !e.rect.is_nonempty() || !self.meets_any(&e.rect),
                ClearOption::Style(_) => false,
            };
            if skip {
                assert(!needs_undo(self.entries@, e));
                assert forall|x: int, y: int| update_at(out@, x, y).is_none() implies #[trigger] applied(self.at(x, y), update_at(u.entries@.take(i + 1), x, y)) == self.at(x, y) by {
                    lemma_update_at_push(u.entries@.take(i as int), e, x, y);
                    if e.rect.covers(x, y) {
                        assert(self.at(x, y).is_none());
                    }
                }
            } else {
                self.restore_rect(e.rect, &mut out);
                assert(needs_undo(self.entries@, e));
                assert forall|x: int, y: int| update_at(out@, x, y).is_none() implies #[trigger] applied(self.at(x, y), update_at(u.entries@.take(i + 1), x, y)) == self.at(x, y) by {
                    lemma_update_at_push(u.entries@.take(i as int), e, x, y);
                    assert(update_at(out@, x, y) == if e.rect.covers(x, y) { Some(restore_of(self.at(x, y))) } else { update_at(o0, x, y) });
                }
            }
            assert(out@.len() == 0 <==> forall|j: int| 0 <= j < i + 1 ==> !needs_undo(self.entries@, #[trigger] u.entries@[j]));
            assert forall|x: int, y: int| #[trigger] update_at(out@, x, y).is_some() <==> undo_covers(self.entries@, u.entries@, i + 1, x, y) by {
                if undo_covers(self.entries@, u.entries@, i + 1, x, y) && !undo_covers(self.entries@, u.entries@, i as int, x, y) {
                    assert(needs_undo(self.entries@, e) && e.rect.covers(x, y));
                }
                if undo_covers(self.entries@, u.entries@, i as int, x, y) {
                    let j = choose|j: int| 0 <= j < i && needs_undo(self.entries@, #[trigger] u.entries@[j]) && u.entries@[j].rect.covers(x, y);
                    assert(undo_covers(self.entries@, u.entries@, i + 1, x, y));
                }
                if !skip && e.rect.covers(x, y) {
                    assert(undo_covers(self.entries@, u.entries@, i + 1, x, y));
                }
            }
            i = i + 1;
        }
        assert(u.entries@.take(n as int) =~= u.entries@);
        let ghost before = *self;
        let mut k: usize = 0;
        while k < n
            invariant
                n == u.entries@.len(),
                self.wf(),
                u.wf(),
                k <= n,
                forall|x: int, y: int| #[trigger] self.at(x, y) == applied(before.at(x, y), update_at(u.entries@.take(k as int), x, y)),
            decreases n - k,
        {
            let e = u.entries[k];
            assert(u.entries@.take(k + 1) =~= u.entries@.take(k as int).push(e));
            let ghost s0 = *self;
            assert(u.entries@.take(k + 1).last() == e);
            assert(u.entries@[k as int].rect.wf());
            let v = match e.value {
                ClearOption::Clear => None,
                ClearOption::Style(s) => Some(s),
            };
            self.overwrite(e.rect, v);
            assert forall|x: int, y: int| #[trigger] self.at(x, y) == applied(before.at(x, y), update_at(u.entries@.take(k + 1), x, y)) by {
                lemma_update_at_push(u.entries@.take(k as int), e, x, y);
                assert(s0.at(x, y) == applied(before.at(x, y), update_at(u.entries@.take(k as int), x, y)));
            }
            k = k + 1;
        }
        assert(u.entries@.take(n as int) =~= u.entries@);
        UpdatePlane { entries: out }
    }

    /// Whether applying `u` would change anything that an undo must restore.
    pub fn changed_by(&self, u: &UpdatePlane) -> (r: bool)
        requires
            self.wf(),
        ensures
            r == exists|i: int| 0 <= i < u.entries@.len() && needs_undo(self.entries@, #[trigger] u.entries@[i]),
    {
        let mut i: usize = 0;
        while i < u.entries.len()
            invariant
                self.wf(),
                i <= u.entries@.len(),
                forall|j: int| 0 <= j < i ==> !needs_undo(self.entries@, #[trigger] u.entries@[j]),
            decreases u.entries@.len() - i,
        {
            let e = u.entries[i];
            let hit = match e.value {
                ClearOption::Clear => e.rect.is_nonempty() && self.meets_any(&e.rect),
                ClearOption::Style(_) => true,
            };
            if hit {
                assert(needs_undo(self.entries@, u.entries@[i as int]));
                return true;
            }
            i = i + 1;
        }
        false
    }

    /// Gives every cell of `r` the value `v`; the rest is kept.
    pub fn overwrite(&mut self, r: Rect, v: Option<BorderStyle>)
        requires
            old(self).wf(),
            r.wf(),
        ensures
            final(self).wf(),
            forall|x: int, y: int| #[trigger] final(self).at(x, y) == if r.covers(x, y) { v } else { old(self).at(x, y) },
    {
        let mut kept: Vec<StyledRect> = Vec::new();
        let n = self.entries.len();
        let mut i: usize = 0;
        while i < n
            invariant
                n == self.entries@.len(),
                self.entries@ == old(self).entries@,
                old(self).wf(),
                i <= n,
                forall|j: int| 0 <= j < kept@.len() ==> {
                    &&& (#[trigger] kept@[j]).rect.wf()
                    &&& kept@[j].rect.nonempty()
                },
                forall|x: int, y: int| #[trigger] style_at(kept@, x, y) == if r.covers(x, y) { None } else { style_at(self.entries@.take(i as int), x, y) },
            decreases n - i,
        {
            let e = self.entries[i];
            let a = e.rect;
            assert(old(self).entries@[i as int].rect.nonempty() && old(self).entries@[i as int].rect.wf());
            let ghost k0 = kept@;
            assert(self.entries@.take(i + 1).drop_last() =~= self.entries@.take(i as int));
            assert(self.entries@.take(i + 1).last() == e);
            if !(r.x1 <= r.x2 && r.y1 <= r.y2 && a.x1 <= r.x2 && r.x1 <= a.x2 && a.y1 <= r.y2
                && r.y1 <= a.y2) {
                kept.push(e);
                assert forall|x: int, y: int| #[trigger] style_at(kept@, x, y) == if r.covers(x, y) { None } else { style_at(self.entries@.take(i + 1), x, y) } by {
                    lemma_style_at_push(k0, e, x, y);
                }
            } else {
                // rows of `a` above `r`
                let ghost k1 = kept@;
                if a.y1 < r.y1 {
                    let p = StyledRect { rect: Rect { x1: a.x1, y1: a.y1, x2: a.x2, y2: r.y1 - 1 }, style: e.style };
                    kept.push(p);
                    assert forall|x: int, y: int| #[trigger] style_at(kept@, x, y) == if p.rect.covers(x, y) { Some(e.style) } else { style_at(k1, x, y) } by {
                        lemma_style_at_push(k1, p, x, y);
                    }
                }
                // rows of `a` below `r`
                let ghost k2 = kept@;
                if r.y2 < a.y2 {
                    let p = StyledRect { rect: Rect { x1: a.x1, y1: r.y2 + 1, x2: a.x2, y2: a.y2 }, style: e.style };
                    kept.push(p);
                    assert forall|x: int, y: int| #[trigger] style_at(kept@, x, y) == if p.rect.covers(x, y) { Some(e.style) } else { style_at(k2, x, y) } by {
                        lemma_style_at_push(k2, p, x, y);
                    }
                }
                let my1 = if a.y1 > r.y1 { a.y1 } else { r.y1 };
                let my2 = if a.y2 < r.y2 { a.y2 } else { r.y2 };
                // columns of `a` left of `r`, within the shared rows
                let ghost k3 = kept@;
                if a.x1 < r.x1 {
                    let p = StyledRect { rect: Rect { x1: a.x1, y1: my1, x2: r.x1 - 1, y2: my2 }, style: e.style };
                    kept.push(p);
                    assert forall|x: int, y: int| #[trigger] style_at(kept@, x, y) == if p.rect.covers(x, y) { Some(e.style) } else { style_at(k3, x, y) } by {
                        lemma_style_at_push(k3, p, x, y);
                    }
                }
                // columns of `a` right of `r`, within the shared rows
                let ghost k4 = kept@;
                if r.x2 < a.x2 {
                    let p = StyledRect { rect: Rect { x1: r.x2 + 1, y1: my1, x2: a.x2, y2: my2 }, style: e.style };
                    kept.push(p);
                    assert forall|x: int, y: int| #[trigger] style_at(kept@, x, y) == if p.rect.covers(x, y) { Some(e.style) } else { style_at(k4, x, y) } by {
                        lemma_style_at_push(k4, p, x, y);
                    }
                }
                assert forall|x: int, y: int| #[trigger] style_at(kept@, x, y) == if r.covers(x, y) { None } else { style_at(self.entries@.take(i + 1), x, y) } by {
                    assert(style_at(k0, x, y) == if r.covers(x, y) { None } else { style_at(self.entries@.take(i as int), x, y) });
                }
            }
            i = i + 1;
        }
        assert(self.entries@.take(n as int) =~= self.entries@);
        let ghost k5 = kept@;
        match v {
            Some(s) => {
                let p = StyledRect { rect: r, style: s };
                if r.x1 <= r.x2 && r.y1 <= r.y2 {
                    kept.push(p);
                }
                assert forall|x: int, y: int| #[trigger] style_at(kept@, x, y) == if r.covers(x, y) { v } else { style_at(old(self).entries@, x, y) } by {
                    lemma_style_at_push(k5, p, x, y);
                }
            },
            None => {},
        }
        self.entries = kept;
    }
}

} // verus!
