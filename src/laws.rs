use vstd::prelude::*;
use crate::borders::{Borders, BordersUpdates, Direction};
use crate::operations::{
    extended, style_value, batch_view, effective_style, mode_adds, selection_view, seq_at, toggles, ur, BorderSelection,
    RefRangeBounds,
};
use crate::plane::{applied, lemma_update_at_covered, update_at, BorderStyle, ClearOption, UpdateRect};
use crate::rect::{Rect, UNBOUNDED};
use crate::toggle::repeats;

verus! {

/// The cells of a range.
pub open spec fn range_rect(r: RefRangeBounds) -> Rect {
    Rect::spec_new(r.x1, r.y1, r.x2, r.y2)
}

/// A list whose every rectangle carries the same value says that value
/// wherever any of them covers.
proof fn lemma_uniform_covered(s: Seq<UpdateRect>, v: ClearOption, i: int, x: int, y: int)
    requires
        forall|j: int| 0 <= j < s.len() ==> (#[trigger] s[j]).value == v,
        0 <= i < s.len(),
        s[i].rect.covers(x, y),
    ensures
        update_at(s, x, y) == Some(v),
{
    lemma_update_at_covered(s, i, x, y);
    crate::plane::lemma_update_at_value(s, x, y);
}

proof fn lemma_single_view(mode: BorderSelection, style: Option<BorderStyle>, r: RefRangeBounds, cn: bool, d: Direction)
    ensures
        selection_view(mode, style, seq![r], cn, d) == extended(
            None,
            mode_adds(mode, style_value(style), r, cn && style.is_none(), d),
        ),
{
    let rs = seq![r];
    assert(rs.drop_last() =~= Seq::<RefRangeBounds>::empty());
    assert(rs.last() == r);
    assert(selection_view(mode, style, rs.drop_last(), cn, d).is_none());
}

/// A whole-column selection with mode `Right` sets the right edge of its last
/// column, on every row, and nothing else: the other planes stay absent.
pub proof fn lemma_right_on_columns(x1: i64, x2: i64, style: BorderStyle, cn: bool)
    requires
        (RefRangeBounds { x1, y1: 1, x2: Some(x2), y2: None }).wf(),
    ensures
        ({
            let rs = seq![RefRangeBounds { x1, y1: 1, x2: Some(x2), y2: None }];
            &&& selection_view(BorderSelection::Right, Some(style), rs, cn, Direction::Right)
                == Some(seq![ur(x2 as int, 1, Some(x2), None, ClearOption::Style(style))])
            &&& selection_view(BorderSelection::Right, Some(style), rs, cn, Direction::Left).is_none()
            &&& selection_view(BorderSelection::Right, Some(style), rs, cn, Direction::Top).is_none()
            &&& selection_view(BorderSelection::Right, Some(style), rs, cn, Direction::Bottom).is_none()
            &&& forall|x: int, y: int| 1 <= y <= UNBOUNDED ==> #[trigger] seq_at(
                selection_view(BorderSelection::Right, Some(style), rs, cn, Direction::Right), x, y)
                == if x == x2 { Some(ClearOption::Style(style)) } else { None }
        }),
{
    let rs = seq![RefRangeBounds { x1, y1: 1, x2: Some(x2), y2: None }];
    lemma_single_view(BorderSelection::Right, Some(style), rs[0], cn, Direction::Right);
    lemma_single_view(BorderSelection::Right, Some(style), rs[0], cn, Direction::Left);
    lemma_single_view(BorderSelection::Right, Some(style), rs[0], cn, Direction::Top);
    lemma_single_view(BorderSelection::Right, Some(style), rs[0], cn, Direction::Bottom);
    assert(rs =~= seq![rs[0]]);
    let e = ur(x2 as int, 1, Some(x2), None, ClearOption::Style(style));
    assert(mode_adds(BorderSelection::Right, ClearOption::Style(style), rs[0], false, Direction::Right) =~= seq![e]);
    assert(Seq::<UpdateRect>::empty().push(e) =~= seq![e]);
    assert forall|x: int, y: int| 1 <= y <= UNBOUNDED implies #[trigger] seq_at(
        selection_view(BorderSelection::Right, Some(style), rs, cn, Direction::Right), x, y)
        == if x == x2 { Some(ClearOption::Style(style)) } else { None } by {
        crate::plane::lemma_update_at_push(Seq::<UpdateRect>::empty(), e, x, y);
    }
}

/// Mode `Right` on a range with no right bound draws nothing and clears
/// nothing: there is no last column to draw at.
pub proof fn lemma_right_unbounded_is_noop(r: RefRangeBounds, style: Option<BorderStyle>, cn: bool, d: Direction)
    requires
        r.wf(),
        r.x2.is_none(),
    ensures
        selection_view(BorderSelection::Right, style, seq![r], cn, d).is_none(),
{
    lemma_single_view(BorderSelection::Right, style, r, cn, d);
}

/// Clearing a range in mode `All` or `Outer` with neighbour clearing leaves
/// no border on the range's boundary (in mode `All`, on any of its cells),
/// and none on the facing edge of any cell next to it.
pub proof fn lemma_clear_leaves_no_mirror(
    mode: BorderSelection,
    b1: Borders,
    r: RefRangeBounds,
    u: BordersUpdates,
    b2: Borders,
)
    requires
        mode == BorderSelection::All || mode == BorderSelection::Outer,
        r.wf(),
        forall|d: Direction| #[trigger] batch_view(u, d) == selection_view(mode, None, seq![r], true, d),
        b1.becomes(u, b2),
    ensures
        mode == BorderSelection::All ==> forall|d: Direction, x: int, y: int| range_rect(r).covers(x, y) ==> (#[trigger] b2.at(d, x, y)).is_none(),
        forall|y: int| r.y1 <= y <= range_rect(r).y2 ==> (#[trigger] b2.at(Direction::Left, r.x1 as int, y)).is_none(),
        forall|x: int| r.x1 <= x <= range_rect(r).x2 ==> (#[trigger] b2.at(Direction::Top, x, r.y1 as int)).is_none(),
        r.x2.is_some() ==> forall|y: int| r.y1 <= y <= range_rect(r).y2 ==> (#[trigger] b2.at(Direction::Right, r.x2.unwrap() as int, y)).is_none(),
        r.y2.is_some() ==> forall|x: int| r.x1 <= x <= range_rect(r).x2 ==> (#[trigger] b2.at(Direction::Bottom, x, r.y2.unwrap() as int)).is_none(),
        r.x1 > 1 ==> forall|y: int| r.y1 <= y <= range_rect(r).y2 ==> (#[trigger] b2.at(Direction::Right, r.x1 - 1, y)).is_none(),
        r.y1 > 1 ==> forall|x: int| r.x1 <= x <= range_rect(r).x2 ==> (#[trigger] b2.at(Direction::Bottom, x, r.y1 - 1)).is_none(),
        r.x2.is_some() ==> forall|y: int| r.y1 <= y <= range_rect(r).y2 ==> (#[trigger] b2.at(Direction::Left, r.x2.unwrap() + 1, y)).is_none(),
        r.y2.is_some() ==> forall|x: int| r.x1 <= x <= range_rect(r).x2 ==> (#[trigger] b2.at(Direction::Top, x, r.y2.unwrap() + 1)).is_none(),
{
    let rs = seq![r];
    assert forall|d: Direction| #[trigger] mode_adds(mode, ClearOption::Clear, r, true, d).len() > 0
        implies u.plane(d).is_some() && u.plane(d).unwrap().entries@ == mode_adds(mode, ClearOption::Clear, r, true, d) by {
        lemma_single_view(mode, None, r, true, d);
        assert(batch_view(u, d) == selection_view(mode, None, rs, true, d));
    }
    // an edge that entry `j` of the rectangles for plane `d` covers ends up with no border
    assert forall|d: Direction, j: int, x: int, y: int|
        0 <= j < mode_adds(mode, ClearOption::Clear, r, true, d).len() && (#[trigger] mode_adds(mode, ClearOption::Clear, r, true, d)[j]).rect.covers(x, y)
        implies (#[trigger] b2.at(d, x, y)).is_none() by {
        let a = mode_adds(mode, ClearOption::Clear, r, true, d);
        assert(u.plane(d).is_some() && u.plane(d).unwrap().entries@ == a);
        assert forall|k: int| 0 <= k < a.len() implies (#[trigger] a[k]).value == ClearOption::Clear by {}
        lemma_uniform_covered(a, ClearOption::Clear, j, x, y);
        assert(b2.at(d, x, y) == applied(b1.at(d, x, y), u.at(d, x, y)));
    }
    let l = mode_adds(mode, ClearOption::Clear, r, true, Direction::Left);
    let rt = mode_adds(mode, ClearOption::Clear, r, true, Direction::Right);
    let t = mode_adds(mode, ClearOption::Clear, r, true, Direction::Top);
    let bt = mode_adds(mode, ClearOption::Clear, r, true, Direction::Bottom);
    if mode == BorderSelection::All {
        assert forall|d: Direction, x: int, y: int| range_rect(r).covers(x, y) implies (#[trigger] b2.at(d, x, y)).is_none() by {
            assert(mode_adds(mode, ClearOption::Clear, r, true, d)[0].rect == range_rect(r));
        }
    }
    assert forall|y: int| r.y1 <= y <= range_rect(r).y2 implies (#[trigger] b2.at(Direction::Left, r.x1 as int, y)).is_none() by {
        assert(l[0].rect.covers(r.x1 as int, y));
    }
    assert forall|x: int| r.x1 <= x <= range_rect(r).x2 implies (#[trigger] b2.at(Direction::Top, x, r.y1 as int)).is_none() by {
        assert(t[0].rect.covers(x, r.y1 as int));
    }
    if r.x2.is_some() {
        assert forall|y: int| r.y1 <= y <= range_rect(r).y2 implies (#[trigger] b2.at(Direction::Right, r.x2.unwrap() as int, y)).is_none() by {
            assert(rt[0].rect.covers(r.x2.unwrap() as int, y));
        }
        assert forall|y: int| r.y1 <= y <= range_rect(r).y2 implies (#[trigger] b2.at(Direction::Left, r.x2.unwrap() + 1, y)).is_none() by {
            assert(l[l.len() - 1].rect.covers(r.x2.unwrap() + 1, y));
        }
    }
    if r.y2.is_some() {
        assert forall|x: int| r.x1 <= x <= range_rect(r).x2 implies (#[trigger] b2.at(Direction::Bottom, x, r.y2.unwrap() as int)).is_none() by {
            assert(bt[0].rect.covers(x, r.y2.unwrap() as int));
        }
        assert forall|x: int| r.x1 <= x <= range_rect(r).x2 implies (#[trigger] b2.at(Direction::Top, x, r.y2.unwrap() + 1)).is_none() by {
            assert(t[t.len() - 1].rect.covers(x, r.y2.unwrap() + 1));
        }
    }
    if r.x1 > 1 {
        assert forall|y: int| r.y1 <= y <= range_rect(r).y2 implies (#[trigger] b2.at(Direction::Right, r.x1 - 1, y)).is_none() by {
            assert(rt[rt.len() - 1].rect.covers(r.x1 - 1, y));
        }
    }
    if r.y1 > 1 {
        assert forall|x: int| r.x1 <= x <= range_rect(r).x2 implies (#[trigger] b2.at(Direction::Bottom, x, r.y1 - 1)).is_none() by {
            assert(bt[bt.len() - 1].rect.covers(x, r.y1 - 1));
        }
    }
}

proof fn lemma_update_at_cover(s: Seq<UpdateRect>, x: int, y: int)
    requires
        update_at(s, x, y).is_some(),
    ensures
        exists|j: int| 0 <= j < s.len() && (#[trigger] s[j]).rect.covers(x, y),
    decreases s.len(),
{
    if s.last().rect.covers(x, y) {
        assert(s[s.len() - 1].rect.covers(x, y));
    } else {
        lemma_update_at_cover(s.drop_last(), x, y);
        let j = choose|j: int| 0 <= j < s.drop_last().len() && (#[trigger] s.drop_last()[j]).rect.covers(x, y);
        assert(s[j] == s.drop_last()[j]);
    }
}

/// A later list, appended, speaks first.
proof fn lemma_update_at_concat(a: Seq<UpdateRect>, b: Seq<UpdateRect>, x: int, y: int)
    ensures
        update_at(a + b, x, y) == if update_at(b, x, y).is_some() { update_at(b, x, y) } else { update_at(a, x, y) },
    decreases b.len(),
{
    if b.len() > 0 {
        assert((a + b).drop_last() =~= a + b.drop_last());
        assert((a + b).last() == b.last());
        lemma_update_at_concat(a, b.drop_last(), x, y);
    } else {
        assert(a + b =~= a);
    }
}

proof fn lemma_seq_at_extended(p: Option<Seq<UpdateRect>>, adds: Seq<UpdateRect>, x: int, y: int)
    ensures
        seq_at(extended(p, adds), x, y) == if update_at(adds, x, y).is_some() { update_at(adds, x, y) } else { seq_at(p, x, y) },
{
    if adds.len() > 0 {
        match p {
            Some(a) => lemma_update_at_concat(a, adds, x, y),
            None => {},
        }
    }
}

/// Every rectangle that a mode adds carries the requested value, but in
/// `Clear` mode and for the neighbours it clears.
proof fn lemma_adds_values(mode: BorderSelection, v: ClearOption, r: RefRangeBounds, cn: bool, d: Direction, x: int, y: int)
    requires
        mode != BorderSelection::Clear,
        !cn || v == ClearOption::Clear,
        update_at(mode_adds(mode, v, r, cn, d), x, y).is_some(),
    ensures
        update_at(mode_adds(mode, v, r, cn, d), x, y) == Some(v),
{
    let s = mode_adds(mode, v, r, cn, d);
    assert forall|j: int| 0 <= j < s.len() implies (#[trigger] s[j]).value == v by {}
    crate::plane::lemma_update_at_value(s, x, y);
}

proof fn lemma_clear_adds_values(mode: BorderSelection, r: RefRangeBounds, cn: bool, d: Direction, x: int, y: int)
    requires
        update_at(mode_adds(mode, ClearOption::Clear, r, cn, d), x, y).is_some(),
    ensures
        update_at(mode_adds(mode, ClearOption::Clear, r, cn, d), x, y) == Some(ClearOption::Clear),
{
    let s = mode_adds(mode, ClearOption::Clear, r, cn, d);
    assert forall|j: int| 0 <= j < s.len() implies (#[trigger] s[j]).value == ClearOption::Clear by {}
    crate::plane::lemma_update_at_value(s, x, y);
}

/// What a mode sets with a style, the same mode clears without one.
proof fn lemma_adds_cover(mode: BorderSelection, st: BorderStyle, r: RefRangeBounds, cn: bool, d: Direction, x: int, y: int)
    requires
        mode != BorderSelection::Clear,
        update_at(mode_adds(mode, ClearOption::Style(st), r, false, d), x, y).is_some(),
    ensures
        update_at(mode_adds(mode, ClearOption::Clear, r, cn, d), x, y).is_some(),
{
    let a = mode_adds(mode, ClearOption::Style(st), r, false, d);
    let b = mode_adds(mode, ClearOption::Clear, r, cn, d);
    assert(a.len() <= b.len());
    assert forall|j: int| 0 <= j < a.len() implies (#[trigger] a[j]).rect == b[j].rect by {}
    lemma_update_at_cover(a, x, y);
    let j = choose|j: int| 0 <= j < a.len() && (#[trigger] a[j]).rect.covers(x, y);
    lemma_update_at_covered(b, j, x, y);
}

/// A styled request over a selection sets only that style.
proof fn lemma_view_style(mode: BorderSelection, st: BorderStyle, ranges: Seq<RefRangeBounds>, cn: bool, d: Direction, x: int, y: int)
    requires
        mode != BorderSelection::Clear,
        seq_at(selection_view(mode, Some(st), ranges, cn, d), x, y).is_some(),
    ensures
        seq_at(selection_view(mode, Some(st), ranges, cn, d), x, y) == Some(ClearOption::Style(st)),
    decreases ranges.len(),
{
    if ranges.len() > 0 {
        let adds = mode_adds(mode, ClearOption::Style(st), ranges.last(), false, d);
        lemma_seq_at_extended(selection_view(mode, Some(st), ranges.drop_last(), cn, d), adds, x, y);
        if update_at(adds, x, y).is_some() {
            lemma_adds_values(mode, ClearOption::Style(st), ranges.last(), false, d, x, y);
        } else {
            lemma_view_style(mode, st, ranges.drop_last(), cn, d, x, y);
        }
    }
}

/// A request without a style only clears.
proof fn lemma_view_clear(mode: BorderSelection, ranges: Seq<RefRangeBounds>, cn: bool, d: Direction, x: int, y: int)
    requires
        seq_at(selection_view(mode, None, ranges, cn, d), x, y).is_some(),
    ensures
        seq_at(selection_view(mode, None, ranges, cn, d), x, y) == Some(ClearOption::Clear),
    decreases ranges.len(),
{
    if ranges.len() > 0 {
        let adds = mode_adds(mode, ClearOption::Clear, ranges.last(), cn, d);
        lemma_seq_at_extended(selection_view(mode, None, ranges.drop_last(), cn, d), adds, x, y);
        if update_at(adds, x, y).is_some() {
            lemma_clear_adds_values(mode, ranges.last(), cn, d, x, y);
        } else {
            lemma_view_clear(mode, ranges.drop_last(), cn, d, x, y);
        }
    }
}

/// Every edge a styled request touches, the unstyled one touches too.
proof fn lemma_view_cover(mode: BorderSelection, st: BorderStyle, ranges: Seq<RefRangeBounds>, cn1: bool, cn2: bool, d: Direction, x: int, y: int)
    requires
        mode != BorderSelection::Clear,
        seq_at(selection_view(mode, Some(st), ranges, cn1, d), x, y).is_some(),
    ensures
        seq_at(selection_view(mode, None, ranges, cn2, d), x, y).is_some(),
    decreases ranges.len(),
{
    if ranges.len() > 0 {
        let a = mode_adds(mode, ClearOption::Style(st), ranges.last(), false, d);
        let b = mode_adds(mode, ClearOption::Clear, ranges.last(), cn2, d);
        lemma_seq_at_extended(selection_view(mode, Some(st), ranges.drop_last(), cn1, d), a, x, y);
        lemma_seq_at_extended(selection_view(mode, None, ranges.drop_last(), cn2, d), b, x, y);
        if update_at(a, x, y).is_some() {
            lemma_adds_cover(mode, st, ranges.last(), cn2, d, x, y);
        } else {
            lemma_view_cover(mode, st, ranges.drop_last(), cn1, cn2, d, x, y);
        }
    }
}

/// A styled request does not depend on the neighbour flag.
proof fn lemma_view_styled_cn(mode: BorderSelection, st: BorderStyle, ranges: Seq<RefRangeBounds>, cn: bool, d: Direction)
    ensures
        selection_view(mode, Some(st), ranges, cn, d) == selection_view(mode, Some(st), ranges, false, d),
    decreases ranges.len(),
{
    if ranges.len() > 0 {
        lemma_view_styled_cn(mode, st, ranges.drop_last(), cn, d);
    }
}

/// Toggling: once a styled request has been applied, the same request again
/// is a repeat, so it loses its style; and applying it then clears every
/// edge that the first request set.
pub proof fn lemma_toggle_clears(
    mode: BorderSelection,
    st: BorderStyle,
    ranges: Seq<RefRangeBounds>,
    cn: bool,
    b0: Borders,
    u1: BordersUpdates,
    b1: Borders,
    u2: BordersUpdates,
    b2: Borders,
)
    requires
        mode != BorderSelection::Clear,
        forall|d: Direction| #[trigger] batch_view(u1, d) == selection_view(mode, Some(st), ranges, cn, d),
        b0.becomes(u1, b1),
        forall|d: Direction| #[trigger] batch_view(u2, d) == selection_view(mode, None, ranges, cn, d),
        b1.becomes(u2, b2),
    ensures
        toggles(b1, mode, Some(st), ranges),
        effective_style(b1, mode, Some(st), ranges) == None::<BorderStyle>,
        forall|d: Direction, x: int, y: int| (#[trigger] u1.at(d, x, y)).is_some() ==> b2.at(d, x, y).is_none(),
{
    assert forall|d: Direction, x: int, y: int| #[trigger] repeats(seq_at(selection_view(mode, Some(st), ranges, false, d), x, y), b1.at(d, x, y)) by {
        lemma_view_styled_cn(mode, st, ranges, cn, d);
        assert(batch_view(u1, d) == selection_view(mode, Some(st), ranges, cn, d));
        assert(u1.at(d, x, y) == seq_at(selection_view(mode, Some(st), ranges, cn, d), x, y));
        assert(b1.at(d, x, y) == applied(b0.at(d, x, y), u1.at(d, x, y)));
        if u1.at(d, x, y).is_some() {
            lemma_view_style(mode, st, ranges, cn, d, x, y);
        }
    }
    assert forall|d: Direction, x: int, y: int| (#[trigger] u1.at(d, x, y)).is_some() implies b2.at(d, x, y).is_none() by {
        assert(batch_view(u1, d) == selection_view(mode, Some(st), ranges, cn, d));
        assert(batch_view(u2, d) == selection_view(mode, None, ranges, cn, d));
        assert(u1.at(d, x, y) == seq_at(selection_view(mode, Some(st), ranges, cn, d), x, y));
        assert(u2.at(d, x, y) == seq_at(selection_view(mode, None, ranges, cn, d), x, y));
        lemma_view_cover(mode, st, ranges, cn, cn, d, x, y);
        lemma_view_clear(mode, ranges, cn, d, x, y);
        assert(b2.at(d, x, y) == applied(b1.at(d, x, y), u2.at(d, x, y)));
    }
}

} // verus!
