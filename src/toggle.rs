use vstd::prelude::*;
use crate::plane::{style_at, update_at, BorderPlane, BorderStyle, ClearOption, StyledRect, UpdatePlane, UpdateRect};
use crate::rect::{Rect, UNBOUNDED};

verus! {

/// Whether an update at one edge is a repeat of what is there: it sets the
/// style that the edge already shows. Untouched edges pass; a clear does not.
pub open spec fn repeats(u: Option<ClearOption>, s: Option<BorderStyle>) -> bool {
    match u {
        None => true,
        Some(ClearOption::Clear) => false,
        Some(ClearOption::Style(st)) => match s {
            Some(t) => t.looks_like(st),
            None => false,
        },
    }
}

/// Every edge that `u` touches over plane `s` is a repeat.
pub open spec fn plane_repeats(s: BorderPlane, u: UpdatePlane) -> bool {
    forall|x: int, y: int| #[trigger] repeats(u.get_at(x, y), s.at(x, y))
}

pub open spec fn has(xs: Seq<i64>, v: int) -> bool {
    exists|k: int| 0 <= k < xs.len() && xs[k] == v
}

/// `xs` holds the near edge of every rectangle of `rs`, and the first column
/// past its far edge where there is one.
pub open spec fn x_breaks(xs: Seq<i64>, rs: Seq<Rect>) -> bool {
    forall|j: int| 0 <= j < rs.len() ==> {
        &&& has(xs, (#[trigger] rs[j]).x1 as int)
        &&& (rs[j].x2 < UNBOUNDED ==> has(xs, rs[j].x2 + 1))
    }
}

pub open spec fn y_breaks(ys: Seq<i64>, rs: Seq<Rect>) -> bool {
    forall|j: int| 0 <= j < rs.len() ==> {
        &&& has(ys, (#[trigger] rs[j]).y1 as int)
        &&& (rs[j].y2 < UNBOUNDED ==> has(ys, rs[j].y2 + 1))
    }
}

/// The largest value of `xs` not above `c`, given that `xs` holds one.
proof fn lemma_floor(xs: Seq<i64>, c: int) -> (k: int)
    requires
        exists|j: int| 0 <= j < xs.len() && xs[j] <= c,
    ensures
        0 <= k < xs.len(),
        xs[k] <= c,
        forall|j: int| 0 <= j < xs.len() && xs[j] <= c ==> xs[j] <= xs[k],
    decreases xs.len(),
{
    let last = xs.len() - 1;
    if exists|j: int| 0 <= j < xs.drop_last().len() && xs.drop_last()[j] <= c {
        let k0 = lemma_floor(xs.drop_last(), c);
        assert forall|j: int| 0 <= j < xs.len() - 1 && xs[j] <= c implies xs[j] <= xs[k0] by {
            assert(xs.drop_last()[j] == xs[j]);
        }
        if xs[last] <= c && xs[last] > xs[k0] {
            last
        } else {
            k0
        }
    } else {
        assert forall|j: int| 0 <= j < xs.len() && xs[j] <= c implies j == last by {
            if j < last {
                assert(xs.drop_last()[j] == xs[j]);
            }
        }
        last
    }
}

proof fn lemma_update_same(s: Seq<UpdateRect>, x: int, y: int, px: int, py: int)
    requires
        forall|j: int| 0 <= j < s.len() ==> ((#[trigger] s[j]).rect.covers(x, y) <==> s[j].rect.covers(px, py)),
    ensures
        update_at(s, x, y) == update_at(s, px, py),
    decreases s.len(),
{
    if s.len() > 0 {
        assert(s[s.len() - 1] == s.last());
        assert forall|j: int| 0 <= j < s.drop_last().len() implies ((#[trigger] s.drop_last()[j]).rect.covers(x, y) <==> s.drop_last()[j].rect.covers(px, py)) by {
            assert(s.drop_last()[j] == s[j]);
        }
        lemma_update_same(s.drop_last(), x, y, px, py);
    }
}

proof fn lemma_style_same(s: Seq<StyledRect>, x: int, y: int, px: int, py: int)
    requires
        forall|j: int| 0 <= j < s.len() ==> ((#[trigger] s[j]).rect.covers(x, y) <==> s[j].rect.covers(px, py)),
    ensures
        style_at(s, x, y) == style_at(s, px, py),
    decreases s.len(),
{
    if s.len() > 0 {
        assert(s[s.len() - 1] == s.last());
        assert forall|j: int| 0 <= j < s.drop_last().len() implies ((#[trigger] s.drop_last()[j]).rect.covers(x, y) <==> s.drop_last()[j].rect.covers(px, py)) by {
            assert(s.drop_last()[j] == s[j]);
        }
        lemma_style_same(s.drop_last(), x, y, px, py);
    }
}

proof fn lemma_untouched(s: Seq<UpdateRect>, x: int, y: int)
    requires
        forall|j: int| 0 <= j < s.len() ==> !(#[trigger] s[j]).rect.covers(x, y),
    ensures
        update_at(s, x, y).is_none(),
    decreases s.len(),
{
    if s.len() > 0 {
        assert(s[s.len() - 1] == s.last());
        assert forall|j: int| 0 <= j < s.drop_last().len() implies !(#[trigger] s.drop_last()[j]).rect.covers(x, y) by {
            assert(s.drop_last()[j] == s[j]);
        }
        lemma_untouched(s.drop_last(), x, y);
    }
}

/// The rectangles of both planes, updates first.
fn all_rects(s: &BorderPlane, u: &UpdatePlane) -> (r: Vec<Rect>)
    ensures
        r@.len() == u.entries@.len() + s.entries@.len(),
        forall|j: int| 0 <= j < u.entries@.len() ==> r@[j] == (#[trigger] u.entries@[j]).rect,
        forall|j: int| 0 <= j < s.entries@.len() ==> r@[u.entries@.len() + j] == (#[trigger] s.entries@[j]).rect,
{
    let mut r: Vec<Rect> = Vec::new();
    let mut i: usize = 0;
    while i < u.entries.len()
        invariant
            i <= u.entries@.len(),
            r@.len() == i,
            forall|j: int| 0 <= j < i ==> r@[j] == (#[trigger] u.entries@[j]).rect,
        decreases u.entries@.len() - i,
    {
        r.push(u.entries[i].rect);
        i = i + 1;
    }
    let mut k: usize = 0;
    while k < s.entries.len()
        invariant
            k <= s.entries@.len(),
            r@.len() == u.entries@.len() + k,
            forall|j: int| 0 <= j < u.entries@.len() ==> r@[j] == (#[trigger] u.entries@[j]).rect,
            forall|j: int| 0 <= j < k ==> r@[u.entries@.len() + j] == (#[trigger] s.entries@[j]).rect,
        decreases s.entries@.len() - k,
    {
        r.push(s.entries[k].rect);
        k = k + 1;
    }
    r
}

/// The columns (`vertical == false`) or rows where some rectangle starts or ends, and 1.
fn breaks(rs: &Vec<Rect>, vertical: bool) -> (xs: Vec<i64>)
    ensures
        has(xs@, 1),
        !vertical ==> x_breaks(xs@, rs@),
        vertical ==> y_breaks(xs@, rs@),
{
    let mut xs: Vec<i64> = Vec::new();
    xs.push(1);
    assert(xs@[0] == 1);
    let mut i: usize = 0;
    while i < rs.len()
        invariant
            i <= rs@.len(),
            has(xs@, 1),
            !vertical ==> x_breaks(xs@, rs@.take(i as int)),
            vertical ==> y_breaks(xs@, rs@.take(i as int)),
        decreases rs@.len() - i,
    {
        let e = rs[i];
        let ghost x0 = xs@;
        let (lo, hi) = if vertical { (e.y1, e.y2) } else { (e.x1, e.x2) };
        xs.push(lo);
        if hi < UNBOUNDED {
            xs.push(hi + 1);
        }
        assert forall|v: int| has(x0, v) implies has(xs@, v) by {
            let k = choose|k: int| 0 <= k < x0.len() && x0[k] == v;
            assert(xs@[k] == x0[k]);
        }
        assert(xs@[x0.len() as int] == lo);
        assert(has(xs@, lo as int));
        if hi < UNBOUNDED {
            assert(xs@[x0.len() as int + 1] == hi + 1);
            assert(has(xs@, hi + 1));
        }
        assert(rs@.take(i + 1) =~= rs@.take(i as int).push(e));
        assert(!vertical ==> x_breaks(xs@, rs@.take(i + 1))) by {
            if !vertical {
                assert forall|j: int| 0 <= j < i + 1 implies {
                    &&& has(xs@, (#[trigger] rs@.take(i + 1)[j]).x1 as int)
                    &&& (rs@.take(i + 1)[j].x2 < UNBOUNDED ==> has(xs@, rs@.take(i + 1)[j].x2 + 1))
                } by {
                    if j < i {
                        assert(rs@.take(i + 1)[j] == rs@.take(i as int)[j]);
                    }
                }
            }
        }
        assert(vertical ==> y_breaks(xs@, rs@.take(i + 1))) by {
            if vertical {
                assert forall|j: int| 0 <= j < i + 1 implies {
                    &&& has(xs@, (#[trigger] rs@.take(i + 1)[j]).y1 as int)
                    &&& (rs@.take(i + 1)[j].y2 < UNBOUNDED ==> has(xs@, rs@.take(i + 1)[j].y2 + 1))
                } by {
                    if j < i {
                        assert(rs@.take(i + 1)[j] == rs@.take(i as int)[j]);
                    }
                }
            }
        }
        i = i + 1;
    }
    assert(rs@.take(rs@.len() as int) =~= rs@);
    xs
}

/// Whether every edge that `u` touches already shows the style it sets.
pub fn plane_is_toggle(s: &BorderPlane, u: &UpdatePlane) -> (r: bool)
    requires
        s.wf(),
        u.wf(),
    ensures
        r == plane_repeats(*s, *u),
{
    let rs = all_rects(s, u);
    let xs = breaks(&rs, false);
    let ys = breaks(&rs, true);
    let mut a: usize = 0;
    while a < xs.len()
        invariant
            a <= xs@.len(),
            forall|i: int, j: int| 0 <= i < a && 0 <= j < ys@.len() ==> repeats(u.get_at(xs@[i] as int, ys@[j] as int), s.at(xs@[i] as int, ys@[j] as int)),
        decreases xs@.len() - a,
    {
        let mut b: usize = 0;
        while b < ys.len()
            invariant
                a < xs@.len(),
                b <= ys@.len(),
                forall|i: int, j: int| 0 <= i < a && 0 <= j < ys@.len() ==> repeats(u.get_at(xs@[i] as int, ys@[j] as int), s.at(xs@[i] as int, ys@[j] as int)),
                forall|j: int| 0 <= j < b ==> repeats(u.get_at(xs@[a as int] as int, ys@[j] as int), s.at(xs@[a as int] as int, ys@[j] as int)),
            decreases ys@.len() - b,
        {
            let px = xs[a];
            let py = ys[b];
            let ok = match u.get(px, py) {
                None => true,
                Some(ClearOption::Clear) => false,
                Some(ClearOption::Style(st)) => match s.get(px, py) {
                    Some(t) => t.same_look(&st),
                    None => false,
                },
            };
            if !ok {
                assert(!repeats(u.get_at(px as int, py as int), s.at(px as int, py as int)));
                return false;
            }
            b = b + 1;
        }
        a = a + 1;
    }
    assert forall|x: int, y: int| #[trigger] repeats(u.get_at(x, y), s.at(x, y)) by {
        if 1 <= x <= UNBOUNDED && 1 <= y <= UNBOUNDED {
            let k1 = choose|k: int| 0 <= k < xs@.len() && xs@[k] == 1;
            let k2 = choose|k: int| 0 <= k < ys@.len() && ys@[k] == 1;
            assert(xs@[k1] <= x && ys@[k2] <= y);
            let i = lemma_floor(xs@, x);
            let j = lemma_floor(ys@, y);
            let px = xs@[i] as int;
            let py = ys@[j] as int;
            assert forall|k: int| 0 <= k < rs@.len() implies ((#[trigger] rs@[k]).covers(x, y) <==> rs@[k].covers(px, py)) by {
                let e = rs@[k];
                assert(has(xs@, e.x1 as int));
                assert(has(ys@, e.y1 as int));
                if e.x2 < UNBOUNDED {
                    assert(has(xs@, e.x2 + 1));
                }
                if e.y2 < UNBOUNDED {
                    assert(has(ys@, e.y2 + 1));
                }
            }
            assert forall|k: int| 0 <= k < u.entries@.len() implies ((#[trigger] u.entries@[k]).rect.covers(x, y) <==> u.entries@[k].rect.covers(px, py)) by {
                assert(rs@[k] == u.entries@[k].rect);
            }
            assert forall|k: int| 0 <= k < s.entries@.len() implies ((#[trigger] s.entries@[k]).rect.covers(x, y) <==> s.entries@[k].rect.covers(px, py)) by {
                assert(rs@[u.entries@.len() + k] == s.entries@[k].rect);
            }
            lemma_update_same(u.entries@, x, y, px, py);
            lemma_style_same(s.entries@, x, y, px, py);
            assert(repeats(u.get_at(px, py), s.at(px, py)));
        } else {
            assert forall|k: int| 0 <= k < u.entries@.len() implies !(#[trigger] u.entries@[k]).rect.covers(x, y) by {
                assert(u.entries@[k].rect.wf());
            }
            lemma_untouched(u.entries@, x, y);
        }
    }
    true
}

} // verus!
