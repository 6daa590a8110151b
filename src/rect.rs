use vstd::prelude::*;

verus! {

/// The largest coordinate; a rectangle whose far edge is here is unbounded.
pub const UNBOUNDED: i64 = 0x7fff_ffff_ffff_ffff;

/// A closed rectangle of cells `[x1, x2] x [y1, y2]`, 1-based.
/// `x2 == UNBOUNDED` (or `y2 == UNBOUNDED`) means it runs to the end of the grid.
#[derive(Clone, Copy, Debug, PartialEq, Eq, Structural)]
pub struct Rect {
    pub x1: i64,
    pub y1: i64,
    pub x2: i64,
    pub y2: i64,
}

impl Rect {
    /// The cell `(x, y)` lies in the rectangle.
    pub open spec fn covers(self, x: int, y: int) -> bool {
        self.x1 <= x <= self.x2 && self.y1 <= y <= self.y2
    }

    /// Starts at a valid grid cell.
    pub open spec fn wf(self) -> bool {
        self.x1 >= 1 && self.y1 >= 1
    }

    pub open spec fn nonempty(self) -> bool {
        self.x1 <= self.x2 && self.y1 <= self.y2
    }

    pub open spec fn meets(self, o: Rect) -> bool {
        self.x1 <= o.x2 && o.x1 <= self.x2 && self.y1 <= o.y2 && o.y1 <= self.y2
    }

    pub open spec fn spec_new(x1: i64, y1: i64, x2: Option<i64>, y2: Option<i64>) -> Rect {
        Rect {
            x1,
            y1,
            x2: match x2 { Some(v) => v, None => UNBOUNDED },
            y2: match y2 { Some(v) => v, None => UNBOUNDED },
        }
    }

    /// The rectangle from `(x1, y1)` to the optional far corner; `None` is unbounded.
    pub fn new(x1: i64, y1: i64, x2: Option<i64>, y2: Option<i64>) -> (r: Rect)
        ensures
            r == Rect::spec_new(x1, y1, x2, y2),
    {
        Rect {
            x1,
            y1,
            x2: match x2 { Some(v) => v, None => UNBOUNDED },
            y2: match y2 { Some(v) => v, None => UNBOUNDED },
        }
    }

    pub fn is_nonempty(&self) -> (r: bool)
        ensures
            r == self.nonempty(),
    {
        self.x1 <= self.x2 && self.y1 <= self.y2
    }

    pub fn contains(&self, x: i64, y: i64) -> (r: bool)
        ensures
            r == self.covers(x as int, y as int),
    {
        self.x1 <= x && x <= self.x2 && self.y1 <= y && y <= self.y2
    }

    /// Whether the two rectangles share a cell.
    pub fn intersects(&self, o: &Rect) -> (r: bool)
        requires
            self.nonempty(),
            o.nonempty(),
        ensures
            r == self.meets(*o),
            r <==> exists|x: int, y: int| self.covers(x, y) && o.covers(x, y),
    {
        let r = self.x1 <= o.x2 && o.x1 <= self.x2 && self.y1 <= o.y2 && o.y1 <= self.y2;
        if r {
            let x = if self.x1 > o.x1 { self.x1 } else { o.x1 };
            let y = if self.y1 > o.y1 { self.y1 } else { o.y1 };
            assert(self.covers(x as int, y as int) && o.covers(x as int, y as int));
        }
        r
    }

    /// The common part of two rectangles (empty when they do not meet).
    pub fn clip(&self, o: &Rect) -> (r: Rect)
        ensures
            forall|x: int, y: int| r.covers(x, y) <==> (self.covers(x, y) && o.covers(x, y)),
            self.wf() || o.wf() ==> r.wf(),
    {
        Rect {
            x1: if self.x1 > o.x1 { self.x1 } else { o.x1 },
            y1: if self.y1 > o.y1 { self.y1 } else { o.y1 },
            x2: if self.x2 < o.x2 { self.x2 } else { o.x2 },
            y2: if self.y2 < o.y2 { self.y2 } else { o.y2 },
        }
    }
}

} // verus!
