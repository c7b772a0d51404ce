//! Edges of the clipper, linked by indices into an edge arena.
use vstd::prelude::*;
use crate::clipper_v1::types::{IntPoint, PolyType, EdgeSide, UNASSIGNED};

verus! {

/// An edge of an input polygon. The links (`next`, `prev`, the bound link
/// `next_in_lml`, the active-edge-list links and the sorted-edge-list links)
/// are indices into the edge arena that owns the edge.
#[derive(Debug, Clone, Copy)]
pub struct TEdge {
    /// The bottom point (the larger y).
    pub bot: IntPoint,
    /// The current point, updated per scan beam.
    pub curr: IntPoint,
    /// The top point (the smaller y).
    pub top: IntPoint,
    /// `top - bot`.
    pub delta: IntPoint,
    pub poly_typ: PolyType,
    pub side: EdgeSide,
    pub wind_delta: i32,
    pub wind_cnt: i32,
    pub wind_cnt2: i32,
    /// Index of the output record, or `UNASSIGNED` / `SKIP`.
    pub out_idx: i32,
    pub next: Option<usize>,
    pub prev: Option<usize>,
    pub next_in_lml: Option<usize>,
    pub next_in_ael: Option<usize>,
    pub prev_in_ael: Option<usize>,
    pub next_in_sel: Option<usize>,
    pub prev_in_sel: Option<usize>,
}

/// Integer division rounding towards zero.
pub open spec fn trunc_div(n: int, d: int) -> int {
    let q = (if n >= 0 { n } else { -n }) / (if d >= 0 { d } else { -d });
    if (n >= 0) == (d > 0) || n == 0 {
        q
    } else {
        -q
    }
}

/// The x where edge `e` is at height `y`: an end point's x at either end
/// (the bottom for a horizontal), otherwise the bottom's x moved along the
/// slope `delta.x / delta.y`, the offset truncated towards zero.
pub open spec fn x_at_y(e: TEdge, y: int) -> int {
    if e.top.y == e.bot.y {
        e.bot.x as int
    } else if y == e.top.y {
        e.top.x as int
    } else if y == e.bot.y {
        e.bot.x as int
    } else {
        e.bot.x + trunc_div((y - e.bot.y) * e.delta.x, e.delta.y as int)
    }
}

/// The offset is computable: the edge has a slope, the height difference
/// fits, and so does the result.
pub open spec fn x_at_y_defined(e: TEdge, y: int) -> bool {
    e.top.y != e.bot.y && y != e.top.y && y != e.bot.y ==> {
        &&& e.delta.y != 0
        &&& i64::MIN <= y - e.bot.y <= i64::MAX
        &&& i64::MIN <= x_at_y(e, y) <= i64::MAX
    }
}

impl TEdge {
    /// The values an edge carries apart from its links.
    pub open spec fn same_values(self, other: TEdge) -> bool {
        &&& self.bot == other.bot
        &&& self.curr == other.curr
        &&& self.top == other.top
        &&& self.delta == other.delta
        &&& self.poly_typ == other.poly_typ
        &&& self.side == other.side
        &&& self.wind_delta == other.wind_delta
        &&& self.wind_cnt == other.wind_cnt
        &&& self.wind_cnt2 == other.wind_cnt2
        &&& self.out_idx == other.out_idx
    }

    /// The links of an edge.
    pub open spec fn same_links(self, other: TEdge) -> bool {
        &&& self.next == other.next
        &&& self.prev == other.prev
        &&& self.next_in_lml == other.next_in_lml
        &&& self.next_in_ael == other.next_in_ael
        &&& self.prev_in_ael == other.prev_in_ael
        &&& self.next_in_sel == other.next_in_sel
        &&& self.prev_in_sel == other.prev_in_sel
    }

    /// A fresh edge: all points at the origin, no links, no output index.
    pub fn new() -> (e: Self)
        ensures
            e.bot == (IntPoint { x: 0, y: 0 }),
            e.curr == (IntPoint { x: 0, y: 0 }),
            e.top == (IntPoint { x: 0, y: 0 }),
            e.delta == (IntPoint { x: 0, y: 0 }),
            e.poly_typ == PolyType::Subject,
            e.side == EdgeSide::Left,
            e.wind_delta == 0,
            e.wind_cnt == 0,
            e.wind_cnt2 == 0,
            e.out_idx == UNASSIGNED,
            e.next is None,
            e.prev is None,
            e.next_in_lml is None,
            e.next_in_ael is None,
            e.prev_in_ael is None,
            e.next_in_sel is None,
            e.prev_in_sel is None,
    {
        TEdge {
            bot: IntPoint::new(0, 0),
            curr: IntPoint::new(0, 0),
            top: IntPoint::new(0, 0),
            delta: IntPoint::new(0, 0),
            poly_typ: PolyType::Subject,
            side: EdgeSide::Left,
            wind_delta: 0,
            wind_cnt: 0,
            wind_cnt2: 0,
            out_idx: UNASSIGNED,
            next: None,
            prev: None,
            next_in_lml: None,
            next_in_ael: None,
            prev_in_ael: None,
            next_in_sel: None,
            prev_in_sel: None,
        }
    }

    /// Sets the end points, bottom first in the order of the edge, and the
    /// polygon type; the current point moves to the bottom.
    pub fn init(&mut self, pt_bottom: IntPoint, pt_top: IntPoint, poly_type: PolyType)
        requires
            i64::MIN <= pt_top.x - pt_bottom.x <= i64::MAX,
            i64::MIN <= pt_top.y - pt_bottom.y <= i64::MAX,
            i64::MIN <= pt_bottom.x - pt_top.x <= i64::MAX,
            i64::MIN <= pt_bottom.y - pt_top.y <= i64::MAX,
        ensures
            pt_top.y >= pt_bottom.y ==> final(self).bot == pt_bottom && final(self).top == pt_top,
            pt_top.y < pt_bottom.y ==> final(self).bot == pt_top && final(self).top == pt_bottom,
            final(self).curr == final(self).bot,
            final(self).delta.x == final(self).top.x - final(self).bot.x,
            final(self).delta.y == final(self).top.y - final(self).bot.y,
            final(self).poly_typ == poly_type,
            final(self).side == old(self).side,
            final(self).wind_delta == old(self).wind_delta,
            final(self).wind_cnt == old(self).wind_cnt,
            final(self).wind_cnt2 == old(self).wind_cnt2,
            final(self).out_idx == old(self).out_idx,
            final(self).same_links(*old(self)),
    {
        self.poly_typ = poly_type;
        if pt_top.y >= pt_bottom.y {
            self.bot = pt_bottom;
            self.top = pt_top;
        } else {
            self.bot = pt_top;
            self.top = pt_bottom;
        }
        self.curr = self.bot;
        self.update_delta();
    }

    /// Recomputes `delta` as `top - bot`.
    pub fn update_delta(&mut self)
        requires
            i64::MIN <= old(self).top.x - old(self).bot.x <= i64::MAX,
            i64::MIN <= old(self).top.y - old(self).bot.y <= i64::MAX,
        ensures
            final(self).delta.x == old(self).top.x - old(self).bot.x,
            final(self).delta.y == old(self).top.y - old(self).bot.y,
            final(self).bot == old(self).bot,
            final(self).curr == old(self).curr,
            final(self).top == old(self).top,
            final(self).poly_typ == old(self).poly_typ,
            final(self).side == old(self).side,
            final(self).wind_delta == old(self).wind_delta,
            final(self).wind_cnt == old(self).wind_cnt,
            final(self).wind_cnt2 == old(self).wind_cnt2,
            final(self).out_idx == old(self).out_idx,
            final(self).same_links(*old(self)),
    {
        self.delta.x = self.top.x - self.bot.x;
        self.delta.y = self.top.y - self.bot.y;
    }

    /// True for an edge without vertical extent.
    pub fn is_horizontal(&self) -> (b: bool)
        ensures
            b == (self.delta.y == 0),
    {
        self.delta.y == 0
    }

    /// The x of the edge at height `y` (see `x_at_y`).
    pub fn get_x_at_y(&self, y: i64) -> (r: i64)
        requires
            x_at_y_defined(*self, y as int),
        ensures
            r == x_at_y(*self, y as int),
    {
        if self.top.y == self.bot.y {
            return self.bot.x;
        }
        if y == self.top.y {
            return self.top.x;
        }
        if y == self.bot.y {
            return self.bot.x;
        }
        let dy: i128 = (y as i128) - (self.bot.y as i128);
        let dx: i128 = self.delta.x as i128;
        proof {
            assert(-0x8000_0000_0000_0000 <= dy < 0x8000_0000_0000_0000);
            assert(-0x8000_0000_0000_0000 <= dx < 0x8000_0000_0000_0000);
            assert(-0x4000_0000_0000_0000_0000_0000_0000_0000 <= dy * dx <= 0x4000_0000_0000_0000_0000_0000_0000_0000) by (nonlinear_arith)
                requires
                    -0x8000_0000_0000_0000 <= dy < 0x8000_0000_0000_0000,
                    -0x8000_0000_0000_0000 <= dx < 0x8000_0000_0000_0000;
        }
        let n: i128 = dy * dx;
        let d: i128 = self.delta.y as i128;
        let an: i128 = if n >= 0 { n } else { -n };
        let ad: i128 = if d >= 0 { d } else { -d };
        let q: i128 = an / ad;
        proof {
            assert(0 <= q <= an) by (nonlinear_arith)
                requires
                    an >= 0,
                    ad >= 1,
                    q == an / ad;
        }
        let off: i128 = if (n >= 0) == (d > 0) || n == 0 {
            q
        } else {
            -q
        };
        ((self.bot.x as i128) + off) as i64
    }

    /// Copies every value but the links from `other`.
    pub fn copy_from(&mut self, other: &TEdge)
        ensures
            final(self).same_values(*other),
            final(self).same_links(*old(self)),
    {
        self.bot = other.bot;
        self.curr = other.curr;
        self.top = other.top;
        self.delta = other.delta;
        self.poly_typ = other.poly_typ;
        self.side = other.side;
        self.wind_delta = other.wind_delta;
        self.wind_cnt = other.wind_cnt;
        self.wind_cnt2 = other.wind_cnt2;
        self.out_idx = other.out_idx;
    }
}


impl Default for TEdge {
    /// The same as `new`: an edge at the origin, unlinked and unassigned.
    fn default() -> (e: Self)
        ensures
            e.bot == (IntPoint { x: 0, y: 0 }),
            e.curr == (IntPoint { x: 0, y: 0 }),
            e.top == (IntPoint { x: 0, y: 0 }),
            e.delta == (IntPoint { x: 0, y: 0 }),
            e.poly_typ == PolyType::Subject,
            e.side == EdgeSide::Left,
            e.wind_delta == 0,
            e.wind_cnt == 0,
            e.wind_cnt2 == 0,
            e.out_idx == UNASSIGNED,
            e.next is None,
            e.prev is None,
            e.next_in_lml is None,
            e.next_in_ael is None,
            e.prev_in_ael is None,
            e.next_in_sel is None,
            e.prev_in_sel is None,
    {
        TEdge::new()
    }
}

} // verus!
