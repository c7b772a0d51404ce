//! The state of the clipper base: edge arena, local minima, scan beams,
//! the active edge list and output records.
use vstd::prelude::*;
use crate::clipper_v1::types::{IntPoint, PolyType, EdgeSide, UNASSIGNED, HI_RANGE, LO_RANGE};
use crate::clipper_v1::tedge::TEdge;
use crate::clipper_v1::error::ClipperError;
use crate::internal_clipper::compare_products;

verus! {

/// A local minimum of an input polygon: the y where two bounds start.
#[derive(Debug, Clone, Copy, PartialEq, Eq, Structural)]
pub struct LocalMinima {
    pub y: i64,
    pub left_bound: Option<usize>,
    pub right_bound: Option<usize>,
}

/// A vertex of an output polygon, linked into a ring by arena indices.
#[derive(Debug, Clone, Copy, PartialEq, Eq, Structural)]
pub struct OutPt {
    pub idx: i32,
    pub pt: IntPoint,
    pub next: Option<usize>,
    pub prev: Option<usize>,
}

/// An output polygon record.
#[derive(Debug, Clone, Copy, PartialEq, Eq, Structural)]
pub struct OutRec {
    pub idx: i32,
    pub is_hole: bool,
    pub is_open: bool,
    pub first_left: Option<usize>,
    pub pts: Option<usize>,
    pub bottom_pt: Option<usize>,
    pub poly_node: Option<usize>,
}

/// The record every new output polygon starts from.
pub open spec fn default_out_rec() -> OutRec {
    OutRec {
        idx: UNASSIGNED,
        is_hole: false,
        is_open: false,
        first_left: None,
        pts: None,
        bottom_pt: None,
        poly_node: None,
    }
}

impl Default for OutRec {
    /// An unassigned, closed, non-hole record without points.
    fn default() -> (r: Self)
        ensures
            r == default_out_rec(),
    {
        OutRec {
            idx: UNASSIGNED,
            is_hole: false,
            is_open: false,
            first_left: None,
            pts: None,
            bottom_pt: None,
            poly_node: None,
        }
    }
}

/// The sequence is sorted strictly increasing.
pub open spec fn strictly_increasing(s: Seq<i64>) -> bool {
    forall|i: int, j: int| 0 <= i < j < s.len() ==> s[i] < s[j]
}

/// The local minima are sorted by y, largest first.
pub open spec fn minima_sorted(s: Seq<LocalMinima>) -> bool {
    forall|i: int, j: int| 0 <= i < j < s.len() ==> s[i].y >= s[j].y
}

/// Whether a coordinate is beyond `range` in magnitude.
pub open spec fn beyond(v: int, range: int) -> bool {
    v > range || -v > range
}

/// The range test of the engine, as it evaluates its comparisons in order
/// (`x`, `y`, `-x`, `-y`), never negates `i64::MIN`.
pub open spec fn range_check_defined(pt: IntPoint, range: int) -> bool {
    !(pt.x <= range && pt.y <= range && (pt.x == i64::MIN || (-pt.x <= range && pt.y
        == i64::MIN)))
}

/// The engine's range test is defined for `pt` under `use_full_range`.
pub open spec fn range_test_defined(pt: IntPoint, use_full_range: bool) -> bool {
    &&& range_check_defined(pt, HI_RANGE as int)
    &&& !use_full_range ==> range_check_defined(pt, LO_RANGE as int)
}

/// A point fits the range when no coordinate is beyond it.
pub open spec fn point_beyond(pt: IntPoint, range: int) -> bool {
    beyond(pt.x as int, range) || beyond(pt.y as int, range)
}

/// `pt` lies on the closed segment `l1 -> l2`: it is an end point, or it is
/// strictly inside its bounding box and collinear.
pub open spec fn point_on_line_segment_spec(pt: IntPoint, l1: IntPoint, l2: IntPoint) -> bool {
    ||| pt == l1
    ||| pt == l2
    ||| ((pt.x > l1.x) == (pt.x < l2.x) && (pt.y > l1.y) == (pt.y < l2.y) && (pt.x - l1.x) * (l2.y
        - l1.y) == (l2.x - l1.x) * (pt.y - l1.y))
}

/// `pt` lies on the `k`-th edge of the ring through `start`.
pub open spec fn on_ring_edge(pts: Seq<OutPt>, start: int, k: nat, pt: IntPoint) -> bool {
    point_on_line_segment_spec(
        pt,
        pts[ring_step(pts, start, k)].pt,
        pts[ring_step(pts, start, k + 1)].pt,
    )
}

/// `k` steps along the `next` links of an output-point ring from `start`.
pub open spec fn ring_step(pts: Seq<OutPt>, start: int, k: nat) -> int
    decreases k,
{
    if k == 0 {
        start
    } else {
        let prev = ring_step(pts, start, (k - 1) as nat);
        if 0 <= prev < pts.len() && pts[prev].next is Some {
            pts[prev].next->0 as int
        } else {
            -1
        }
    }
}

/// The ring through `start` closes after exactly `m` steps.
pub open spec fn is_ring(pts: Seq<OutPt>, start: int, m: nat) -> bool {
    &&& m >= 1
    &&& ring_step(pts, start, m) == start
    &&& forall|k: nat| 0 < k < m ==> ring_step(pts, start, k) != start
    &&& forall|k: nat| k < m ==> 0 <= #[trigger] ring_step(pts, start, k) < pts.len() && pts[ring_step(pts, start, k)].next is Some
}

/// The number of vertices of the ring through `start`.
pub open spec fn ring_len(pts: Seq<OutPt>, start: int) -> nat {
    choose|m: nat| is_ring(pts, start, m)
}

/// `start` lies on a closed ring of output points.
pub open spec fn ring_wf(pts: Seq<OutPt>, start: int) -> bool {
    exists|m: nat| is_ring(pts, start, m)
}

proof fn lemma_ring_len_unique(pts: Seq<OutPt>, start: int, m1: nat, m2: nat)
    requires
        is_ring(pts, start, m1),
        is_ring(pts, start, m2),
    ensures
        m1 == m2,
{
    if m1 < m2 {
        assert(ring_step(pts, start, m1) != start);
    } else if m2 < m1 {
        assert(ring_step(pts, start, m2) != start);
    }
}

/// Two edge arenas agree on everything but the active-edge-list links.
pub open spec fn edges_frame(old: Seq<TEdge>, new: Seq<TEdge>) -> bool {
    &&& new.len() == old.len()
    &&& forall|k: int|
        0 <= k < old.len() ==> {
            &&& (#[trigger] new[k]).same_values(old[k])
            &&& new[k].next == old[k].next
            &&& new[k].prev == old[k].prev
            &&& new[k].next_in_lml == old[k].next_in_lml
            &&& new[k].next_in_sel == old[k].next_in_sel
            &&& new[k].prev_in_sel == old[k].prev_in_sel
        }
}

/// The sequence with its elements at `i` and `j` exchanged.
pub open spec fn seq_swap(s: Seq<usize>, i: int, j: int) -> Seq<usize> {
    s.update(i, s[j]).update(j, s[i])
}

/// The active-edge-list links of the edges listed in `a` follow `a`.
pub open spec fn links_match(e: Seq<TEdge>, a: Seq<usize>) -> bool {
    &&& forall|i: int|
        0 <= i < a.len() ==> (#[trigger] e[a[i] as int]).prev_in_ael == if i == 0 {
            None::<usize>
        } else {
            Some(a[i - 1])
        }
    &&& forall|i: int|
        0 <= i < a.len() ==> (#[trigger] e[a[i] as int]).next_in_ael == if i == a.len() - 1 {
            None::<usize>
        } else {
            Some(a[i + 1])
        }
}

/// The sequence has no repeated element.
pub open spec fn distinct(a: Seq<usize>) -> bool {
    forall|i: int, j: int| 0 <= i < j < a.len() ==> a[i] != a[j]
}

/// Every element indexes the arena.
pub open spec fn in_arena(a: Seq<usize>, n: int) -> bool {
    forall|i: int| 0 <= i < a.len() ==> #[trigger] a[i] < n
}

/// The edges at positions other than `i - 1 ..= j + 1` of `a` are unchanged.
pub open spec fn unchanged_outside(old: Seq<TEdge>, new: Seq<TEdge>, a: Seq<usize>, i: int, j: int) -> bool {
    forall|k: int|
        0 <= k < old.len() && (forall|m: int|
            0 <= m < a.len() && (m == i - 1 || m == i || m == i + 1 || m == j - 1 || m == j || m
                == j + 1) ==> a[m] != k) ==> #[trigger] new[k] == old[k]
}

/// Edge `k` is a bound of one of the first `i` local minima.
pub open spec fn is_bound_before(ml: Seq<LocalMinima>, k: int, i: int) -> bool {
    exists|m: int|
        0 <= m < i && ((#[trigger] ml[m]).left_bound == Some(k as usize) || ml[m].right_bound == Some(
            k as usize,
        ))
}

/// Every bound of every local minimum indexes the arena.
pub open spec fn bounds_in_arena(ml: Seq<LocalMinima>, n: int) -> bool {
    forall|m: int|
        0 <= m < ml.len() ==> ((#[trigger] ml[m]).left_bound is Some ==> ml[m].left_bound->0 < n) && (
        ml[m].right_bound is Some ==> ml[m].right_bound->0 < n)
}

/// The edge with its current point back at the bottom and no output index.
pub open spec fn reset_edge(e: TEdge) -> TEdge {
    TEdge { curr: e.bot, out_idx: UNASSIGNED, ..e }
}

/// The base state of a clipper.
pub struct ClipperBase {
    pub preserve_collinear: bool,
    /// Local minima, largest y first.
    pub minima_list: Vec<LocalMinima>,
    /// Position of the next local minimum to process.
    pub current_lm: usize,
    /// The edge arena.
    pub edges: Vec<TEdge>,
    /// Pending scan-beam y values, strictly increasing (the top is last).
    pub scanbeam: Vec<i64>,
    pub poly_outs: Vec<OutRec>,
    /// First edge of the active edge list.
    pub active_edges: Option<usize>,
    pub use_full_range: bool,
    pub has_open_paths: bool,
    /// The active edge list, in order.
    pub ael: Ghost<Seq<usize>>,
}

impl ClipperBase {
    /// The active edge list is the doubly linked list from `active_edges`.
    pub open spec fn ael_wf(&self) -> bool {
        let a = self.ael@;
        let e = self.edges@;
        &&& forall|i: int| 0 <= i < a.len() ==> #[trigger] a[i] < e.len()
        &&& forall|i: int, j: int| 0 <= i < j < a.len() ==> a[i] != a[j]
        &&& self.active_edges == if a.len() == 0 {
            None::<usize>
        } else {
            Some(a[0])
        }
        &&& forall|i: int|
            0 <= i < a.len() ==> (#[trigger] e[a[i] as int]).prev_in_ael == if i == 0 {
                None::<usize>
            } else {
                Some(a[i - 1])
            }
        &&& forall|i: int|
            0 <= i < a.len() ==> (#[trigger] e[a[i] as int]).next_in_ael == if i == a.len() - 1 {
                None::<usize>
            } else {
                Some(a[i + 1])
            }
    }

    /// The invariant of the base state.
    pub open spec fn wf(&self) -> bool {
        &&& strictly_increasing(self.scanbeam@)
        &&& minima_sorted(self.minima_list@)
        &&& self.current_lm <= self.minima_list@.len()
        &&& self.ael_wf()
    }

    /// An empty base.
    pub fn new() -> (r: Self)
        ensures
            r.wf(),
            !r.preserve_collinear,
            r.minima_list@.len() == 0,
            r.current_lm == 0,
            r.edges@.len() == 0,
            r.scanbeam@.len() == 0,
            r.poly_outs@.len() == 0,
            r.active_edges is None,
            r.ael@.len() == 0,
            !r.use_full_range,
            !r.has_open_paths,
    {
        ClipperBase {
            preserve_collinear: false,
            minima_list: Vec::new(),
            current_lm: 0,
            edges: Vec::new(),
            scanbeam: Vec::new(),
            poly_outs: Vec::new(),
            active_edges: None,
            use_full_range: false,
            has_open_paths: false,
            ael: Ghost(Seq::empty()),
        }
    }

    /// Tests `pt` against the coordinate range. Under the low range a point
    /// beyond it switches to the full range; beyond the full range it is an
    /// error. Returns the range in use afterwards.
    pub fn range_test(pt: IntPoint, use_full_range: bool) -> (r: Result<((), bool), ClipperError>)
        requires
            range_test_defined(pt, use_full_range),
        ensures
            (use_full_range || point_beyond(pt, LO_RANGE as int)) ==> if point_beyond(
                pt,
                HI_RANGE as int,
            ) {
                r matches Err(ClipperError::CoordinateOutOfRange)
            } else {
                r == Ok::<((), bool), ClipperError>(((), true))
            },
            (!use_full_range && !point_beyond(pt, LO_RANGE as int)) ==> r == Ok::<
                ((), bool),
                ClipperError,
            >(((), false)),
        decreases (if use_full_range { 0int } else { 1int }),
    {
        let mut use_full = use_full_range;
        if use_full {
            if pt.x > HI_RANGE || pt.y > HI_RANGE || -pt.x > HI_RANGE || -pt.y > HI_RANGE {
                return Err(ClipperError::CoordinateOutOfRange);
            }
        } else if pt.x > LO_RANGE || pt.y > LO_RANGE || -pt.x > LO_RANGE || -pt.y > LO_RANGE {
            use_full = true;
            let inner = Self::range_test(pt, use_full);
            match inner {
                Err(e) => {
                    return Err(e);
                },
                Ok(_) => {},
            }
        }
        Ok(((), use_full))
    }

    /// Adds `y` to the pending scan beams (duplicates are ignored).
    pub fn insert_scanbeam(&mut self, y: i64)
        requires
            strictly_increasing(old(self).scanbeam@),
        ensures
            strictly_increasing(final(self).scanbeam@),
            forall|v: i64|
                final(self).scanbeam@.contains(v) <==> (old(self).scanbeam@.contains(v) || v == y),
            final(self).minima_list == old(self).minima_list,
            final(self).current_lm == old(self).current_lm,
            final(self).edges == old(self).edges,
            final(self).poly_outs == old(self).poly_outs,
            final(self).active_edges == old(self).active_edges,
            final(self).ael == old(self).ael,
            final(self).preserve_collinear == old(self).preserve_collinear,
            final(self).use_full_range == old(self).use_full_range,
            final(self).has_open_paths == old(self).has_open_paths,
    {
        let n = self.scanbeam.len();
        let mut i: usize = 0;
        while i < n && self.scanbeam[i] < y
            invariant
                n == self.scanbeam@.len(),
                i <= n,
                forall|k: int| 0 <= k < i ==> self.scanbeam@[k] < y,
            decreases n - i,
        {
            i += 1;
        }
        if i < n && self.scanbeam[i] == y {
            return;
        }
        let ghost old_sb = self.scanbeam@;
        self.scanbeam.insert(i, y);
        assert forall|v: i64| self.scanbeam@.contains(v) <==> (old_sb.contains(v) || v == y) by {
            if self.scanbeam@.contains(v) {
                let k = choose|k: int| 0 <= k < self.scanbeam@.len() && self.scanbeam@[k] == v;
                if k < i {
                    assert(old_sb[k] == v);
                } else if k > i {
                    assert(old_sb[k - 1] == v);
                }
            }
            if old_sb.contains(v) {
                let k = choose|k: int| 0 <= k < old_sb.len() && old_sb[k] == v;
                if k < i {
                    assert(self.scanbeam@[k] == v);
                } else {
                    assert(self.scanbeam@[k + 1] == v);
                }
            }
            if v == y {
                assert(self.scanbeam@[i as int] == v);
            }
        }
    }

    /// Removes and returns the top (largest) pending scan beam, if any.
    pub fn pop_scanbeam(&mut self) -> (r: Result<Option<i64>, ClipperError>)
        requires
            strictly_increasing(old(self).scanbeam@),
        ensures
            old(self).scanbeam@.len() == 0 ==> r == Ok::<Option<i64>, ClipperError>(None)
                && final(self).scanbeam@ == old(self).scanbeam@,
            old(self).scanbeam@.len() > 0 ==> r == Ok::<Option<i64>, ClipperError>(
                Some(old(self).scanbeam@.last()),
            ) && final(self).scanbeam@ == old(self).scanbeam@.drop_last(),
            strictly_increasing(final(self).scanbeam@),
            final(self).minima_list == old(self).minima_list,
            final(self).current_lm == old(self).current_lm,
            final(self).edges == old(self).edges,
            final(self).poly_outs == old(self).poly_outs,
            final(self).active_edges == old(self).active_edges,
            final(self).ael == old(self).ael,
    {
        match self.scanbeam.pop() {
            None => Ok(None),
            Some(y) => Ok(Some(y)),
        }
    }

    /// True while local minima remain to be processed.
    pub fn local_minima_pending(&self) -> (b: bool)
        ensures
            b == (self.current_lm < self.minima_list@.len()),
    {
        self.current_lm < self.minima_list.len()
    }

    /// Inserts a local minimum after all minima with a larger y.
    pub fn insert_local_minima(&mut self, new_lm: LocalMinima)
        requires
            minima_sorted(old(self).minima_list@),
        ensures
            minima_sorted(final(self).minima_list@),
            exists|k: int|
                0 <= k <= old(self).minima_list@.len() && final(self).minima_list@ == old(self).minima_list@.insert(k, new_lm) && (forall|i: int|
                    0 <= i < k ==> old(self).minima_list@[i].y > new_lm.y) && (forall|i: int|
                    k <= i < old(self).minima_list@.len() ==> old(self).minima_list@[i].y
                        <= new_lm.y),
            final(self).current_lm == old(self).current_lm,
            final(self).edges == old(self).edges,
            final(self).scanbeam == old(self).scanbeam,
            final(self).poly_outs == old(self).poly_outs,
            final(self).active_edges == old(self).active_edges,
            final(self).ael == old(self).ael,
            final(self).preserve_collinear == old(self).preserve_collinear,
            final(self).use_full_range == old(self).use_full_range,
            final(self).has_open_paths == old(self).has_open_paths,
    {
        let n = self.minima_list.len();
        let mut i: usize = 0;
        while i < n && self.minima_list[i].y > new_lm.y
            invariant
                n == self.minima_list@.len(),
                i <= n,
                forall|k: int| 0 <= k < i ==> self.minima_list@[k].y > new_lm.y,
            decreases n - i,
        {
            i += 1;
        }
        let ghost old_ml = self.minima_list@;
        self.minima_list.insert(i, new_lm);
        assert(forall|k: int| i <= k < n ==> old_ml[k].y <= new_lm.y);
    }

    /// Takes the next local minimum when it lies at `y`.
    pub fn pop_local_minima(&mut self, y: i64) -> (r: Option<LocalMinima>)
        requires
            old(self).current_lm <= old(self).minima_list@.len(),
        ensures
            (old(self).current_lm < old(self).minima_list@.len() && old(self).minima_list@[old(self).current_lm as int].y == y) ==> r == Some(
                old(self).minima_list@[old(self).current_lm as int],
            ) && final(self).current_lm == old(self).current_lm + 1,
            !(old(self).current_lm < old(self).minima_list@.len() && old(self).minima_list@[old(self).current_lm as int].y == y) ==> r is None && final(self).current_lm == old(self).current_lm,
            final(self).minima_list == old(self).minima_list,
            final(self).edges == old(self).edges,
            final(self).scanbeam == old(self).scanbeam,
            final(self).poly_outs == old(self).poly_outs,
            final(self).active_edges == old(self).active_edges,
            final(self).ael == old(self).ael,
    {
        if self.current_lm < self.minima_list.len() {
            let lm = self.minima_list[self.current_lm];
            if lm.y == y {
                self.current_lm = self.current_lm + 1;
                return Some(lm);
            }
        }
        None
    }

    /// Drops all local minima.
    pub fn dispose_local_minima_list(&mut self)
        ensures
            final(self).minima_list@.len() == 0,
            final(self).current_lm == 0,
            final(self).preserve_collinear == old(self).preserve_collinear,
            final(self).use_full_range == old(self).use_full_range,
            final(self).has_open_paths == old(self).has_open_paths,
            final(self).edges == old(self).edges,
            final(self).scanbeam == old(self).scanbeam,
            final(self).poly_outs == old(self).poly_outs,
            final(self).active_edges == old(self).active_edges,
            final(self).ael == old(self).ael,
    {
        self.minima_list.clear();
        self.current_lm = 0;
    }

    /// Appends a fresh output record numbered with its position in the
    /// output list, and returns a copy of it.
    pub fn create_out_rec(&mut self) -> (r: OutRec)
        requires
            old(self).poly_outs@.len() < i32::MAX,
        ensures
            r == (OutRec { idx: old(self).poly_outs@.len() as i32, ..default_out_rec() }),
            final(self).poly_outs@ == old(self).poly_outs@.push(r),
            final(self).minima_list == old(self).minima_list,
            final(self).current_lm == old(self).current_lm,
            final(self).edges == old(self).edges,
            final(self).scanbeam == old(self).scanbeam,
            final(self).active_edges == old(self).active_edges,
            final(self).ael == old(self).ael,
    {
        let mut result = OutRec::default();
        result.idx = self.poly_outs.len() as i32;
        self.poly_outs.push(result);
        result
    }

    /// Resets the output record at `index` to a fresh record.
    pub fn dispose_out_rec(&mut self, index: usize)
        requires
            index < old(self).poly_outs@.len(),
        ensures
            final(self).poly_outs@ == old(self).poly_outs@.update(index as int, default_out_rec()),
            final(self).minima_list == old(self).minima_list,
            final(self).current_lm == old(self).current_lm,
            final(self).edges == old(self).edges,
            final(self).scanbeam == old(self).scanbeam,
            final(self).active_edges == old(self).active_edges,
            final(self).ael == old(self).ael,
    {
        self.poly_outs.set(index, OutRec::default());
    }

    /// True when `pt` lies on the segment `line_pt1 -> line_pt2` (see
    /// `point_on_line_segment_spec`); both ranges decide exactly.
    pub fn point_on_line_segment(
        &self,
        pt: &IntPoint,
        line_pt1: &IntPoint,
        line_pt2: &IntPoint,
        use_full_range: bool,
    ) -> (r: bool)
        ensures
            r == point_on_line_segment_spec(*pt, *line_pt1, *line_pt2),
    {
        if *pt == *line_pt1 || *pt == *line_pt2 {
            return true;
        }
        if (pt.x > line_pt1.x) == (pt.x < line_pt2.x) && (pt.y > line_pt1.y) == (pt.y
            < line_pt2.y) {
            let a: i128 = (pt.x as i128) - (line_pt1.x as i128);
            let b: i128 = (line_pt2.y as i128) - (line_pt1.y as i128);
            let c: i128 = (line_pt2.x as i128) - (line_pt1.x as i128);
            let d: i128 = (pt.y as i128) - (line_pt1.y as i128);
            compare_products(a, b, c, d) == 0
        } else {
            false
        }
    }


    /// True when `pt` is a vertex of the output-point ring through `pp`.
    pub fn point_is_vertex(&self, pt: &IntPoint, pts: &Vec<OutPt>, pp: usize) -> (r: bool)
        requires
            ring_wf(pts@, pp as int),
        ensures
            r == exists|k: nat|
                k < ring_len(pts@, pp as int) && pts@[ring_step(pts@, pp as int, k)].pt == *pt,
    {
        let ghost m = ring_len(pts@, pp as int);
        proof {
            let m0 = choose|m0: nat| is_ring(pts@, pp as int, m0);
            lemma_ring_len_unique(pts@, pp as int, m0, m);
        }
        let mut cur: usize = pp;
        let ghost mut k: nat = 0;
        loop
            invariant
                is_ring(pts@, pp as int, m),
                m == ring_len(pts@, pp as int),
                k < m,
                cur == ring_step(pts@, pp as int, k),
                forall|i: nat| i < k ==> pts@[ring_step(pts@, pp as int, i)].pt != *pt,
            decreases m - k,
        {
            if pts[cur].pt == *pt {
                return true;
            }
            let nx = pts[cur].next.unwrap();
            proof {
                assert(ring_step(pts@, pp as int, k + 1) == nx);
                k = k + 1;
            }
            cur = nx;
            if cur == pp {
                assert(k == m);
                return false;
            }
        }
    }

    /// True when `pt` lies on an edge of the output-point ring through `pp`.
    pub fn point_on_polygon(&self, pt: &IntPoint, pts: &Vec<OutPt>, pp: usize, use_full_range: bool) -> (r:
        bool)
        requires
            ring_wf(pts@, pp as int),
        ensures
            r == exists|k: nat|
                k < ring_len(pts@, pp as int) && #[trigger] on_ring_edge(pts@, pp as int, k, *pt),
    {
        let ghost m = ring_len(pts@, pp as int);
        proof {
            let m0 = choose|m0: nat| is_ring(pts@, pp as int, m0);
            lemma_ring_len_unique(pts@, pp as int, m0, m);
        }
        let mut cur: usize = pp;
        let ghost mut k: nat = 0;
        loop
            invariant
                is_ring(pts@, pp as int, m),
                m == ring_len(pts@, pp as int),
                k < m,
                cur == ring_step(pts@, pp as int, k),
                forall|i: nat| i < k ==> !#[trigger] on_ring_edge(pts@, pp as int, i, *pt),
            decreases m - k,
        {
            let nx = pts[cur].next.unwrap();
            proof {
                assert(ring_step(pts@, pp as int, k + 1) == nx);
                if k + 1 < m {
                    assert(0 <= ring_step(pts@, pp as int, (k + 1) as nat) < pts@.len());
                } else {
                    assert(0 <= ring_step(pts@, pp as int, 0) < pts@.len());
                }
            }
            if self.point_on_line_segment(pt, &pts[cur].pt, &pts[nx].pt, use_full_range) {
                assert(on_ring_edge(pts@, pp as int, k, *pt));
                return true;
            }
            proof {
                k = k + 1;
            }
            cur = nx;
            if cur == pp {
                assert(k == m);
                return false;
            }
        }
    }


    fn set_next_in_ael(&mut self, i: usize, v: Option<usize>)
        requires
            i < old(self).edges@.len(),
        ensures
            final(self).edges@ == old(self).edges@.update(
                i as int,
                TEdge { next_in_ael: v, ..old(self).edges@[i as int] },
            ),
            final(self).active_edges == old(self).active_edges,
            final(self).ael == old(self).ael,
            final(self).scanbeam == old(self).scanbeam,
            final(self).minima_list == old(self).minima_list,
            final(self).current_lm == old(self).current_lm,
            final(self).poly_outs == old(self).poly_outs,
            final(self).preserve_collinear == old(self).preserve_collinear,
            final(self).use_full_range == old(self).use_full_range,
            final(self).has_open_paths == old(self).has_open_paths,
    {
        let mut x = self.edges[i];
        x.next_in_ael = v;
        self.edges.set(i, x);
    }

    fn set_prev_in_ael(&mut self, i: usize, v: Option<usize>)
        requires
            i < old(self).edges@.len(),
        ensures
            final(self).edges@ == old(self).edges@.update(
                i as int,
                TEdge { prev_in_ael: v, ..old(self).edges@[i as int] },
            ),
            final(self).active_edges == old(self).active_edges,
            final(self).ael == old(self).ael,
            final(self).scanbeam == old(self).scanbeam,
            final(self).minima_list == old(self).minima_list,
            final(self).current_lm == old(self).current_lm,
            final(self).poly_outs == old(self).poly_outs,
            final(self).preserve_collinear == old(self).preserve_collinear,
            final(self).use_full_range == old(self).use_full_range,
            final(self).has_open_paths == old(self).has_open_paths,
    {
        let mut x = self.edges[i];
        x.prev_in_ael = v;
        self.edges.set(i, x);
    }


    fn set_next_of(&mut self, i: Option<usize>, v: Option<usize>)
        requires
            i is Some ==> i->0 < old(self).edges@.len(),
        ensures
            final(self).edges@ == (match i {
                Some(k) => old(self).edges@.update(
                    k as int,
                    TEdge { next_in_ael: v, ..old(self).edges@[k as int] },
                ),
                None => old(self).edges@,
            }),
            final(self).active_edges == old(self).active_edges,
            final(self).ael == old(self).ael,
            final(self).scanbeam == old(self).scanbeam,
            final(self).minima_list == old(self).minima_list,
            final(self).current_lm == old(self).current_lm,
            final(self).poly_outs == old(self).poly_outs,
            final(self).preserve_collinear == old(self).preserve_collinear,
            final(self).use_full_range == old(self).use_full_range,
            final(self).has_open_paths == old(self).has_open_paths,
    {
        match i {
            Some(k) => self.set_next_in_ael(k, v),
            None => {},
        }
    }

    fn set_prev_of(&mut self, i: Option<usize>, v: Option<usize>)
        requires
            i is Some ==> i->0 < old(self).edges@.len(),
        ensures
            final(self).edges@ == (match i {
                Some(k) => old(self).edges@.update(
                    k as int,
                    TEdge { prev_in_ael: v, ..old(self).edges@[k as int] },
                ),
                None => old(self).edges@,
            }),
            final(self).active_edges == old(self).active_edges,
            final(self).ael == old(self).ael,
            final(self).scanbeam == old(self).scanbeam,
            final(self).minima_list == old(self).minima_list,
            final(self).current_lm == old(self).current_lm,
            final(self).poly_outs == old(self).poly_outs,
            final(self).preserve_collinear == old(self).preserve_collinear,
            final(self).use_full_range == old(self).use_full_range,
            final(self).has_open_paths == old(self).has_open_paths,
    {
        match i {
            Some(k) => self.set_prev_in_ael(k, v),
            None => {},
        }
    }

    /// Removes edge `e` from the active edge list; an edge already out of
    /// the list (both links empty) is left alone. The engine requires a
    /// non-empty list in that case.
    #[verifier::rlimit(40)]
    #[verifier::spinoff_prover]
    pub fn delete_from_ael(&mut self, e: usize)
        requires
            old(self).wf(),
            e < old(self).edges@.len(),
            old(self).ael@.contains(e) || (old(self).edges@[e as int].prev_in_ael is None && old(self).edges@[e as int].next_in_ael is None && old(self).active_edges is Some),
        ensures
            final(self).wf(),
            edges_frame(old(self).edges@, final(self).edges@),
            old(self).ael@.contains(e) ==> final(self).ael@ == old(self).ael@.remove(
                old(self).ael@.index_of(e),
            ),
            !old(self).ael@.contains(e) ==> final(self).ael@ == old(self).ael@ && final(self).edges@
                == old(self).edges@,
            final(self).edges@[e as int].prev_in_ael is None,
            final(self).edges@[e as int].next_in_ael is None,
            forall|k: int|
                0 <= k < old(self).edges@.len() && !old(self).ael@.contains(k as usize) && k != e
                    ==> #[trigger] final(self).edges@[k] == old(self).edges@[k],
            final(self).scanbeam == old(self).scanbeam,
            final(self).minima_list == old(self).minima_list,
            final(self).current_lm == old(self).current_lm,
            final(self).poly_outs == old(self).poly_outs,
            final(self).preserve_collinear == old(self).preserve_collinear,
            final(self).use_full_range == old(self).use_full_range,
            final(self).has_open_paths == old(self).has_open_paths,
    {
        let ghost a = self.ael@;
        let ghost old_edges = self.edges@;
        let ed = self.edges[e];
        let ael_prev = ed.prev_in_ael;
        let ael_next = ed.next_in_ael;
        if ael_prev.is_none() && ael_next.is_none() && Some(e) != self.active_edges {
            proof {
                if a.contains(e) {
                    let i = a.index_of(e);
                    assert(a[i] == e);
                    assert(a.len() == 1);
                }
            }
            return;
        }
        proof {
            if !a.contains(e) {
                assert(self.active_edges == Some(e));
                assert(a[0] == e);
            }
        }
        let ghost i = a.index_of(e);
        assert(a[i] == e);
        match ael_prev {
            Some(p) => {
                self.set_next_in_ael(p, ael_next);
            },
            None => {
                self.active_edges = ael_next;
            },
        }
        match ael_next {
            Some(n) => {
                self.set_prev_in_ael(n, ael_prev);
            },
            None => {},
        }
        self.set_next_in_ael(e, None);
        self.set_prev_in_ael(e, None);
        proof {
            let na = a.remove(i);
            self.ael = Ghost(na);
            assert forall|k: int| 0 <= k < na.len() implies (#[trigger] self.edges@[na[k] as int]).prev_in_ael == if k == 0 {
                None::<usize>
            } else {
                Some(na[k - 1])
            } by {
                if k < i {
                    assert(na[k] == a[k]);
                } else {
                    assert(na[k] == a[k + 1]);
                }
            }
            assert forall|k: int| 0 <= k < na.len() implies (#[trigger] self.edges@[na[k] as int]).next_in_ael == if k == na.len() - 1 {
                None::<usize>
            } else {
                Some(na[k + 1])
            } by {
                if k < i {
                    assert(na[k] == a[k]);
                } else {
                    assert(na[k] == a[k + 1]);
                }
            }
            assert forall|k: int| 0 <= k < old_edges.len() && !a.contains(k as usize) && k != e implies #[trigger] self.edges@[k] == old_edges[k] by {
                if i > 0 {
                    assert(a[i - 1] != k);
                }
                if i < a.len() - 1 {
                    assert(a[i + 1] != k);
                }
            }
        }
    }



    /// Exchanges the neighbouring list members `a[i]` and `a[i + 1]`.
    fn swap_adjacent(&mut self, first: usize, second: usize, Ghost(a): Ghost<Seq<usize>>, Ghost(i): Ghost<int>)
        requires
            0 <= i && i + 1 < a.len(),
            a[i] == first,
            a[i + 1] == second,
            distinct(a),
            in_arena(a, old(self).edges@.len() as int),
            links_match(old(self).edges@, a),
        ensures
            links_match(final(self).edges@, seq_swap(a, i, i + 1)),
            edges_frame(old(self).edges@, final(self).edges@),
            unchanged_outside(old(self).edges@, final(self).edges@, a, i, i + 1),
            final(self).active_edges == old(self).active_edges,
            final(self).ael == old(self).ael,
            final(self).scanbeam == old(self).scanbeam,
            final(self).minima_list == old(self).minima_list,
            final(self).current_lm == old(self).current_lm,
            final(self).poly_outs == old(self).poly_outs,
            final(self).preserve_collinear == old(self).preserve_collinear,
            final(self).use_full_range == old(self).use_full_range,
            final(self).has_open_paths == old(self).has_open_paths,
    {
        let ghost old_edges = self.edges@;
        let next = self.edges[second].next_in_ael;
        match next {
            Some(n) => {
                self.set_prev_in_ael(n, Some(first));
            },
            None => {},
        }
        let prev = self.edges[first].prev_in_ael;
        match prev {
            Some(p) => {
                self.set_next_in_ael(p, Some(second));
            },
            None => {},
        }
        self.set_prev_in_ael(second, prev);
        self.set_next_in_ael(second, Some(first));
        self.set_prev_in_ael(first, Some(second));
        self.set_next_in_ael(first, next);
        proof {
            let na = seq_swap(a, i, i + 1);
            assert forall|k: int| 0 <= k < na.len() implies (#[trigger] self.edges@[na[k] as int]).prev_in_ael == if k == 0 {
                None::<usize>
            } else {
                Some(na[k - 1])
            } by {
                if k > 0 {
                    assert(old_edges[a[k] as int].prev_in_ael == Some(a[k - 1]));
                }
            }
            assert forall|k: int| 0 <= k < na.len() implies (#[trigger] self.edges@[na[k] as int]).next_in_ael == if k == na.len() - 1 {
                None::<usize>
            } else {
                Some(na[k + 1])
            } by {
                if k < na.len() - 1 {
                    assert(old_edges[a[k] as int].next_in_ael == Some(a[k + 1]));
                }
            }
        }
    }

    /// Exchanges the list members `a[i]` and `a[j]`, which are not neighbours.
    /// Links edge `x` between `p` and `n` (either may be absent).
    fn relink_into(&mut self, x: usize, p: Option<usize>, n: Option<usize>)
        requires
            x < old(self).edges@.len(),
            p is Some ==> p->0 < old(self).edges@.len() && p->0 != x,
            n is Some ==> n->0 < old(self).edges@.len() && n->0 != x,
            p is Some && n is Some ==> p->0 != n->0,
        ensures
            final(self).edges@.len() == old(self).edges@.len(),
            forall|k: int|
                0 <= k < old(self).edges@.len() ==> #[trigger] final(self).edges@[k] == if k == x {
                    TEdge { prev_in_ael: p, next_in_ael: n, ..old(self).edges@[k] }
                } else if (p is Some && p->0 == k) {
                    TEdge { next_in_ael: Some(x), ..old(self).edges@[k] }
                } else if (n is Some && n->0 == k) {
                    TEdge { prev_in_ael: Some(x), ..old(self).edges@[k] }
                } else {
                    old(self).edges@[k]
                },
            final(self).active_edges == old(self).active_edges,
            final(self).ael == old(self).ael,
            final(self).scanbeam == old(self).scanbeam,
            final(self).minima_list == old(self).minima_list,
            final(self).current_lm == old(self).current_lm,
            final(self).poly_outs == old(self).poly_outs,
            final(self).preserve_collinear == old(self).preserve_collinear,
            final(self).use_full_range == old(self).use_full_range,
            final(self).has_open_paths == old(self).has_open_paths,
    {
        let ghost e0 = self.edges@;
        self.set_next_in_ael(x, n);
        let ghost e1 = self.edges@;
        self.set_prev_of(n, Some(x));
        let ghost e2 = self.edges@;
        self.set_prev_in_ael(x, p);
        let ghost e3 = self.edges@;
        self.set_next_of(p, Some(x));
        proof {
            let e4 = self.edges@;
            assert forall|k: int| 0 <= k < e0.len() implies #[trigger] e4[k] == if k == x {
                TEdge { prev_in_ael: p, next_in_ael: n, ..e0[k] }
            } else if (p is Some && p->0 == k) {
                TEdge { next_in_ael: Some(x), ..e0[k] }
            } else if (n is Some && n->0 == k) {
                TEdge { prev_in_ael: Some(x), ..e0[k] }
            } else {
                e0[k]
            } by {
                if k == x {
                    assert(e1[k] == TEdge { next_in_ael: n, ..e0[k] });
                    assert(e2[k] == e1[k]);
                    assert(e3[k] == TEdge { prev_in_ael: p, ..e2[k] });
                    assert(e4[k] == e3[k]);
                } else if (p is Some && p->0 == k) {
                    assert(e1[k] == e0[k]);
                    assert(e2[k] == e1[k]);
                    assert(e3[k] == e2[k]);
                    assert(e4[k] == TEdge { next_in_ael: Some(x), ..e3[k] });
                } else if (n is Some && n->0 == k) {
                    assert(e1[k] == e0[k]);
                    assert(e2[k] == TEdge { prev_in_ael: Some(x), ..e1[k] });
                    assert(e3[k] == e2[k]);
                    assert(e4[k] == e3[k]);
                } else {
                    assert(e1[k] == e0[k]);
                    assert(e2[k] == e1[k]);
                    assert(e3[k] == e2[k]);
                    assert(e4[k] == e3[k]);
                }
            }
        }
    }

    /// Exchanges the list members `a[i]` and `a[j]`, which are not neighbours.
    #[verifier::rlimit(60)]
    #[verifier::spinoff_prover]
    fn swap_apart(&mut self, edge1: usize, edge2: usize, Ghost(a): Ghost<Seq<usize>>, Ghost(i): Ghost<int>, Ghost(j): Ghost<int>)
        requires
            0 <= i < a.len(),
            0 <= j < a.len(),
            i + 1 < j || j + 1 < i,
            a[i] == edge1,
            a[j] == edge2,
            distinct(a),
            in_arena(a, old(self).edges@.len() as int),
            links_match(old(self).edges@, a),
        ensures
            links_match(final(self).edges@, seq_swap(a, i, j)),
            edges_frame(old(self).edges@, final(self).edges@),
            unchanged_outside(old(self).edges@, final(self).edges@, a, i, j),
            final(self).active_edges == old(self).active_edges,
            final(self).ael == old(self).ael,
            final(self).scanbeam == old(self).scanbeam,
            final(self).minima_list == old(self).minima_list,
            final(self).current_lm == old(self).current_lm,
            final(self).poly_outs == old(self).poly_outs,
            final(self).preserve_collinear == old(self).preserve_collinear,
            final(self).use_full_range == old(self).use_full_range,
            final(self).has_open_paths == old(self).has_open_paths,
    {
        let ghost old_edges = self.edges@;
        let next1 = self.edges[edge1].next_in_ael;
        let prev1 = self.edges[edge1].prev_in_ael;
        let next2 = self.edges[edge2].next_in_ael;
        let prev2 = self.edges[edge2].prev_in_ael;
        proof {
            assert(i > 0 ==> prev1 == Some(a[i - 1]));
            assert(i == 0 ==> prev1 is None);
            assert(i < a.len() - 1 ==> next1 == Some(a[i + 1]));
            assert(i == a.len() - 1 ==> next1 is None);
            assert(j > 0 ==> prev2 == Some(a[j - 1]));
            assert(j == 0 ==> prev2 is None);
            assert(j < a.len() - 1 ==> next2 == Some(a[j + 1]));
            assert(j == a.len() - 1 ==> next2 is None);
            if j > 0 && j < a.len() - 1 { assert(a[j - 1] != a[j + 1]); }
            if i > 0 && i < a.len() - 1 { assert(a[i - 1] != a[i + 1]); }
        }
        self.relink_into(edge1, prev2, next2);
        let ghost mid = self.edges@;
        self.relink_into(edge2, prev1, next1);
        proof {
            let na = seq_swap(a, i, j);
            let ne = self.edges@;
            assert forall|k: int| 0 <= k < na.len() implies (#[trigger] ne[na[k] as int]).prev_in_ael == if k == 0 {
                None::<usize>
            } else {
                Some(na[k - 1])
            } && ne[na[k] as int].next_in_ael == if k == na.len() - 1 {
                None::<usize>
            } else {
                Some(na[k + 1])
            } by {
                let x = na[k] as int;
                assert(mid[x] == old_edges[x] || x == edge1 || (prev2 is Some && prev2->0 == x) || (next2 is Some && next2->0 == x));
                if k != i && k != j {
                    assert(a[k] != edge1 && a[k] != edge2);
                    if k > 0 { assert(old_edges[a[k] as int].prev_in_ael == Some(a[k - 1])); }
                    if k < a.len() - 1 { assert(old_edges[a[k] as int].next_in_ael == Some(a[k + 1])); }
                }
            }
            assert forall|k: int| 0 <= k < old_edges.len() implies {
                &&& (#[trigger] ne[k]).same_values(old_edges[k])
                &&& ne[k].next == old_edges[k].next
                &&& ne[k].prev == old_edges[k].prev
                &&& ne[k].next_in_lml == old_edges[k].next_in_lml
                &&& ne[k].next_in_sel == old_edges[k].next_in_sel
                &&& ne[k].prev_in_sel == old_edges[k].prev_in_sel
            } by {
                assert(mid[k] == ne[k] || true);
            }
            assert forall|k: int|
                0 <= k < old_edges.len() && (forall|m: int|
                    0 <= m < a.len() && (m == i - 1 || m == i || m == i + 1 || m == j - 1 || m == j || m
                        == j + 1) ==> a[m] != k) implies #[trigger] ne[k] == old_edges[k] by {
                if (prev1 is Some && prev1->0 == k) { assert(a[i - 1] == k); }
                if (next1 is Some && next1->0 == k) { assert(a[i + 1] == k); }
                if (prev2 is Some && prev2->0 == k) { assert(a[j - 1] == k); }
                if (next2 is Some && next2->0 == k) { assert(a[j + 1] == k); }
                assert(a[i] != k && a[j] != k);
            }
        }
    }

    /// Exchanges the positions of two edges in the active edge list; when
    /// either edge is not in the list together with another one (its two
    /// list links are equal), or the two are one edge, nothing changes.
    pub fn swap_positions_in_ael(&mut self, edge1: usize, edge2: usize)
        requires
            old(self).ael_wf(),
            edge1 < old(self).edges@.len(),
            edge2 < old(self).edges@.len(),
            old(self).ael@.contains(edge1) || old(self).edges@[edge1 as int].prev_in_ael
                == old(self).edges@[edge1 as int].next_in_ael,
            old(self).ael@.contains(edge2) || old(self).edges@[edge2 as int].prev_in_ael
                == old(self).edges@[edge2 as int].next_in_ael,
        ensures
            final(self).ael_wf(),
            old(self).wf() ==> final(self).wf(),
            edges_frame(old(self).edges@, final(self).edges@),
            (old(self).ael@.contains(edge1) && old(self).ael@.contains(edge2)) ==> final(self).ael@
                == seq_swap(
                old(self).ael@,
                old(self).ael@.index_of(edge1),
                old(self).ael@.index_of(edge2),
            ),
            !(old(self).ael@.contains(edge1) && old(self).ael@.contains(edge2)) ==> final(self).ael@
                == old(self).ael@ && final(self).edges@ == old(self).edges@
                && final(self).active_edges == old(self).active_edges,
            forall|k: int|
                0 <= k < old(self).edges@.len() && !old(self).ael@.contains(k as usize)
                    ==> #[trigger] final(self).edges@[k] == old(self).edges@[k],
            final(self).scanbeam == old(self).scanbeam,
            final(self).minima_list == old(self).minima_list,
            final(self).current_lm == old(self).current_lm,
            final(self).poly_outs == old(self).poly_outs,
            final(self).preserve_collinear == old(self).preserve_collinear,
            final(self).use_full_range == old(self).use_full_range,
            final(self).has_open_paths == old(self).has_open_paths,
    {
        let ghost a = self.ael@;
        let ghost old_edges = self.edges@;
        let e1 = self.edges[edge1];
        let e2 = self.edges[edge2];
        if edge1 == edge2 {
            proof {
                if a.contains(edge1) {
                    let i1 = a.index_of(edge1);
                    assert(seq_swap(a, i1, i1) =~= a);
                }
            }
            return;
        }
        if e1.next_in_ael == e1.prev_in_ael || e2.next_in_ael == e2.prev_in_ael {
            proof {
                if a.contains(edge1) && a.contains(edge2) {
                    let i1 = a.index_of(edge1);
                    let i2 = a.index_of(edge2);
                    assert(a[i1] == edge1 && a[i2] == edge2);
                    assert(a.len() >= 2);
                    if e1.next_in_ael == e1.prev_in_ael {
                        if i1 > 0 && i1 < a.len() - 1 {
                            assert(a[i1 - 1] != a[i1 + 1]);
                        }
                    } else {
                        if i2 > 0 && i2 < a.len() - 1 {
                            assert(a[i2 - 1] != a[i2 + 1]);
                        }
                    }
                }
            }
            return;
        }
        proof {
            if !a.contains(edge1) {
                assert(false);
            }
            if !a.contains(edge2) {
                assert(false);
            }
        }
        let ghost i1 = a.index_of(edge1);
        let ghost i2 = a.index_of(edge2);
        assert(a[i1] == edge1 && a[i2] == edge2);
        let ghost na = seq_swap(a, i1, i2);
        if e1.next_in_ael == Some(edge2) {
            assert(i2 == i1 + 1);
            self.swap_adjacent(edge1, edge2, Ghost(a), Ghost(i1));
        } else if e2.next_in_ael == Some(edge1) {
            assert(i1 == i2 + 1);
            self.swap_adjacent(edge2, edge1, Ghost(a), Ghost(i2));
            assert(seq_swap(a, i2, i2 + 1) =~= na);
        } else {
            proof {
                if i2 == i1 + 1 {
                    assert(e1.next_in_ael == Some(a[i1 + 1]));
                }
                if i1 == i2 + 1 {
                    assert(e2.next_in_ael == Some(a[i2 + 1]));
                }
            }
            self.swap_apart(edge1, edge2, Ghost(a), Ghost(i1), Ghost(i2));
        }
        let ghost mid_edges = self.edges@;
        assert(links_match(mid_edges, na));
        if self.edges[edge1].prev_in_ael.is_none() {
            self.active_edges = Some(edge1);
        } else if self.edges[edge2].prev_in_ael.is_none() {
            self.active_edges = Some(edge2);
        }
        proof {
            self.ael = Ghost(na);
            assert forall|x: int, y: int| 0 <= x < y < na.len() implies na[x] != na[y] by {
                assert(a[x] != a[y]);
            }
            assert(in_arena(na, old_edges.len() as int));
            assert(mid_edges[na[i1] as int].prev_in_ael == if i1 == 0 { None::<usize> } else { Some(na[i1 - 1]) });
            assert(mid_edges[na[i2] as int].prev_in_ael == if i2 == 0 { None::<usize> } else { Some(na[i2 - 1]) });
            if i1 > 0 && i2 > 0 {
                assert(na[0] == a[0]);
            }
            assert forall|k: int| 0 <= k < old_edges.len() && !a.contains(k as usize) implies #[trigger] self.edges@[k] == old_edges[k] by {
                assert forall|m: int| 0 <= m < a.len() implies a[m] != k by {
                    if a[m] == k {
                        assert(a.contains(k as usize));
                    }
                }
            }
        }
    }


    /// Replaces edge `*e` in the active edge list by the next edge of its
    /// bound, which inherits the output index, side and winding counts and
    /// starts at its bottom; the new edge's top joins the scan beams unless
    /// it is horizontal. Without a next edge the call is an error and
    /// nothing changes.
    pub fn update_edge_into_ael(&mut self, e: &mut usize) -> (r: Result<(), ClipperError>)
        requires
            old(self).wf(),
            *old(e) < old(self).edges@.len(),
            old(self).ael@.contains(*old(e)),
            old(self).edges@[*old(e) as int].next_in_lml is Some ==> ({
                let n = old(self).edges@[*old(e) as int].next_in_lml->0;
                n < old(self).edges@.len() && !old(self).ael@.contains(n)
            }),
        ensures
            final(self).wf(),
            ({
                let old_e = old(self).edges@[*old(e) as int];
                match old_e.next_in_lml {
                    None => {
                        &&& r matches Err(ClipperError::OperationFailure(m)) && m@
                            == "UpdateEdgeIntoAEL: invalid call"@
                        &&& *final(e) == *old(e)
                        &&& final(self).edges@ == old(self).edges@
                        &&& final(self).ael@ == old(self).ael@
                        &&& final(self).scanbeam@ == old(self).scanbeam@
                    },
                    Some(n) => {
                        let old_n = old(self).edges@[n as int];
                        let i = old(self).ael@.index_of(*old(e));
                        &&& r is Ok
                        &&& *final(e) == n
                        &&& final(self).ael@ == old(self).ael@.update(i, n)
                        &&& final(self).edges@[n as int] == (TEdge {
                            out_idx: old_e.out_idx,
                            side: old_e.side,
                            wind_delta: old_e.wind_delta,
                            wind_cnt: old_e.wind_cnt,
                            wind_cnt2: old_e.wind_cnt2,
                            curr: old_n.bot,
                            prev_in_ael: old_e.prev_in_ael,
                            next_in_ael: old_e.next_in_ael,
                            ..old_n
                        })
                        &&& forall|k: int|
                            0 <= k < old(self).edges@.len() && k != n ==> (#[trigger] final(self).edges@[k]).same_values(old(self).edges@[k])
                        &&& forall|k: int|
                            0 <= k < old(self).edges@.len() && k != n && !old(self).ael@.contains(
                                k as usize,
                            ) ==> #[trigger] final(self).edges@[k] == old(self).edges@[k]
                        &&& old_n.delta.y != 0 ==> forall|v: i64|
                            final(self).scanbeam@.contains(v) <==> (old(self).scanbeam@.contains(v)
                                || v == old_n.top.y)
                        &&& old_n.delta.y == 0 ==> final(self).scanbeam@ == old(self).scanbeam@
                    },
                }
            }),
            final(self).edges@.len() == old(self).edges@.len(),
            final(self).minima_list == old(self).minima_list,
            final(self).current_lm == old(self).current_lm,
            final(self).poly_outs == old(self).poly_outs,
            final(self).preserve_collinear == old(self).preserve_collinear,
            final(self).use_full_range == old(self).use_full_range,
            final(self).has_open_paths == old(self).has_open_paths,
    {
        let ghost a = self.ael@;
        let ghost old_edges = self.edges@;
        let cur = *e;
        let ed = self.edges[cur];
        match ed.next_in_lml {
            None => {
                return Err(ClipperError::OperationFailure("UpdateEdgeIntoAEL: invalid call".to_string()));
            },
            Some(n) => {
                let ghost i = a.index_of(cur);
                assert(a[i] == cur);
                let ael_prev = ed.prev_in_ael;
                let ael_next = ed.next_in_ael;
                let mut ne = self.edges[n];
                ne.out_idx = ed.out_idx;
                proof {
                    if i > 0 {
                        assert(a[i - 1] != n);
                    }
                    if i < a.len() - 1 {
                        assert(a[i + 1] != n);
                    }
                }
                match ael_prev {
                    Some(p) => {
                        self.set_next_in_ael(p, Some(n));
                    },
                    None => {
                        self.active_edges = Some(n);
                    },
                }
                self.set_prev_of(ael_next, Some(n));
                ne.side = ed.side;
                ne.wind_delta = ed.wind_delta;
                ne.wind_cnt = ed.wind_cnt;
                ne.wind_cnt2 = ed.wind_cnt2;
                *e = n;
                ne.curr = ne.bot;
                ne.prev_in_ael = ael_prev;
                ne.next_in_ael = ael_next;
                self.edges.set(n, ne);
                proof {
                    let na = a.update(i, n);
                    self.ael = Ghost(na);
                    let ee = self.edges@;
                    assert forall|k: int| 0 <= k < na.len() implies (#[trigger] ee[na[k] as int]).prev_in_ael == if k == 0 {
                        None::<usize>
                    } else {
                        Some(na[k - 1])
                    } && ee[na[k] as int].next_in_ael == if k == na.len() - 1 {
                        None::<usize>
                    } else {
                        Some(na[k + 1])
                    } by {
                        if k != i {
                            assert(a[k] != n && a[k] != cur);
                            if k > 0 {
                                assert(old_edges[a[k] as int].prev_in_ael == Some(a[k - 1]));
                            }
                            if k < a.len() - 1 {
                                assert(old_edges[a[k] as int].next_in_ael == Some(a[k + 1]));
                            }
                        }
                    }
                    assert forall|x: int, y: int| 0 <= x < y < na.len() implies na[x] != na[y] by {
                        if x != i && y != i {
                            assert(a[x] != a[y]);
                        }
                    }
                    assert forall|k: int|
                        0 <= k < old_edges.len() && k != n && !a.contains(k as usize) implies #[trigger] ee[k] == old_edges[k] by {
                        if i > 0 {
                            assert(a[i - 1] != k);
                        }
                        if i < a.len() - 1 {
                            assert(a[i + 1] != k);
                        }
                    }
                }
                if ne.delta.y != 0 {
                    self.insert_scanbeam(ne.top.y);
                }
                Ok(())
            },
        }
    }

    /// Restarts the sweep: the local minima are pending again from the
    /// first; when there are any, the scan beams become exactly their y
    /// values, their bounds return to their bottoms without output index,
    /// and the active edge list empties.
    pub fn reset(&mut self)
        requires
            old(self).wf(),
            bounds_in_arena(old(self).minima_list@, old(self).edges@.len() as int),
        ensures
            final(self).wf(),
            final(self).current_lm == 0,
            final(self).minima_list == old(self).minima_list,
            final(self).poly_outs == old(self).poly_outs,
            old(self).minima_list@.len() == 0 ==> final(self).edges@ == old(self).edges@
                && final(self).scanbeam@ == old(self).scanbeam@ && final(self).ael@ == old(self).ael@ && final(self).active_edges == old(self).active_edges,
            old(self).minima_list@.len() > 0 ==> {
                &&& final(self).active_edges is None
                &&& final(self).ael@.len() == 0
                &&& forall|v: i64|
                    final(self).scanbeam@.contains(v) <==> exists|m: int|
                        0 <= m < old(self).minima_list@.len() && (#[trigger] old(self).minima_list@[m]).y == v
                &&& final(self).edges@.len() == old(self).edges@.len()
                &&& forall|k: int|
                    0 <= k < old(self).edges@.len() ==> #[trigger] final(self).edges@[k] == if is_bound_before(
                        old(self).minima_list@,
                        k,
                        old(self).minima_list@.len() as int,
                    ) {
                        reset_edge(old(self).edges@[k])
                    } else {
                        old(self).edges@[k]
                    }
            },
    {
        self.current_lm = 0;
        let n = self.minima_list.len();
        if n == 0 {
            return;
        }
        let ghost old_edges = self.edges@;
        let ghost ml = self.minima_list@;
        self.scanbeam = Vec::new();
        let mut i: usize = 0;
        while i < n
            invariant
                n == self.minima_list@.len(),
                ml == self.minima_list@,
                self.minima_list == old(self).minima_list,
                self.poly_outs == old(self).poly_outs,
                i <= n,
                self.current_lm == 0,
                strictly_increasing(self.scanbeam@),
                minima_sorted(ml),
                bounds_in_arena(ml, old_edges.len() as int),
                self.edges@.len() == old_edges.len(),
                forall|v: i64|
                    self.scanbeam@.contains(v) <==> exists|m: int| 0 <= m < i && (#[trigger] ml[m]).y == v,
                forall|k: int|
                    0 <= k < old_edges.len() ==> #[trigger] self.edges@[k] == if is_bound_before(ml, k, i as int) {
                        reset_edge(old_edges[k])
                    } else {
                        old_edges[k]
                    },
            decreases n - i,
        {
            let lm = self.minima_list[i];
            self.insert_scanbeam(lm.y);
            let ghost before = self.edges@;
            match lm.left_bound {
                Some(b) => {
                    let mut x = self.edges[b];
                    x.curr = x.bot;
                    x.out_idx = UNASSIGNED;
                    self.edges.set(b, x);
                },
                None => {},
            }
            let ghost mid = self.edges@;
            match lm.right_bound {
                Some(b) => {
                    let mut x = self.edges[b];
                    x.curr = x.bot;
                    x.out_idx = UNASSIGNED;
                    self.edges.set(b, x);
                },
                None => {},
            }
            proof {
                assert(ml[i as int] == lm);
                assert forall|k: int| 0 <= k < old_edges.len() implies #[trigger] self.edges@[k] == if is_bound_before(ml, k, i + 1) {
                    reset_edge(old_edges[k])
                } else {
                    old_edges[k]
                } by {
                    assert(k < self.edges.len());
                    let ku = k as usize;
                    assert(ku as int == k);
                    let hit = lm.left_bound == Some(ku) || lm.right_bound == Some(ku);
                    if hit {
                        assert(is_bound_before(ml, k, i + 1));
                        if lm.left_bound == Some(ku) {
                            assert(mid[k] == reset_edge(before[k]));
                        } else {
                            assert(mid[k] == before[k]);
                        }
                        if lm.right_bound == Some(ku) {
                            assert(self.edges@[k] == reset_edge(mid[k]));
                        } else {
                            assert(self.edges@[k] == mid[k]);
                        }
                        assert(reset_edge(reset_edge(old_edges[k])) == reset_edge(old_edges[k]));
                        assert(self.edges@[k] == reset_edge(old_edges[k]));
                    } else {
                        assert(self.edges@[k] == before[k]);
                        if is_bound_before(ml, k, i + 1) {
                            let m = choose|m: int|
                                0 <= m < i + 1 && ((#[trigger] ml[m]).left_bound == Some(k as usize) || ml[m].right_bound == Some(k as usize));
                            assert(m != i);
                            assert(is_bound_before(ml, k, i as int));
                        } else {
                            if is_bound_before(ml, k, i as int) {
                                let m = choose|m: int|
                                    0 <= m < i && ((#[trigger] ml[m]).left_bound == Some(k as usize) || ml[m].right_bound == Some(k as usize));
                                assert(0 <= m < i + 1);
                            }
                        }
                    }
                }
                assert forall|v: i64|
                    self.scanbeam@.contains(v) implies exists|m: int| 0 <= m < i + 1 && (#[trigger] ml[m]).y == v by {
                    if v == lm.y {
                        assert(ml[i as int].y == v);
                    }
                }
                assert forall|v: i64|
                    (exists|m: int| 0 <= m < i + 1 && (#[trigger] ml[m]).y == v) implies self.scanbeam@.contains(v) by {
                    let m = choose|m: int| 0 <= m < i + 1 && (#[trigger] ml[m]).y == v;
                    if m < i {
                        assert(exists|m: int| 0 <= m < i && (#[trigger] ml[m]).y == v);
                    }
                }
            }
            i += 1;
        }
        self.active_edges = None;
        proof {
            self.ael = Ghost(Seq::empty());
        }
    }

    /// Drops all local minima and edges and returns to the low range with no
    /// open paths. The active edge list is left as it was.
    pub fn clear(&mut self)
        requires
            old(self).wf(),
        ensures
            old(self).ael@.len() == 0 ==> final(self).wf(),
            final(self).minima_list@.len() == 0,
            final(self).current_lm == 0,
            final(self).edges@.len() == 0,
            !final(self).use_full_range,
            !final(self).has_open_paths,
            final(self).scanbeam == old(self).scanbeam,
            final(self).poly_outs == old(self).poly_outs,
            final(self).active_edges == old(self).active_edges,
            final(self).ael == old(self).ael,
            final(self).preserve_collinear == old(self).preserve_collinear,
    {
        self.dispose_local_minima_list();
        self.edges.clear();
        self.use_full_range = false;
        self.has_open_paths = false;
    }

    /// Links edge `e` between `e_prev` and `e_next` of its polygon, at
    /// vertex `pt`, without output index.
    pub fn init_edge(&mut self, e: usize, e_next: usize, e_prev: usize, pt: IntPoint)
        requires
            old(self).wf(),
            e < old(self).edges@.len(),
        ensures
            final(self).wf(),
            final(self).edges@ == old(self).edges@.update(
                e as int,
                TEdge {
                    next: Some(e_next),
                    prev: Some(e_prev),
                    curr: pt,
                    out_idx: UNASSIGNED,
                    ..old(self).edges@[e as int]
                },
            ),
            final(self).ael == old(self).ael,
            final(self).active_edges == old(self).active_edges,
            final(self).scanbeam == old(self).scanbeam,
            final(self).minima_list == old(self).minima_list,
            final(self).current_lm == old(self).current_lm,
            final(self).poly_outs == old(self).poly_outs,
            final(self).preserve_collinear == old(self).preserve_collinear,
            final(self).use_full_range == old(self).use_full_range,
            final(self).has_open_paths == old(self).has_open_paths,
    {
        let mut x = self.edges[e];
        x.next = Some(e_next);
        x.prev = Some(e_prev);
        x.curr = pt;
        x.out_idx = UNASSIGNED;
        self.edges.set(e, x);
        proof {
            let a = self.ael@;
            assert forall|k: int| 0 <= k < a.len() implies (#[trigger] self.edges@[a[k] as int]).prev_in_ael
                == old(self).edges@[a[k] as int].prev_in_ael && self.edges@[a[k] as int].next_in_ael
                == old(self).edges@[a[k] as int].next_in_ael by {}
        }
    }

    /// Orders the end points of edge `e` (its current point and the next
    /// edge's) bottom first, recomputes its delta and sets its polygon type.
    pub fn init_edge2(&mut self, e: usize, poly_type: PolyType)
        requires
            old(self).wf(),
            e < old(self).edges@.len(),
            old(self).edges@[e as int].next is Some,
            old(self).edges@[e as int].next->0 < old(self).edges@.len(),
            ({
                let c = old(self).edges@[e as int].curr;
                let d = old(self).edges@[old(self).edges@[e as int].next->0 as int].curr;
                i64::MIN <= c.x - d.x <= i64::MAX && i64::MIN <= c.y - d.y <= i64::MAX
                    && i64::MIN <= d.x - c.x <= i64::MAX && i64::MIN <= d.y - c.y <= i64::MAX
            }),
        ensures
            final(self).wf(),
            ({
                let old_e = old(self).edges@[e as int];
                let c = old_e.curr;
                let d = old(self).edges@[old_e.next->0 as int].curr;
                let bot = if c.y >= d.y { c } else { d };
                let top = if c.y >= d.y { d } else { c };
                final(self).edges@ == old(self).edges@.update(
                    e as int,
                    TEdge {
                        bot: bot,
                        top: top,
                        delta: IntPoint { x: (top.x - bot.x) as i64, y: (top.y - bot.y) as i64 },
                        poly_typ: poly_type,
                        ..old_e
                    },
                )
            }),
            final(self).ael == old(self).ael,
            final(self).active_edges == old(self).active_edges,
            final(self).scanbeam == old(self).scanbeam,
            final(self).minima_list == old(self).minima_list,
            final(self).current_lm == old(self).current_lm,
            final(self).poly_outs == old(self).poly_outs,
            final(self).preserve_collinear == old(self).preserve_collinear,
            final(self).use_full_range == old(self).use_full_range,
            final(self).has_open_paths == old(self).has_open_paths,
    {
        let mut x = self.edges[e];
        let nc = self.edges[x.next.unwrap()].curr;
        if x.curr.y >= nc.y {
            x.bot = x.curr;
            x.top = nc;
        } else {
            x.top = x.curr;
            x.bot = nc;
        }
        x.delta = IntPoint::new(x.top.x - x.bot.x, x.top.y - x.bot.y);
        x.poly_typ = poly_type;
        self.edges.set(e, x);
        proof {
            let a = self.ael@;
            assert forall|k: int| 0 <= k < a.len() implies (#[trigger] self.edges@[a[k] as int]).prev_in_ael
                == old(self).edges@[a[k] as int].prev_in_ael && self.edges@[a[k] as int].next_in_ael
                == old(self).edges@[a[k] as int].next_in_ael by {}
        }
    }

    /// Recomputes the delta (`top - bot`) of edge `e`.
    pub fn set_dx(&mut self, e: usize)
        requires
            old(self).wf(),
            e < old(self).edges@.len(),
            i64::MIN <= old(self).edges@[e as int].top.x - old(self).edges@[e as int].bot.x <= i64::MAX,
            i64::MIN <= old(self).edges@[e as int].top.y - old(self).edges@[e as int].bot.y <= i64::MAX,
        ensures
            final(self).wf(),
            final(self).edges@ == old(self).edges@.update(
                e as int,
                TEdge {
                    delta: IntPoint {
                        x: (old(self).edges@[e as int].top.x - old(self).edges@[e as int].bot.x) as i64,
                        y: (old(self).edges@[e as int].top.y - old(self).edges@[e as int].bot.y) as i64,
                    },
                    ..old(self).edges@[e as int]
                },
            ),
            final(self).ael == old(self).ael,
            final(self).active_edges == old(self).active_edges,
            final(self).scanbeam == old(self).scanbeam,
            final(self).minima_list == old(self).minima_list,
            final(self).current_lm == old(self).current_lm,
            final(self).poly_outs == old(self).poly_outs,
            final(self).preserve_collinear == old(self).preserve_collinear,
            final(self).use_full_range == old(self).use_full_range,
            final(self).has_open_paths == old(self).has_open_paths,
    {
        let mut x = self.edges[e];
        x.delta = IntPoint::new(x.top.x - x.bot.x, x.top.y - x.bot.y);
        self.edges.set(e, x);
        proof {
            let a = self.ael@;
            assert forall|k: int| 0 <= k < a.len() implies (#[trigger] self.edges@[a[k] as int]).prev_in_ael
                == old(self).edges@[a[k] as int].prev_in_ael && self.edges@[a[k] as int].next_in_ael
                == old(self).edges@[a[k] as int].next_in_ael by {}
        }
    }

    /// Swaps the top and bottom x of edge `e`, so that a horizontal edge
    /// follows the progression of its bound.
    pub fn reverse_horizontal(&mut self, e: usize)
        requires
            old(self).wf(),
            e < old(self).edges@.len(),
        ensures
            final(self).wf(),
            ({
                let old_e = old(self).edges@[e as int];
                final(self).edges@ == old(self).edges@.update(
                    e as int,
                    TEdge {
                        top: IntPoint { x: old_e.bot.x, ..old_e.top },
                        bot: IntPoint { x: old_e.top.x, ..old_e.bot },
                        ..old_e
                    },
                )
            }),
            final(self).ael == old(self).ael,
            final(self).active_edges == old(self).active_edges,
            final(self).scanbeam == old(self).scanbeam,
            final(self).minima_list == old(self).minima_list,
            final(self).current_lm == old(self).current_lm,
            final(self).poly_outs == old(self).poly_outs,
            final(self).preserve_collinear == old(self).preserve_collinear,
            final(self).use_full_range == old(self).use_full_range,
            final(self).has_open_paths == old(self).has_open_paths,
    {
        let mut x = self.edges[e];
        let t = x.top.x;
        x.top.x = x.bot.x;
        x.bot.x = t;
        self.edges.set(e, x);
        proof {
            let a = self.ael@;
            assert forall|k: int| 0 <= k < a.len() implies (#[trigger] self.edges@[a[k] as int]).prev_in_ael
                == old(self).edges@[a[k] as int].prev_in_ael && self.edges@[a[k] as int].next_in_ael
                == old(self).edges@[a[k] as int].next_in_ael by {}
        }
    }

    /// Unlinks edge `e` from its polygon ring, marks it removed (no `prev`)
    /// and returns the edge that followed it.
    pub fn remove_edge(&mut self, e: usize) -> (r: usize)
        requires
            old(self).wf(),
            e < old(self).edges@.len(),
            old(self).edges@[e as int].prev is Some,
            old(self).edges@[e as int].next is Some,
            old(self).edges@[e as int].prev->0 < old(self).edges@.len(),
            old(self).edges@[e as int].next->0 < old(self).edges@.len(),
        ensures
            final(self).wf(),
            ({
                let p = old(self).edges@[e as int].prev->0;
                let n = old(self).edges@[e as int].next->0;
                let s1 = old(self).edges@.update(n as int, TEdge { prev: Some(p), ..old(self).edges@[n as int] });
                let s2 = s1.update(p as int, TEdge { next: Some(n), ..s1[p as int] });
                &&& r == n
                &&& final(self).edges@ == s2.update(e as int, TEdge { prev: None, ..s2[e as int] })
            }),
            final(self).ael == old(self).ael,
            final(self).active_edges == old(self).active_edges,
            final(self).scanbeam == old(self).scanbeam,
            final(self).minima_list == old(self).minima_list,
            final(self).current_lm == old(self).current_lm,
            final(self).poly_outs == old(self).poly_outs,
            final(self).preserve_collinear == old(self).preserve_collinear,
            final(self).use_full_range == old(self).use_full_range,
            final(self).has_open_paths == old(self).has_open_paths,
    {
        let p = self.edges[e].prev.unwrap();
        let n = self.edges[e].next.unwrap();
        let mut xn = self.edges[n];
        xn.prev = Some(p);
        self.edges.set(n, xn);
        let mut xp = self.edges[p];
        xp.next = Some(n);
        self.edges.set(p, xp);
        let mut xe = self.edges[e];
        xe.prev = None;
        self.edges.set(e, xe);
        proof {
            let a = self.ael@;
            assert forall|k: int| 0 <= k < a.len() implies (#[trigger] self.edges@[a[k] as int]).prev_in_ael
                == old(self).edges@[a[k] as int].prev_in_ael && self.edges@[a[k] as int].next_in_ael
                == old(self).edges@[a[k] as int].next_in_ael by {}
        }
        n
    }

    /// True when `pt2` lies on the line through `pt1` and `pt3`, decided
    /// exactly.
    pub fn slopes_equal_points(pt1: IntPoint, pt2: IntPoint, pt3: IntPoint, use_full_range: bool) -> (r:
        bool)
        ensures
            r == ((pt1.y - pt2.y) * (pt2.x - pt3.x) == (pt1.x - pt2.x) * (pt2.y - pt3.y)),
    {
        let a: i128 = (pt1.y as i128) - (pt2.y as i128);
        let b: i128 = (pt2.x as i128) - (pt3.x as i128);
        let c: i128 = (pt1.x as i128) - (pt2.x as i128);
        let d: i128 = (pt2.y as i128) - (pt3.y as i128);
        compare_products(a, b, c, d) == 0
    }

    /// True when `pt1 -> pt2` and `pt3 -> pt4` are parallel, decided exactly.
    pub fn slopes_equal_points4(
        pt1: IntPoint,
        pt2: IntPoint,
        pt3: IntPoint,
        pt4: IntPoint,
        use_full_range: bool,
    ) -> (r: bool)
        ensures
            r == ((pt1.y - pt2.y) * (pt3.x - pt4.x) == (pt1.x - pt2.x) * (pt3.y - pt4.y)),
    {
        let a: i128 = (pt1.y as i128) - (pt2.y as i128);
        let b: i128 = (pt3.x as i128) - (pt4.x as i128);
        let c: i128 = (pt1.x as i128) - (pt2.x as i128);
        let d: i128 = (pt3.y as i128) - (pt4.y as i128);
        compare_products(a, b, c, d) == 0
    }
}


impl Default for ClipperBase {
    /// The same as `new`: an empty base.
    fn default() -> (r: Self)
        ensures
            r.wf(),
            !r.preserve_collinear,
            r.minima_list@.len() == 0,
            r.current_lm == 0,
            r.edges@.len() == 0,
            r.scanbeam@.len() == 0,
            r.poly_outs@.len() == 0,
            r.active_edges is None,
            r.ael@.len() == 0,
            !r.use_full_range,
            !r.has_open_paths,
    {
        ClipperBase::new()
    }
}

} // verus!
