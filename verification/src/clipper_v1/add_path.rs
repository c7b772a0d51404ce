//! Turning an input path into linked edges and local minima.
use vstd::prelude::*;
use crate::clipper_v1::types::{IntPoint, PolyType, EdgeSide, UNASSIGNED, SKIP, HI_RANGE, LO_RANGE};
use crate::clipper_v1::tedge::TEdge;
use crate::clipper_v1::error::ClipperError;
use crate::clipper_v1::base_static::{ClipperBaseStatic, slopes_equal_spec, pt2_between_spec};
use crate::internal_clipper::{compare_products, diff_bounded, sign};
use crate::clipper_v1::clipper_base::{
    ClipperBase,
    LocalMinima,
    distinct,
    point_beyond,
    range_test_defined,
    bounds_in_arena,
    minima_sorted,
};

verus! {

/// The last index of `path[..=k]` once trailing repeats of a point are
/// dropped.
pub open spec fn trim_high(path: Seq<IntPoint>, k: int) -> int
    decreases k,
{
    if k > 0 && path[k] == path[k - 1] {
        trim_high(path, k - 1)
    } else {
        k
    }
}

/// The last index of `path[..=k]` once trailing copies of its first point
/// are dropped.
pub open spec fn trim_first(path: Seq<IntPoint>, k: int) -> int
    decreases k,
{
    if k > 0 && path[k] == path[0] {
        trim_first(path, k - 1)
    } else {
        k
    }
}

/// The last index of `path` that counts (`-1` for an empty path): for a
/// closed path, trailing copies of the first point are dropped; then, for
/// any path, trailing repeats of a point.
pub open spec fn high_index(path: Seq<IntPoint>, closed: bool) -> int {
    trim_high(
        path,
        if closed {
            trim_first(path, path.len() - 1)
        } else {
            path.len() - 1
        },
    )
}

/// Too few distinct end points for an edge list: fewer than three vertices
/// for a closed path, fewer than two for an open one.
pub open spec fn too_short(path: Seq<IntPoint>, closed: bool) -> bool {
    (closed && high_index(path, closed) < 2) || (!closed && high_index(path, closed) < 1)
}

/// Some counted vertex of `path` lies beyond `range`.
pub open spec fn some_beyond(path: Seq<IntPoint>, hi: int, range: int) -> bool {
    exists|i: int| 0 <= i <= hi && point_beyond(#[trigger] path[i], range)
}

/// The position after `k` in a ring of `n` positions.
pub open spec fn succ(k: int, n: int) -> int {
    if k + 1 >= n {
        0
    } else {
        k + 1
    }
}

/// The position before `k` in a ring of `n` positions.
pub open spec fn pred(k: int, n: int) -> int {
    if k <= 0 {
        n - 1
    } else {
        k - 1
    }
}

/// The edges listed in `r`, all at or above `lo`, form one ring through
/// their `next` and `prev` links, in the order of `r`.
pub open spec fn edge_ring(e: Seq<TEdge>, r: Seq<usize>, lo: int) -> bool {
    &&& r.len() >= 1
    &&& distinct(r)
    &&& forall|k: int| 0 <= k < r.len() ==> lo <= #[trigger] r[k] < e.len()
    &&& forall|k: int|
        0 <= k < r.len() ==> (#[trigger] e[r[k] as int]).next == Some(r[succ(k, r.len() as int)])
            && e[r[k] as int].prev == Some(r[pred(k, r.len() as int)])
}

/// A new edge of a path at vertex `pt`, linked to `next` and `prev`, with
/// everything else in its initial state.
pub open spec fn fresh_edge(pt: IntPoint, next: usize, prev: usize) -> TEdge {
    TEdge {
        bot: IntPoint { x: 0, y: 0 },
        curr: pt,
        top: IntPoint { x: 0, y: 0 },
        delta: IntPoint { x: 0, y: 0 },
        poly_typ: PolyType::Subject,
        side: EdgeSide::Left,
        wind_delta: 0,
        wind_cnt: 0,
        wind_cnt2: 0,
        out_idx: UNASSIGNED,
        next: Some(next),
        prev: Some(prev),
        next_in_lml: None,
        next_in_ael: None,
        prev_in_ael: None,
        next_in_sel: None,
        prev_in_sel: None,
    }
}

/// The positions `lo .. lo + m` in order.
pub open spec fn index_run(lo: int, m: int) -> Seq<usize> {
    Seq::new(m as nat, |i: int| (lo + i) as usize)
}

/// The edge with its end points ordered bottom first (its own vertex and
/// the next edge's vertex `d`), its delta and its polygon type set.
pub open spec fn with_geometry(e: TEdge, d: IntPoint, pt: PolyType) -> TEdge {
    let c = e.curr;
    let bot = if c.y >= d.y { c } else { d };
    let top = if c.y >= d.y { d } else { c };
    TEdge {
        bot: bot,
        top: top,
        delta: IntPoint { x: (top.x - bot.x) as i64, y: (top.y - bot.y) as i64 },
        poly_typ: pt,
        ..e
    }
}

/// Every vertex of the ring lies within the full range.
pub open spec fn ring_in_range(e: Seq<TEdge>, r: Seq<usize>) -> bool {
    forall|k: int| 0 <= k < r.len() ==> !point_beyond(#[trigger] e[r[k] as int].curr, HI_RANGE as int)
}

/// The slope `dx = delta.x / delta.y` of edge `a` is below that of `b`,
/// compared exactly, for edges whose top is not below their bottom: a
/// horizontal edge counts as below every other slope.
pub open spec fn dx_less(a: TEdge, b: TEdge) -> bool {
    if a.delta.y == 0 {
        b.delta.y != 0
    } else if b.delta.y == 0 {
        false
    } else {
        a.delta.x * b.delta.y < b.delta.x * a.delta.y
    }
}

/// The edge is horizontal.
pub open spec fn horz(e: TEdge) -> bool {
    e.delta.y == 0
}

/// Two edge arenas keep the ring links and everything below `lo`.
pub open spec fn links_kept(old: Seq<TEdge>, new: Seq<TEdge>, lo: int) -> bool {
    &&& new.len() == old.len()
    &&& forall|k: int| 0 <= k < old.len() ==> (#[trigger] new[k]).next == old[k].next && new[k].prev == old[k].prev
    &&& forall|k: int| 0 <= k < lo ==> #[trigger] new[k] == old[k]
}

/// What building the edges of a new path (the ring `r` of edges at or
/// above `lo`) keeps from state `a` to state `b`: the invariant, the ring,
/// everything below `lo`, every local minimum already listed, and all but
/// the edges and the minima.
pub open spec fn kept(a: ClipperBase, b: ClipperBase, r: Seq<usize>, lo: int) -> bool {
    &&& b.wf()
    &&& edge_ring(b.edges@, r, lo)
    &&& links_kept(a.edges@, b.edges@, lo)
    &&& bounds_in_arena(b.minima_list@, b.edges@.len() as int)
    &&& forall|m: LocalMinima| a.minima_list@.contains(m) ==> b.minima_list@.contains(m)
    &&& b.minima_list@.len() >= a.minima_list@.len()
    &&& b.ael == a.ael
    &&& b.active_edges == a.active_edges
    &&& b.scanbeam == a.scanbeam
    &&& b.current_lm == a.current_lm
    &&& b.poly_outs == a.poly_outs
    &&& b.preserve_collinear == a.preserve_collinear
    &&& b.use_full_range == a.use_full_range
    &&& b.has_open_paths == a.has_open_paths
}

/// The number of points of all paths together.
pub open spec fn total_len(ps: Seq<Vec<IntPoint>>) -> int
    decreases ps.len(),
{
    if ps.len() == 0 {
        0
    } else {
        ps[0]@.len() + total_len(ps.drop_first())
    }
}

/// The points of the paths from `j` on are those of path `j` and the rest.
proof fn lemma_total_len_skip(ps: Seq<Vec<IntPoint>>, j: int)
    requires
        0 <= j < ps.len(),
    ensures
        total_len(ps.skip(j)) == ps[j]@.len() + total_len(ps.skip(j + 1)),
        total_len(ps.skip(j + 1)) >= 0,
{
    assert(ps.skip(j)[0] == ps[j]);
    assert(ps.skip(j).drop_first() =~= ps.skip(j + 1));
    lemma_total_len_nonneg(ps.skip(j + 1));
}

/// A total length is not negative.
proof fn lemma_total_len_nonneg(ps: Seq<Vec<IntPoint>>)
    ensures
        total_len(ps) >= 0,
    decreases ps.len(),
{
    if ps.len() > 0 {
        lemma_total_len_nonneg(ps.drop_first());
    }
}

/// Steps from position `s` forward to position `q` in a ring of `n`.
pub open spec fn dist_from(s: int, q: int, n: int) -> int {
    if q >= s {
        q - s
    } else {
        q - s + n
    }
}

/// The vertex at position `q` of the ring `r` stays through a round of the
/// removal walk of a closed path: it differs from the next vertex, and it
/// is not collinear with its neighbours unless collinear vertices are kept
/// and it lies between them.
pub open spec fn ring_vertex_kept(e: Seq<TEdge>, r: Seq<usize>, q: int, preserve: bool) -> bool {
    let n = r.len() as int;
    let c = e[r[q] as int].curr;
    let nc = e[r[succ(q, n)] as int].curr;
    let pc = e[r[pred(q, n)] as int].curr;
    c != nc && !(slopes_equal_spec(pc, c, nc) && (!preserve || !pt2_between_spec(pc, c, nc)))
}

/// All counted vertices of `path` (up to `hi`) lie on one line.
pub open spec fn all_collinear(path: Seq<IntPoint>, hi: int) -> bool {
    forall|i: int, j: int, k: int|
        0 <= i <= hi && 0 <= j <= hi && 0 <= k <= hi ==> #[trigger] slopes_equal_spec(path[i], path[j], path[k])
}

/// `trim_high` stays within the path and drops only repeats.
proof fn lemma_trim_high(path: Seq<IntPoint>, k: int)
    requires
        -1 <= k < path.len(),
    ensures
        -1 <= trim_high(path, k) <= k,
        k >= 0 ==> trim_high(path, k) >= 0,
        forall|j: int| trim_high(path, k) <= j <= k && j >= 0 ==> #[trigger] path[j] == path[trim_high(path, k)],
    decreases k,
{
    if k > 0 && path[k] == path[k - 1] {
        lemma_trim_high(path, k - 1);
    }
}

/// Unlinking the edge at position `pos` of a ring of two or more edges (as
/// `remove_edge` does) leaves the ring without it.
proof fn lemma_ring_remove(old_e: Seq<TEdge>, new_e: Seq<TEdge>, r: Seq<usize>, pos: int, lo: int)
    requires
        edge_ring(old_e, r, lo),
        r.len() >= 2,
        0 <= pos < r.len(),
        new_e.len() == old_e.len(),
        ({
            let e = r[pos];
            let p = old_e[e as int].prev->0;
            let n = old_e[e as int].next->0;
            let s1 = old_e.update(n as int, TEdge { prev: Some(p), ..old_e[n as int] });
            let s2 = s1.update(p as int, TEdge { next: Some(n), ..s1[p as int] });
            new_e == s2.update(e as int, TEdge { prev: None, ..s2[e as int] })
        }),
    ensures
        edge_ring(new_e, r.remove(pos), lo),
        forall|k: int| 0 <= k < old_e.len() && k != r[pos] ==> (#[trigger] new_e[k]).same_values(old_e[k]),
        forall|k: int| 0 <= k < old_e.len() && k != r[pos] && k != r[pred(pos, r.len() as int)] && k != r[succ(pos, r.len() as int)] ==> #[trigger] new_e[k] == old_e[k],
{
    let n = r.len() as int;
    let e = r[pos];
    let pp = pred(pos, n);
    let sp = succ(pos, n);
    let r2 = r.remove(pos);
    let m = n - 1;
    assert(old_e[e as int].prev == Some(r[pp]));
    assert(old_e[e as int].next == Some(r[sp]));
    assert forall|x: int, y: int| 0 <= x < y < r2.len() implies r2[x] != r2[y] by {
        let ox = if x < pos { x } else { x + 1 };
        let oy = if y < pos { y } else { y + 1 };
        assert(r2[x] == r[ox]);
        assert(r2[y] == r[oy]);
        assert(ox < oy);
    }
    assert forall|k: int| 0 <= k < r2.len() implies lo <= #[trigger] r2[k] < new_e.len() by {
        let ok = if k < pos { k } else { k + 1 };
        assert(r2[k] == r[ok]);
    }
    assert forall|k: int| 0 <= k < r2.len() implies (#[trigger] new_e[r2[k] as int]).next == Some(
        r2[succ(k, m)],
    ) && new_e[r2[k] as int].prev == Some(r2[pred(k, m)]) by {
        let ok = if k < pos { k } else { k + 1 };
        assert(r2[k] == r[ok]);
        assert(r[ok] != e);
        let nk = succ(k, m);
        let onk = if nk < pos { nk } else { nk + 1 };
        assert(r2[nk] == r[onk]);
        let pk = pred(k, m);
        let opk = if pk < pos { pk } else { pk + 1 };
        assert(r2[pk] == r[opk]);
        assert(old_e[r[ok] as int].next == Some(r[succ(ok, n)]));
        assert(old_e[r[ok] as int].prev == Some(r[pred(ok, n)]));
        if ok == pp {
            assert(onk == sp);
        } else {
            assert(succ(ok, n) == onk);
        }
        if ok == sp {
            assert(opk == pp);
        } else {
            assert(pred(ok, n) == opk);
        }
    }
}

/// `trim_first` stays within the path.
proof fn lemma_trim_first(path: Seq<IntPoint>, k: int)
    requires
        0 <= k < path.len(),
    ensures
        0 <= trim_first(path, k) <= k,
    decreases k,
{
    if k > 0 && path[k] == path[0] {
        lemma_trim_first(path, k - 1);
    }
}

/// The position after (forward) or before (backward) position `q` of a
/// ring of `n` positions.
pub open spec fn step_pos(q: int, n: int, fwd: bool) -> int {
    if fwd {
        succ(q, n)
    } else {
        pred(q, n)
    }
}

/// How many steps forward (or backward) lead from position `p` to `q`.
pub open spec fn walk_dist(p: int, q: int, n: int, fwd: bool) -> int {
    if fwd {
        dist_from(p, q, n)
    } else {
        dist_from(q, p, n)
    }
}

/// The edge at position `k` of the ring meets the next edge of the walk:
/// its top is at the height of that edge's bottom (and, when closing edges
/// stop the walk, that edge is not one).
pub open spec fn chain_goes_on(e: Seq<TEdge>, r: Seq<usize>, k: int, fwd: bool, skip: bool) -> bool {
    let nb = r[step_pos(k, r.len() as int, fwd)];
    &&& e[r[k] as int].top.y == e[nb as int].bot.y
    &&& (skip ==> e[nb as int].out_idx != SKIP)
}

/// Some edge of the ring does not meet the next edge of a walk in that
/// direction.
pub open spec fn chain_stops(e: Seq<TEdge>, r: Seq<usize>, fwd: bool) -> bool {
    exists|k: int| 0 <= k < r.len() && !#[trigger] chain_goes_on(e, r, k, fwd, false)
}

/// Some edge of the ring is not horizontal.
pub open spec fn has_slope(e: Seq<TEdge>, r: Seq<usize>) -> bool {
    exists|k: int| 0 <= k < r.len() && #[trigger] e[r[k] as int].delta.y != 0
}

/// No closing edge of the ring is next to another.
pub open spec fn skips_apart(e: Seq<TEdge>, r: Seq<usize>) -> bool {
    forall|k: int|
        0 <= k < r.len() && #[trigger] e[r[k] as int].out_idx == SKIP ==> e[r[succ(k, r.len() as int)] as int].out_idx
            != SKIP && e[r[pred(k, r.len() as int)] as int].out_idx != SKIP
}

/// The walks that build a bound in direction `fwd` over this ring end.
pub open spec fn bound_walks_end(e: Seq<TEdge>, r: Seq<usize>, fwd: bool) -> bool {
    chain_stops(e, r, fwd) && has_slope(e, r) && skips_apart(e, r)
}

/// The two rings agree on the heights of the ends of their edges, on their
/// deltas' y and on their closing-edge marks.
#[verifier::opaque]
pub open spec fn same_frame(a: Seq<TEdge>, b: Seq<TEdge>, r: Seq<usize>) -> bool {
    forall|k: int|
        0 <= k < r.len() ==> {
            let x = #[trigger] r[k] as int;
            &&& a[x].top.y == b[x].top.y
            &&& a[x].bot.y == b[x].bot.y
            &&& a[x].delta == b[x].delta
            &&& a[x].out_idx == b[x].out_idx
        }
}

/// The local minimum at position `k` of the ring, with the bottom y of its
/// edge: the side of larger slope (see `dx_less`) is the left bound, the
/// edge before it the right bound, and a bound that is a closing edge is
/// dropped (the left one first).
pub open spec fn minimum_at(e: Seq<TEdge>, r: Seq<usize>, k: int) -> LocalMinima {
    let n = r.len() as int;
    let x = r[k];
    let px = r[pred(k, n)];
    let fwd = !dx_less(e[x as int], e[px as int]);
    let left = if fwd {
        x
    } else {
        px
    };
    let right = if fwd {
        px
    } else {
        x
    };
    LocalMinima {
        y: e[x as int].bot.y,
        left_bound: if e[left as int].out_idx == SKIP {
            None
        } else {
            Some(left)
        },
        right_bound: if e[left as int].out_idx != SKIP && e[right as int].out_idx == SKIP {
            None
        } else {
            Some(right)
        },
    }
}

/// The local minimum with only a right bound, the edge at position `k`
/// (a bound that starts past a closing edge), at that edge's bottom y.
pub open spec fn skip_minimum(e: Seq<TEdge>, r: Seq<usize>, k: int) -> LocalMinima {
    LocalMinima { y: e[r[k] as int].bot.y, left_bound: None, right_bound: Some(r[k]) }
}

/// `m` is the local minimum at some position of the ring, of either kind.
pub open spec fn ring_minimum(e: Seq<TEdge>, r: Seq<usize>, m: LocalMinima) -> bool {
    exists|k: int|
        #![trigger minimum_at(e, r, k)]
        #![trigger skip_minimum(e, r, k)]
        0 <= k < r.len() && (m == minimum_at(e, r, k) || m == skip_minimum(e, r, k))
}

/// Every entry of `b` is an entry of `a` or a local minimum of the ring.
#[verifier::opaque]
pub open spec fn minima_from(a: Seq<LocalMinima>, b: Seq<LocalMinima>, e: Seq<TEdge>, r: Seq<usize>) -> bool {
    forall|m: LocalMinima| #[trigger] b.contains(m) ==> a.contains(m) || ring_minimum(e, r, m)
}

/// From position `p` of the ring `r` to position `q`, walking forward
/// (`next`) or backward (`prev`), each edge before `q` links through
/// `next_in_lml` to the one after it in the walk.
pub open spec fn bound_run(e: Seq<TEdge>, r: Seq<usize>, p: int, q: int, fwd: bool) -> bool {
    let n = r.len() as int;
    if fwd {
        forall|j: int|
            0 <= j < n && dist_from(p, j, n) < dist_from(p, q, n) ==> #[trigger] e[r[j] as int].next_in_lml == Some(
                r[succ(j, n)],
            )
    } else {
        forall|j: int|
            0 <= j < n && dist_from(j, p, n) < dist_from(q, p, n) ==> #[trigger] e[r[j] as int].next_in_lml == Some(
                r[pred(j, n)],
            )
    }
}

/// A closed path that adds no edges: it is empty, too short once repeats
/// are dropped, or its counted vertices, all within range, lie on one line.
pub open spec fn closed_path_collapses(p: Seq<IntPoint>) -> bool {
    ||| p.len() == 0
    ||| too_short(p, true)
    ||| all_collinear(p, high_index(p, true)) && !some_beyond(p, high_index(p, true), HI_RANGE as int)
}

/// `a` comes no later than `b` in the order by x, then y.
pub open spec fn lex_le(a: IntPoint, b: IntPoint) -> bool {
    a.x < b.x || (a.x == b.x && a.y <= b.y)
}

/// A position of `pts[..len]` whose point comes first by x, then y.
proof fn lemma_lex_min(pts: Seq<IntPoint>, len: int) -> (m: int)
    requires
        1 <= len <= pts.len(),
    ensures
        0 <= m < len,
        forall|k: int| 0 <= k < len ==> lex_le(pts[m], #[trigger] pts[k]),
    decreases len,
{
    if len == 1 {
        0
    } else {
        let m0 = lemma_lex_min(pts, len - 1);
        if lex_le(pts[m0], pts[len - 1]) {
            m0
        } else {
            len - 1
        }
    }
}

/// Of three points on one line, a first one by x, then y, that differs
/// from the other two does not lie between them.
proof fn lemma_lex_min_not_between(p: IntPoint, c: IntPoint, q: IntPoint)
    requires
        lex_le(c, p),
        lex_le(c, q),
        c != p,
        c != q,
        slopes_equal_spec(p, c, q),
    ensures
        !pt2_between_spec(p, c, q),
{
    let (px, py, cx, cy, qx, qy) = (p.x as int, p.y as int, c.x as int, c.y as int, q.x as int, q.y as int);
    if p == q {
    } else if px != qx {
        if cx == qx {
            assert(cy < qy);
            assert(px > cx);
            assert((px - cx) * (cy - qy) < 0) by (nonlinear_arith)
                requires
                    px - cx > 0,
                    cy - qy < 0,
            ;
            assert((py - cy) * (cx - qx) == 0) by (nonlinear_arith)
                requires
                    cx - qx == 0,
            ;
        }
    } else if cx < px {
        assert((py - cy) * (cx - qx) == (px - cx) * (cy - qy));
        assert(py == qy) by (nonlinear_arith)
            requires
                (py - cy) * (cx - qx) == (px - cx) * (cy - qy),
                cx - qx == -(px - cx),
                px - cx > 0,
        ;
    }
}

/// A ring of more than two new edges that came through the removal walk of
/// a closed path holds vertices off one line.
proof fn lemma_collinear_ring_collapses(
    cur: Seq<TEdge>,
    pushed: Seq<TEdge>,
    path: Seq<IntPoint>,
    base: int,
    hi: int,
    r: Seq<usize>,
    e: usize,
    preserve: bool,
)
    requires
        0 <= base,
        0 <= hi < path.len(),
        base + hi + 1 <= pushed.len(),
        base + hi + 1 <= usize::MAX,
        cur.len() == pushed.len(),
        forall|i: int| 0 <= i <= hi ==> #[trigger] pushed[base + i] == fresh_edge(
            path[i],
            (base + succ(i, hi + 1)) as usize,
            (base + pred(i, hi + 1)) as usize,
        ),
        forall|k: int| 0 <= k < pushed.len() ==> (#[trigger] cur[k]).same_values(pushed[k]),
        edge_ring(cur, r, base),
        forall|k: int| 0 <= k < r.len() ==> index_run(base, hi + 1).contains(#[trigger] r[k]),
        r.contains(e),
        cur[e as int].prev != cur[e as int].next,
        r.len() <= 2 || forall|q: int| 0 <= q < r.len() ==> #[trigger] ring_vertex_kept(cur, r, q, preserve),
    ensures
        !all_collinear(path, hi),
{
    let ring = index_run(base, hi + 1);
    let n = r.len() as int;
    let p = choose|k: int| 0 <= k < n && r[k] == e;
    assert(cur[r[p] as int].next == Some(r[succ(p, n)]));
    assert(cur[r[p] as int].prev == Some(r[pred(p, n)]));
    assert(n > 2);
    let pts = Seq::new(n as nat, |k: int| cur[r[k] as int].curr);
    let m = lemma_lex_min(pts, n);
    let a = pred(m, n);
    let b = succ(m, n);
    assert(succ(a, n) == m);
    assert(ring_vertex_kept(cur, r, m, preserve));
    assert(ring_vertex_kept(cur, r, a, preserve));
    let x0 = r[a];
    let x1 = r[m];
    let x2 = r[b];
    assert(ring.contains(x0));
    assert(ring.contains(x1));
    assert(ring.contains(x2));
    let i0 = choose|i: int| 0 <= i < ring.len() && ring[i] == x0;
    let i1 = choose|i: int| 0 <= i < ring.len() && ring[i] == x1;
    let i2 = choose|i: int| 0 <= i < ring.len() && ring[i] == x2;
    assert(pushed[base + i0].curr == path[i0]);
    assert(pushed[base + i1].curr == path[i1]);
    assert(pushed[base + i2].curr == path[i2]);
    assert(cur[x0 as int].same_values(pushed[x0 as int]));
    assert(cur[x1 as int].same_values(pushed[x1 as int]));
    assert(cur[x2 as int].same_values(pushed[x2 as int]));
    assert(x0 == base + i0 && x1 == base + i1 && x2 == base + i2);
    if all_collinear(path, hi) {
        assert(slopes_equal_spec(path[i0], path[i1], path[i2]));
        assert(pts[a] == path[i0] && pts[m] == path[i1] && pts[b] == path[i2]);
        assert(lex_le(pts[m], pts[a]));
        assert(lex_le(pts[m], pts[b]));
        lemma_lex_min_not_between(path[i0], path[i1], path[i2]);
    }
}

/// The neighbours of a ring edge are ring edges.
proof fn lemma_same_frame_walks(a: Seq<TEdge>, b: Seq<TEdge>, r: Seq<usize>, fwd: bool)
    requires
        same_frame(a, b, r),
        bound_walks_end(a, r, fwd),
    ensures
        bound_walks_end(b, r, fwd),
{
    reveal(same_frame);
    let n = r.len() as int;
    let k = choose|k: int| 0 <= k < n && !#[trigger] chain_goes_on(a, r, k, fwd, false);
    assert(r[k] == r[k]);
    assert(r[step_pos(k, n, fwd)] == r[step_pos(k, n, fwd)]);
    assert(!chain_goes_on(b, r, k, fwd, false));
    let h = choose|h: int| 0 <= h < n && #[trigger] a[r[h] as int].delta.y != 0;
    assert(r[h] == r[h]);
    assert(b[r[h] as int].delta.y != 0);
    assert forall|q: int| 0 <= q < n && #[trigger] b[r[q] as int].out_idx == SKIP implies b[r[succ(q, n)] as int].out_idx
        != SKIP && b[r[pred(q, n)] as int].out_idx != SKIP by {
        assert(r[q] == r[q]);
        assert(r[succ(q, n)] == r[succ(q, n)]);
        assert(r[pred(q, n)] == r[pred(q, n)]);
        assert(a[r[q] as int].out_idx == SKIP);
    }
}

proof fn lemma_same_frame_refl(a: Seq<TEdge>, r: Seq<usize>)
    ensures
        same_frame(a, a, r),
{
    reveal(same_frame);
}

proof fn lemma_minima_from_same(a: Seq<LocalMinima>, e: Seq<TEdge>, r: Seq<usize>)
    ensures
        minima_from(a, a, e, r),
{
    reveal(minima_from);
}

proof fn lemma_minima_add(a: Seq<LocalMinima>, b: Seq<LocalMinima>, e: Seq<TEdge>, r: Seq<usize>, lm: LocalMinima)
    requires
        forall|m: LocalMinima| #[trigger] b.contains(m) ==> a.contains(m) || m == lm,
        ring_minimum(e, r, lm),
    ensures
        minima_from(a, b, e, r),
{
    reveal(minima_from);
}

proof fn lemma_skip_minimum_frame(a: Seq<TEdge>, b: Seq<TEdge>, r: Seq<usize>, x: usize, y: i64)
    requires
        same_frame(a, b, r),
        r.contains(x),
        a[x as int].bot.y == y,
    ensures
        ring_minimum(b, r, LocalMinima { y: y, left_bound: None, right_bound: Some(x) }),
{
    reveal(same_frame);
    let k = choose|k: int| 0 <= k < r.len() && r[k] == x;
    assert(r[k] == x);
    assert(skip_minimum(b, r, k) == LocalMinima { y: y, left_bound: None, right_bound: Some(x) });
}

proof fn lemma_frame_at(a: Seq<TEdge>, b: Seq<TEdge>, r: Seq<usize>, k: int)
    requires
        same_frame(a, b, r),
        0 <= k < r.len(),
    ensures
        a[r[k] as int].top.y == b[r[k] as int].top.y,
        a[r[k] as int].bot.y == b[r[k] as int].bot.y,
        a[r[k] as int].delta == b[r[k] as int].delta,
        a[r[k] as int].out_idx == b[r[k] as int].out_idx,
{
    reveal(same_frame);
    assert(r[k] == r[k]);
}

/// The ring keeps its frame (see `same_frame`) from `a` to `b`, and every
/// minimum `b` lists that `a` did not is a local minimum of the ring.
#[verifier::opaque]
pub open spec fn grew(a: ClipperBase, b: ClipperBase, r: Seq<usize>) -> bool {
    &&& same_frame(a.edges@, b.edges@, r)
    &&& minima_from(a.minima_list@, b.minima_list@, b.edges@, r)
}

proof fn lemma_grew_refl(a: ClipperBase, r: Seq<usize>)
    ensures
        grew(a, a, r),
{
    reveal(grew);
    lemma_same_frame_refl(a.edges@, r);
    lemma_minima_from_same(a.minima_list@, a.edges@, r);
}

/// Every minimum that `b` lists and `a` did not is a local minimum (see
/// `ring_minimum`: at an edge's bottom y, with the bounds the slope rule
/// picks) of a ring of the edges that `b` has beyond `a`'s.
#[verifier::opaque]
pub open spec fn minima_of_new_ring(a: ClipperBase, b: ClipperBase) -> bool {
    exists|rr: Seq<usize>|
        edge_ring(b.edges@, rr, a.edges@.len() as int) && #[trigger] minima_from(
            a.minima_list@,
            b.minima_list@,
            b.edges@,
            rr,
        )
}

proof fn lemma_minima_of_new_ring(a: ClipperBase, b: ClipperBase, rr: Seq<usize>)
    requires
        edge_ring(b.edges@, rr, a.edges@.len() as int),
        minima_from(a.minima_list@, b.minima_list@, b.edges@, rr),
    ensures
        minima_of_new_ring(a, b),
{
    reveal(minima_of_new_ring);
}

proof fn lemma_new_ring_same_start(a: ClipperBase, a2: ClipperBase, b: ClipperBase)
    requires
        a.edges@ == a2.edges@,
        a.minima_list@ == a2.minima_list@,
        minima_of_new_ring(a2, b),
    ensures
        minima_of_new_ring(a, b),
{
    reveal(minima_of_new_ring);
}

proof fn lemma_grew_minima(a: ClipperBase, b: ClipperBase, r: Seq<usize>)
    requires
        grew(a, b, r),
    ensures
        minima_from(a.minima_list@, b.minima_list@, b.edges@, r),
{
    reveal(grew);
}

proof fn lemma_grew_frame(a: ClipperBase, b: ClipperBase, r: Seq<usize>)
    requires
        grew(a, b, r),
    ensures
        same_frame(a.edges@, b.edges@, r),
{
    reveal(grew);
}

proof fn lemma_grew_intro(a: ClipperBase, b: ClipperBase, r: Seq<usize>)
    requires
        same_frame(a.edges@, b.edges@, r),
        minima_from(a.minima_list@, b.minima_list@, b.edges@, r),
    ensures
        grew(a, b, r),
{
    reveal(grew);
}

proof fn lemma_grew_trans(a: ClipperBase, b: ClipperBase, c: ClipperBase, r: Seq<usize>)
    requires
        grew(a, b, r),
        grew(b, c, r),
    ensures
        grew(a, c, r),
{
    reveal(grew);
    lemma_same_frame_trans(a.edges@, b.edges@, c.edges@, r);
    lemma_minima_from_trans(a.minima_list@, b.minima_list@, c.minima_list@, b.edges@, c.edges@, r);
}

proof fn lemma_same_frame_trans(a: Seq<TEdge>, b: Seq<TEdge>, c: Seq<TEdge>, r: Seq<usize>)
    requires
        same_frame(a, b, r),
        same_frame(b, c, r),
    ensures
        same_frame(a, c, r),
{
    reveal(same_frame);
}

proof fn lemma_minima_from_trans(
    a: Seq<LocalMinima>,
    b: Seq<LocalMinima>,
    c: Seq<LocalMinima>,
    e1: Seq<TEdge>,
    e2: Seq<TEdge>,
    r: Seq<usize>,
)
    requires
        minima_from(a, b, e1, r),
        minima_from(b, c, e2, r),
        same_frame(e1, e2, r),
    ensures
        minima_from(a, c, e2, r),
{
    reveal(minima_from);
    reveal(same_frame);
    assert forall|m: LocalMinima| #[trigger] c.contains(m) implies a.contains(m) || ring_minimum(e2, r, m) by {
        if !ring_minimum(e2, r, m) {
            assert(b.contains(m));
            if !a.contains(m) {
                assert(ring_minimum(e1, r, m));
                let k = choose|k: int|
                    #![trigger minimum_at(e1, r, k)]
                    #![trigger skip_minimum(e1, r, k)]
                    0 <= k < r.len() && (m == minimum_at(e1, r, k) || m == skip_minimum(e1, r, k));
                let n = r.len() as int;
                assert(r[k] == r[k] && r[pred(k, n)] == r[pred(k, n)]);
                assert(minimum_at(e1, r, k) == minimum_at(e2, r, k));
                assert(skip_minimum(e1, r, k) == skip_minimum(e2, r, k));
                assert(ring_minimum(e2, r, m));
            }
        }
    }
}

proof fn lemma_frame_update(a: Seq<TEdge>, b: Seq<TEdge>, r: Seq<usize>, i: int)
    requires
        a.len() == b.len(),
        forall|j: int| 0 <= j < a.len() && j != i ==> #[trigger] b[j] == a[j],
        0 <= i < a.len() ==> b[i].top.y == a[i].top.y && b[i].bot.y == a[i].bot.y && b[i].delta == a[i].delta
            && b[i].out_idx == a[i].out_idx,
        forall|k: int| 0 <= k < r.len() ==> #[trigger] r[k] < a.len(),
    ensures
        same_frame(a, b, r),
{
    reveal(same_frame);
    assert forall|k: int| 0 <= k < r.len() implies {
        let x = #[trigger] r[k] as int;
        &&& a[x].top.y == b[x].top.y
        &&& a[x].bot.y == b[x].bot.y
        &&& a[x].delta == b[x].delta
        &&& a[x].out_idx == b[x].out_idx
    } by {
        let x = r[k] as int;
        if x != i {
            assert(b[x] == a[x]);
        }
    }
}

proof fn lemma_ring_neighbours(e: Seq<TEdge>, r: Seq<usize>, lo: int, x: usize)
    requires
        edge_ring(e, r, lo),
        r.contains(x),
    ensures
        x < e.len(),
        lo <= x,
        e[x as int].next is Some,
        e[x as int].prev is Some,
        r.contains(e[x as int].next->0),
        r.contains(e[x as int].prev->0),
{
    let k = choose|k: int| 0 <= k < r.len() && r[k] == x;
    let n = r.len() as int;
    assert(e[r[k] as int].next == Some(r[succ(k, n)]));
    assert(e[r[k] as int].prev == Some(r[pred(k, n)]));
    assert(r.contains(r[succ(k, n)]));
    assert(r.contains(r[pred(k, n)]));
}

/// Keeping the links keeps the ring.
proof fn lemma_ring_kept(old: Seq<TEdge>, new: Seq<TEdge>, r: Seq<usize>, lo: int)
    requires
        edge_ring(old, r, lo),
        links_kept(old, new, lo),
    ensures
        edge_ring(new, r, lo),
{
    assert forall|k: int| 0 <= k < r.len() implies (#[trigger] new[r[k] as int]).next == Some(r[succ(k, r.len() as int)])
        && new[r[k] as int].prev == Some(r[pred(k, r.len() as int)]) by {
        assert(old[r[k] as int].next == Some(r[succ(k, r.len() as int)]));
    }
}

/// `kept` composes.
proof fn lemma_kept_trans(a: ClipperBase, b: ClipperBase, c: ClipperBase, r: Seq<usize>, lo: int)
    requires
        kept(a, b, r, lo),
        kept(b, c, r, lo),
    ensures
        kept(a, c, r, lo),
{
}

/// The last counted index lies within the path.
proof fn lemma_high_index_bounds(path: Seq<IntPoint>, closed: bool)
    requires
        path.len() > 0,
    ensures
        0 <= high_index(path, closed) < path.len(),
{
    let k = if closed {
        lemma_trim_first(path, path.len() - 1);
        trim_first(path, path.len() - 1)
    } else {
        path.len() - 1
    };
    lemma_trim_high(path, k);
}

impl ClipperBase {
    /// The index of the last vertex of `path` that counts.
    fn find_high_index(path: &Vec<IntPoint>, closed: bool) -> (r: usize)
        requires
            path@.len() >= 1,
        ensures
            r == high_index(path@, closed),
    {
        let mut h: usize = path.len() - 1;
        if closed {
            proof {
                lemma_trim_first(path@, path@.len() - 1);
            }
            while h > 0 && path[h] == path[0]
                invariant
                    h < path@.len(),
                    trim_first(path@, h as int) == trim_first(path@, path@.len() - 1),
                decreases h,
            {
                h -= 1;
            }
        }
        proof {
            lemma_trim_high(path@, h as int);
        }
        let ghost h0 = h as int;
        while h > 0 && path[h] == path[h - 1]
            invariant
                h < path@.len(),
                trim_high(path@, h as int) == trim_high(path@, h0),
            decreases h,
        {
            h -= 1;
        }
        h
    }

    /// Range-tests the counted vertices of a path in the order the edges are
    /// built (first, last, then from the last but one down to the second):
    /// fails when one lies beyond the full range, and otherwise switches to
    /// the full range when one lies beyond the low range.
    fn range_test_path(&mut self, path: &Vec<IntPoint>, hi: usize) -> (r: Result<(), ClipperError>)
        requires
            1 <= hi < path@.len(),
            forall|i: int| 0 <= i <= hi ==> range_test_defined(#[trigger] path@[i], false),
        ensures
            r is Err <==> some_beyond(path@, hi as int, HI_RANGE as int),
            r is Err ==> r matches Err(ClipperError::CoordinateOutOfRange),
            r is Ok ==> final(self).use_full_range == (old(self).use_full_range || some_beyond(
                path@,
                hi as int,
                LO_RANGE as int,
            )),
            r is Err ==> (final(self).use_full_range ==> (old(self).use_full_range || some_beyond(
                path@,
                hi as int,
                LO_RANGE as int,
            ))),
            final(self).edges == old(self).edges,
            final(self).minima_list == old(self).minima_list,
            final(self).current_lm == old(self).current_lm,
            final(self).scanbeam == old(self).scanbeam,
            final(self).poly_outs == old(self).poly_outs,
            final(self).active_edges == old(self).active_edges,
            final(self).ael == old(self).ael,
            final(self).preserve_collinear == old(self).preserve_collinear,
            final(self).has_open_paths == old(self).has_open_paths,
    {
        let u0 = self.use_full_range;
        let u1 = match Self::range_test(path[0], u0) {
            Err(e) => {
                proof {
                    assert(point_beyond(path@[0], HI_RANGE as int));
                }
                return Err(e);
            },
            Ok((_, u)) => u,
        };
        let u2 = match Self::range_test(path[hi], u1) {
            Err(e) => {
                proof {
                    assert(point_beyond(path@[hi as int], HI_RANGE as int));
                }
                return Err(e);
            },
            Ok((_, u)) => u,
        };
        self.use_full_range = u2;
        proof {
            if point_beyond(path@[0], LO_RANGE as int) {
                assert(some_beyond(path@, hi as int, LO_RANGE as int));
            }
            if point_beyond(path@[hi as int], LO_RANGE as int) {
                assert(some_beyond(path@, hi as int, LO_RANGE as int));
            }
        }
        let mut i: usize = hi;
        while i > 1
            invariant
                1 <= i <= hi,
                hi < path@.len(),
                forall|j: int| 0 <= j <= hi ==> range_test_defined(#[trigger] path@[j], false),
                forall|j: int|
                    (j == 0 || i <= j <= hi) ==> !point_beyond(#[trigger] path@[j], HI_RANGE as int),
                self.use_full_range == (u0 || exists|j: int|
                    (j == 0 || i <= j <= hi) && point_beyond(#[trigger] path@[j], LO_RANGE as int)),
                self.use_full_range ==> (u0 || some_beyond(path@, hi as int, LO_RANGE as int)),
                self.edges == old(self).edges,
                self.minima_list == old(self).minima_list,
                self.current_lm == old(self).current_lm,
                self.scanbeam == old(self).scanbeam,
                self.poly_outs == old(self).poly_outs,
                self.active_edges == old(self).active_edges,
                self.ael == old(self).ael,
                self.preserve_collinear == old(self).preserve_collinear,
                self.has_open_paths == old(self).has_open_paths,
                u0 == old(self).use_full_range,
            decreases i,
        {
            i -= 1;
            let u = self.use_full_range;
            match Self::range_test(path[i], u) {
                Err(e) => {
                    proof {
                        assert(point_beyond(path@[i as int], HI_RANGE as int));
                    }
                    return Err(e);
                },
                Ok((_, v)) => {
                    self.use_full_range = v;
                },
            }
            proof {
                if point_beyond(path@[i as int], LO_RANGE as int) {
                    assert(some_beyond(path@, hi as int, LO_RANGE as int));
                }
            }
        }
        proof {
            assert forall|j: int| 0 <= j <= hi implies !point_beyond(#[trigger] path@[j], HI_RANGE as int) by {
                assert(j == 0 || i <= j <= hi);
            }
            if some_beyond(path@, hi as int, LO_RANGE as int) {
                let j = choose|j: int| 0 <= j <= hi && point_beyond(#[trigger] path@[j], LO_RANGE as int);
                assert(j == 0 || i <= j <= hi);
            }
        }
        Ok(())
    }

    /// Appends one edge per counted vertex of `path`, linked in a ring in
    /// path order, each at its vertex and unassigned.
    fn push_ring_edges(&mut self, path: &Vec<IntPoint>, hi: usize)
        requires
            old(self).wf(),
            1 <= hi < path@.len(),
            old(self).edges@.len() + hi + 1 <= usize::MAX,
        ensures
            final(self).wf(),
            final(self).edges@.len() == old(self).edges@.len() + hi + 1,
            forall|k: int| 0 <= k < old(self).edges@.len() ==> #[trigger] final(self).edges@[k] == old(self).edges@[k],
            forall|i: int|
                0 <= i <= hi ==> #[trigger] final(self).edges@[old(self).edges@.len() + i] == fresh_edge(
                    path@[i],
                    (old(self).edges@.len() + succ(i, hi + 1)) as usize,
                    (old(self).edges@.len() + pred(i, hi + 1)) as usize,
                ),
            edge_ring(final(self).edges@, index_run(old(self).edges@.len() as int, hi + 1), old(self).edges@.len() as int),
            final(self).minima_list == old(self).minima_list,
            final(self).current_lm == old(self).current_lm,
            final(self).scanbeam == old(self).scanbeam,
            final(self).poly_outs == old(self).poly_outs,
            final(self).active_edges == old(self).active_edges,
            final(self).ael == old(self).ael,
            final(self).preserve_collinear == old(self).preserve_collinear,
            final(self).use_full_range == old(self).use_full_range,
            final(self).has_open_paths == old(self).has_open_paths,
    {
        let base = self.edges.len();
        let m = hi + 1;
        let mut i: usize = 0;
        while i < m
            invariant
                base == old(self).edges@.len(),
                m == hi + 1,
                1 <= hi < path@.len(),
                base + m <= usize::MAX,
                i <= m,
                self.edges@.len() == base + i,
                forall|k: int| 0 <= k < base ==> #[trigger] self.edges@[k] == old(self).edges@[k],
                forall|j: int|
                    0 <= j < i ==> #[trigger] self.edges@[base + j] == fresh_edge(
                        path@[j],
                        (base + succ(j, m as int)) as usize,
                        (base + pred(j, m as int)) as usize,
                    ),
                self.ael == old(self).ael,
                self.active_edges == old(self).active_edges,
                self.minima_list == old(self).minima_list,
                self.current_lm == old(self).current_lm,
                self.scanbeam == old(self).scanbeam,
                self.poly_outs == old(self).poly_outs,
                self.preserve_collinear == old(self).preserve_collinear,
                self.use_full_range == old(self).use_full_range,
                self.has_open_paths == old(self).has_open_paths,
            decreases m - i,
        {
            let mut t = TEdge::new();
            let nx = if i + 1 >= m { base } else { base + i + 1 };
            let pv = if i == 0 { base + m - 1 } else { base + i - 1 };
            t.next = Some(nx);
            t.prev = Some(pv);
            t.curr = path[i];
            self.edges.push(t);
            i += 1;
        }
        proof {
            let a = self.ael@;
            let old_e = old(self).edges@;
            let e = self.edges@;
            assert forall|k: int| 0 <= k < a.len() implies (#[trigger] e[a[k] as int]).prev_in_ael
                == old_e[a[k] as int].prev_in_ael && e[a[k] as int].next_in_ael
                == old_e[a[k] as int].next_in_ael by {
                assert(a[k] < base);
            }
            let r = index_run(base as int, m as int);
            assert forall|k: int| 0 <= k < r.len() implies base <= #[trigger] r[k] < e.len() by {}
            assert forall|x: int, y: int| 0 <= x < y < r.len() implies r[x] != r[y] by {}
            assert forall|k: int| 0 <= k < r.len() implies (#[trigger] e[r[k] as int]).next == Some(
                r[succ(k, r.len() as int)],
            ) && e[r[k] as int].prev == Some(r[pred(k, r.len() as int)]) by {
                assert(e[base + k] == fresh_edge(
                    path@[k],
                    (base + succ(k, m as int)) as usize,
                    (base + pred(k, m as int)) as usize,
                ));
            }
        }
    }

    /// Unlinks the edge at position `pos` of a ring of new edges.
    fn unlink_ring_edge(&mut self, e: usize, rg: Ghost<Seq<usize>>, pos: Ghost<int>, lo: Ghost<int>) -> (r: usize)
        requires
            old(self).wf(),
            edge_ring(old(self).edges@, rg@, lo@),
            rg@.len() >= 2,
            0 <= pos@ < rg@.len(),
            rg@[pos@] == e,
            lo@ >= 0,
        ensures
            final(self).wf(),
            r == rg@[succ(pos@, rg@.len() as int)],
            edge_ring(final(self).edges@, rg@.remove(pos@), lo@),
            final(self).edges@.len() == old(self).edges@.len(),
            forall|k: int| 0 <= k < lo@ ==> #[trigger] final(self).edges@[k] == old(self).edges@[k],
            forall|k: int| 0 <= k < old(self).edges@.len() ==> (#[trigger] final(self).edges@[k]).same_values(old(self).edges@[k]),
            final(self).ael == old(self).ael,
            final(self).active_edges == old(self).active_edges,
            final(self).scanbeam == old(self).scanbeam,
            final(self).minima_list == old(self).minima_list,
            final(self).current_lm == old(self).current_lm,
            final(self).poly_outs == old(self).poly_outs,
            final(self).preserve_collinear == old(self).preserve_collinear,
            final(self).use_full_range == old(self).use_full_range,
            final(self).has_open_paths == old(self).has_open_paths,
    {
        let ghost n = rg@.len() as int;
        assert(old(self).edges@[e as int].next == Some(rg@[succ(pos@, n)]));
        assert(old(self).edges@[e as int].prev == Some(rg@[pred(pos@, n)]));
        let nx = self.remove_edge(e);
        proof {
            lemma_ring_remove(old(self).edges@, self.edges@, rg@, pos@, lo@);
            assert forall|k: int| 0 <= k < lo@ implies #[trigger] self.edges@[k] == old(self).edges@[k] by {
                assert(rg@[pos@] >= lo@);
                assert(rg@[pred(pos@, n)] >= lo@);
                assert(rg@[succ(pos@, n)] >= lo@);
            }
        }
        nx
    }

    /// Walks the ring of a new path from its first edge, unlinking an edge
    /// whose vertex repeats the next one (for an open path, not when the
    /// next is the start) and, for a closed path, an edge whose vertex is
    /// collinear with its neighbours (unless collinear vertices are kept and
    /// it lies between them); after an unlinking the walk restarts its
    /// round from the following edge. The walk ends when a full round
    /// changes nothing, when two edges remain, or (open path) before the
    /// start. Returns the edge where it ended, the start, and the ring left.
    #[verifier::rlimit(40)]
    #[verifier::spinoff_prover]
    fn remove_duplicate_vertices(
        &mut self,
        start: usize,
        closed: bool,
        ring: Ghost<Seq<usize>>,
        lo: Ghost<int>,
    ) -> (r: (usize, usize, Ghost<Seq<usize>>))
        requires
            old(self).wf(),
            edge_ring(old(self).edges@, ring@, lo@),
            ring@[0] == start,
            forall|i: int| 0 <= i < old(self).ael@.len() ==> #[trigger] old(self).ael@[i] < lo@,
            lo@ >= 0,
        ensures
            final(self).wf(),
            edge_ring(final(self).edges@, r.2@, lo@),
            r.2@.contains(r.0),
            r.2@.contains(r.1),
            r.2@.len() <= ring@.len(),
            forall|k: int| 0 <= k < r.2@.len() ==> ring@.contains(#[trigger] r.2@[k]),
            closed ==> r.2@.len() <= 2 || forall|q: int| 0 <= q < r.2@.len() ==> #[trigger] ring_vertex_kept(
                final(self).edges@,
                r.2@,
                q,
                final(self).preserve_collinear,
            ),
            final(self).edges@.len() == old(self).edges@.len(),
            forall|k: int| 0 <= k < lo@ ==> #[trigger] final(self).edges@[k] == old(self).edges@[k],
            forall|k: int| 0 <= k < old(self).edges@.len() ==> (#[trigger] final(self).edges@[k]).same_values(old(self).edges@[k]),
            final(self).ael == old(self).ael,
            final(self).active_edges == old(self).active_edges,
            final(self).scanbeam == old(self).scanbeam,
            final(self).minima_list == old(self).minima_list,
            final(self).current_lm == old(self).current_lm,
            final(self).poly_outs == old(self).poly_outs,
            final(self).preserve_collinear == old(self).preserve_collinear,
            final(self).use_full_range == old(self).use_full_range,
            final(self).has_open_paths == old(self).has_open_paths,
    {
        let ghost mut rg: Seq<usize> = ring@;
        let ghost mut pos: int = 0;
        let ghost mut spos: int = 0;
        let ghost mut lpos: int = 0;
        let mut e = start;
        let mut e_start = start;
        let mut e_loop_stop = start;
        let mut done = false;
        while !done
            invariant
                self.wf(),
                edge_ring(self.edges@, rg, lo@),
                0 <= pos < rg.len(),
                0 <= spos < rg.len(),
                0 <= lpos < rg.len(),
                e == rg[pos],
                e_start == rg[spos],
                e_loop_stop == rg[lpos],
                rg.len() <= ring@.len(),
                forall|k: int| 0 <= k < rg.len() ==> ring@.contains(#[trigger] rg[k]),
                closed ==> forall|q: int|
                    0 <= q < rg.len() && dist_from(lpos, q, rg.len() as int) < dist_from(lpos, pos, rg.len() as int)
                        ==> #[trigger] ring_vertex_kept(self.edges@, rg, q, self.preserve_collinear),
                closed && done ==> rg.len() <= 2 || forall|q: int| 0 <= q < rg.len() ==> #[trigger] ring_vertex_kept(
                    self.edges@,
                    rg,
                    q,
                    self.preserve_collinear,
                ),
                forall|i: int| 0 <= i < self.ael@.len() ==> #[trigger] self.ael@[i] < lo@,
                lo@ >= 0,
                self.edges@.len() == old(self).edges@.len(),
                forall|k: int| 0 <= k < lo@ ==> #[trigger] self.edges@[k] == old(self).edges@[k],
                forall|k: int| 0 <= k < old(self).edges@.len() ==> (#[trigger] self.edges@[k]).same_values(old(self).edges@[k]),
                self.ael == old(self).ael,
                self.active_edges == old(self).active_edges,
                self.scanbeam == old(self).scanbeam,
                self.minima_list == old(self).minima_list,
                self.current_lm == old(self).current_lm,
                self.poly_outs == old(self).poly_outs,
                self.preserve_collinear == old(self).preserve_collinear,
                self.use_full_range == old(self).use_full_range,
                self.has_open_paths == old(self).has_open_paths,
            decreases (if done { 0int } else { 1int }), rg.len(), (if lpos > pos { lpos - pos } else { lpos - pos + rg.len() }),
        {
            let ghost n = rg.len() as int;
            assert(self.edges@[e as int].next == Some(rg[succ(pos, n)]));
            assert(self.edges@[e as int].prev == Some(rg[pred(pos, n)]));
            let en = self.edges[e].next.unwrap();
            let ep = self.edges[e].prev.unwrap();
            let cur = self.edges[e].curr;
            let ncur = self.edges[en].curr;
            let pcur = self.edges[ep].curr;
            let dup = cur == ncur && (closed || en != e_start);
            let mut unlink = false;
            let mut step_back = false;
            if dup {
                if en == e {
                    proof {
                        assert(rg[succ(pos, n)] == rg[pos]);
                    }
                    done = true;
                } else {
                    unlink = true;
                }
            } else if ep == en {
                proof {
                    assert(rg[pred(pos, n)] == rg[succ(pos, n)]);
                }
                done = true;
            } else if closed && ClipperBaseStatic::slopes_equal(&pcur, &cur, &ncur, self.use_full_range) && (
            !self.preserve_collinear || !ClipperBaseStatic::pt2_is_between_pt1_and_pt3(&pcur, &cur, &ncur)) {
                unlink = true;
                step_back = true;
            } else {
                let ghost old_pos = pos;
                proof {
                    if closed {
                        assert(ring_vertex_kept(self.edges@, rg, pos, self.preserve_collinear));
                    }
                }
                e = en;
                proof {
                    pos = succ(pos, n);
                }
                let nn = self.edges[e].next;
                if e == e_loop_stop || (!closed && nn == Some(e_start)) {
                    done = true;
                }
                proof {
                    if closed {
                        if e == e_loop_stop {
                            assert(rg[pos] == rg[lpos]);
                            assert(pos == lpos);
                        }
                        assert forall|q: int|
                            0 <= q < n && dist_from(lpos, q, n) < dist_from(lpos, pos, n) implies #[trigger] ring_vertex_kept(
                            self.edges@,
                            rg,
                            q,
                            self.preserve_collinear,
                        ) by {
                            if q != old_pos {
                                assert(dist_from(lpos, q, n) < dist_from(lpos, old_pos, n));
                            }
                        }
                        if done {
                            assert forall|q: int| 0 <= q < n implies #[trigger] ring_vertex_kept(
                                self.edges@,
                                rg,
                                q,
                                self.preserve_collinear,
                            ) by {
                                if q != old_pos {
                                    assert(dist_from(lpos, q, n) < dist_from(lpos, old_pos, n));
                                }
                            }
                        }
                    }
                }
            }
            if unlink {
                proof {
                    if succ(pos, n) == pos {
                        assert(rg[succ(pos, n)] == rg[pos]);
                    }
                    assert(n >= 2);
                }
                if e == e_start {
                    e_start = en;
                }
                let nx = self.unlink_ring_edge(e, Ghost(rg), Ghost(pos), lo);
                let ghost r2 = rg.remove(pos);
                let ghost np = if pos < n - 1 { pos } else { 0 };
                proof {
                    assert(r2[np] == rg[succ(pos, n)]);
                    if spos == pos {
                        spos = np;
                    } else if spos > pos {
                        spos = spos - 1;
                    }
                    assert(r2[spos] == e_start);
                    assert forall|k: int| 0 <= k < r2.len() implies ring@.contains(#[trigger] r2[k]) by {
                        let ok = if k < pos { k } else { k + 1 };
                        assert(r2[k] == rg[ok]);
                    }
                    rg = r2;
                    pos = np;
                }
                if step_back {
                    assert(self.edges@[nx as int].prev == Some(r2[pred(np, r2.len() as int)]));
                    e = self.edges[nx].prev.unwrap();
                    proof {
                        pos = pred(np, r2.len() as int);
                    }
                } else {
                    e = nx;
                }
                e_loop_stop = e;
                proof {
                    lpos = pos;
                }
            }
        }
        proof {
            assert(rg[pos] == e);
            assert(rg[spos] == e_start);
        }
        (e, e_start, Ghost(rg))
    }

    /// Sets the end points, delta and polygon type of every edge of the
    /// ring, walking it once from `e_start`. Returns the last edge walked
    /// (the one before the start) and whether all vertices share one y.
    #[verifier::rlimit(50)]
    #[verifier::spinoff_prover]
    fn init_ring_geometry(
        &mut self,
        e_start: usize,
        poly_type: PolyType,
        rg: Ghost<Seq<usize>>,
        spos: Ghost<int>,
        lo: Ghost<int>,
    ) -> (r: (usize, bool))
        requires
            old(self).wf(),
            edge_ring(old(self).edges@, rg@, lo@),
            ring_in_range(old(self).edges@, rg@),
            0 <= spos@ < rg@.len(),
            rg@[spos@] == e_start,
            lo@ >= 0,
        ensures
            final(self).wf(),
            edge_ring(final(self).edges@, rg@, lo@),
            ring_in_range(final(self).edges@, rg@),
            r.0 == rg@[pred(spos@, rg@.len() as int)],
            r.1 == (forall|k: int| 0 <= k < rg@.len() ==> (#[trigger] old(self).edges@[rg@[k] as int]).curr.y == old(self).edges@[e_start as int].curr.y),
            final(self).edges@.len() == old(self).edges@.len(),
            forall|k: int| 0 <= k < rg@.len() ==> #[trigger] final(self).edges@[rg@[k] as int] == with_geometry(
                old(self).edges@[rg@[k] as int],
                old(self).edges@[rg@[succ(k, rg@.len() as int)] as int].curr,
                poly_type,
            ),
            forall|k: int| 0 <= k < old(self).edges@.len() && !rg@.contains(k as usize) ==> #[trigger] final(self).edges@[k] == old(self).edges@[k],
            final(self).ael == old(self).ael,
            final(self).active_edges == old(self).active_edges,
            final(self).scanbeam == old(self).scanbeam,
            final(self).minima_list == old(self).minima_list,
            final(self).current_lm == old(self).current_lm,
            final(self).poly_outs == old(self).poly_outs,
            final(self).preserve_collinear == old(self).preserve_collinear,
            final(self).use_full_range == old(self).use_full_range,
            final(self).has_open_paths == old(self).has_open_paths,
    {
        let ghost n = rg@.len() as int;
        let ghost r = rg@;
        let ghost oe = old(self).edges@;
        let ghost s0 = spos@;
        let y0 = self.edges[e_start].curr.y;
        let mut is_flat = true;
        let mut e = e_start;
        let ghost mut p: int = s0;
        let ghost mut j: int = 0;
        loop
            invariant_except_break
                0 <= j < n,
                0 <= p < n,
                dist_from(s0, p, n) == j,
                e == r[p],
                forall|q: int| 0 <= q < n && dist_from(s0, q, n) < j ==> #[trigger] self.edges@[r[q] as int] == with_geometry(
                    oe[r[q] as int],
                    oe[r[succ(q, n)] as int].curr,
                    poly_type,
                ),
                forall|q: int| 0 <= q < n && dist_from(s0, q, n) >= j ==> #[trigger] self.edges@[r[q] as int] == oe[r[q] as int],
                is_flat == (forall|q: int| 0 <= q < n && 1 <= dist_from(s0, q, n) <= j ==> (#[trigger] oe[r[q] as int]).curr.y == y0),
            invariant
                self.wf(),
                n == r.len(),
                oe == old(self).edges@,
                edge_ring(oe, r, lo@),
                ring_in_range(oe, r),
                0 <= s0 < n,
                r[s0] == e_start,
                y0 == oe[e_start as int].curr.y,
                self.edges@.len() == oe.len(),
                forall|k: int| 0 <= k < oe.len() && !r.contains(k as usize) ==> #[trigger] self.edges@[k] == oe[k],
                self.ael == old(self).ael,
                self.active_edges == old(self).active_edges,
                self.scanbeam == old(self).scanbeam,
                self.minima_list == old(self).minima_list,
                self.current_lm == old(self).current_lm,
                self.poly_outs == old(self).poly_outs,
                self.preserve_collinear == old(self).preserve_collinear,
                self.use_full_range == old(self).use_full_range,
                self.has_open_paths == old(self).has_open_paths,
            ensures
                j == n - 1,
                p == pred(s0, n),
                e == r[p],
                forall|q: int| 0 <= q < n ==> #[trigger] self.edges@[r[q] as int] == with_geometry(
                    oe[r[q] as int],
                    oe[r[succ(q, n)] as int].curr,
                    poly_type,
                ),
                forall|k: int| 0 <= k < oe.len() && !r.contains(k as usize) ==> #[trigger] self.edges@[k] == oe[k],
                is_flat == (forall|q: int| 0 <= q < n ==> (#[trigger] oe[r[q] as int]).curr.y == y0),
                self.wf(),
                self.edges@.len() == oe.len(),
                self.ael == old(self).ael,
                self.active_edges == old(self).active_edges,
                self.scanbeam == old(self).scanbeam,
                self.minima_list == old(self).minima_list,
                self.current_lm == old(self).current_lm,
                self.poly_outs == old(self).poly_outs,
                self.preserve_collinear == old(self).preserve_collinear,
                self.use_full_range == old(self).use_full_range,
                self.has_open_paths == old(self).has_open_paths,
            decreases n - j,
        {
            let ghost before = self.edges@;
            assert(oe[e as int].next == Some(r[succ(p, n)]));
            assert(self.edges@[e as int] == oe[e as int]);
            let nx = self.edges[e].next.unwrap();
            proof {
                if succ(p, n) != p {
                    assert(r[succ(p, n)] != r[p]);
                }
            }
            let ghost sp = succ(p, n);
            assert(self.edges@[nx as int].curr == oe[nx as int].curr) by {
                if sp == p {
                } else if dist_from(s0, sp, n) >= j {
                    assert(self.edges@[r[sp] as int] == oe[r[sp] as int]);
                } else {
                    assert(self.edges@[r[sp] as int] == with_geometry(
                        oe[r[sp] as int],
                        oe[r[succ(sp, n)] as int].curr,
                        poly_type,
                    ));
                }
            }
            self.init_edge2(e, poly_type);
            proof {
                assert forall|q: int| 0 <= q < n && dist_from(s0, q, n) < j + 1 implies #[trigger] self.edges@[r[q] as int] == with_geometry(
                    oe[r[q] as int],
                    oe[r[succ(q, n)] as int].curr,
                    poly_type,
                ) by {
                    if q != p {
                        assert(r[q] != r[p]);
                    }
                }
                assert forall|q: int| 0 <= q < n && dist_from(s0, q, n) >= j + 1 implies #[trigger] self.edges@[r[q] as int] == oe[r[q] as int] by {
                    assert(r[q] != r[p]);
                }
                assert forall|k: int| 0 <= k < oe.len() && !r.contains(k as usize) implies #[trigger] self.edges@[k] == oe[k] by {
                    if k == e {
                        assert(r.contains(k as usize));
                    }
                }
            }
            let ncy = self.edges[nx].curr.y;
            assert(ncy == oe[r[sp] as int].curr.y);
            let ghost was_flat = is_flat;
            if is_flat && ncy != y0 {
                is_flat = false;
            }
            if nx == e_start {
                proof {
                    assert(r[sp] == r[s0]);
                    assert(sp == s0);
                    assert(dist_from(s0, p, n) == n - 1);
                    assert forall|q: int| 0 <= q < n implies #[trigger] self.edges@[r[q] as int] == with_geometry(
                        oe[r[q] as int],
                        oe[r[succ(q, n)] as int].curr,
                        poly_type,
                    ) by {
                        assert(dist_from(s0, q, n) < j + 1);
                    }
                    assert(is_flat == (forall|q: int| 0 <= q < n ==> (#[trigger] oe[r[q] as int]).curr.y == y0)) by {
                        if is_flat {
                            assert forall|q: int| 0 <= q < n implies (#[trigger] oe[r[q] as int]).curr.y == y0 by {
                                if q != s0 {
                                    assert(1 <= dist_from(s0, q, n) <= j);
                                }
                            }
                        }
                    }
                    j = n - 1;
                }
                break;
            }
            proof {
                assert(dist_from(s0, sp, n) == j + 1);
                assert(is_flat == (forall|q: int| 0 <= q < n && 1 <= dist_from(s0, q, n) <= j + 1 ==> (#[trigger] oe[r[q] as int]).curr.y == y0)) by {
                    if was_flat && ncy == y0 {
                        assert forall|q: int| 0 <= q < n && 1 <= dist_from(s0, q, n) <= j + 1 implies (#[trigger] oe[r[q] as int]).curr.y == y0 by {
                            if dist_from(s0, q, n) == j + 1 {
                                assert(q == sp);
                            }
                        }
                    }
                    if !was_flat {
                        let q0 = choose|q: int| !(0 <= q < n && 1 <= dist_from(s0, q, n) <= j ==> (#[trigger] oe[r[q] as int]).curr.y == y0);
                        assert(0 <= q0 < n && 1 <= dist_from(s0, q0, n) <= j + 1 && oe[r[q0] as int].curr.y != y0);
                    }
                }
                p = sp;
                j = j + 1;
            }
            e = nx;
        }
        proof {
            assert(p == pred(s0, n));
        }
        (e, is_flat)
    }

    /// Replaces edge `e` by `t`, which keeps its active-edge-list links.
    fn put_edge(&mut self, e: usize, t: TEdge)
        requires
            old(self).wf(),
            e < old(self).edges@.len(),
            t.prev_in_ael == old(self).edges@[e as int].prev_in_ael,
            t.next_in_ael == old(self).edges@[e as int].next_in_ael,
        ensures
            final(self).wf(),
            final(self).edges@ == old(self).edges@.update(e as int, t),
            final(self).ael == old(self).ael,
            final(self).active_edges == old(self).active_edges,
            final(self).scanbeam == old(self).scanbeam,
            final(self).minima_list == old(self).minima_list,
            final(self).current_lm == old(self).current_lm,
            final(self).poly_outs == old(self).poly_outs,
            final(self).preserve_collinear == old(self).preserve_collinear,
            final(self).use_full_range == old(self).use_full_range,
            final(self).has_open_paths == old(self).has_open_paths,
    {
        self.edges.set(e, t);
        proof {
            let a = self.ael@;
            assert forall|k: int| 0 <= k < a.len() implies (#[trigger] self.edges@[a[k] as int]).prev_in_ael
                == old(self).edges@[a[k] as int].prev_in_ael && self.edges@[a[k] as int].next_in_ael
                == old(self).edges@[a[k] as int].next_in_ael by {}
        }
    }

    /// Whether the slope of `a` is below that of `b` (see `dx_less`).
    fn dx_is_less(a: &TEdge, b: &TEdge) -> (r: bool)
        ensures
            r == dx_less(*a, *b),
    {
        if a.delta.y == 0 {
            b.delta.y != 0
        } else if b.delta.y == 0 {
            false
        } else {
            compare_products(a.delta.x as i128, b.delta.y as i128, b.delta.x as i128, a.delta.y as i128) < 0
        }
    }

    /// Replaces ring edge `e` by `t`, which keeps its links.
    fn put_ring_edge(&mut self, e: usize, t: TEdge, rg: Ghost<Seq<usize>>, lo: Ghost<int>)
        requires
            kept(*old(self), *old(self), rg@, lo@),
            rg@.contains(e),
            t.next == old(self).edges@[e as int].next,
            t.prev == old(self).edges@[e as int].prev,
            t.prev_in_ael == old(self).edges@[e as int].prev_in_ael,
            t.next_in_ael == old(self).edges@[e as int].next_in_ael,
        ensures
            kept(*old(self), *final(self), rg@, lo@),
            final(self).edges@ == old(self).edges@.update(e as int, t),
            final(self).minima_list == old(self).minima_list,
    {
        proof {
            lemma_ring_neighbours(self.edges@, rg@, lo@, e);
        }
        self.put_edge(e, t);
        proof {
            lemma_ring_kept(old(self).edges@, self.edges@, rg@, lo@);
        }
    }

    /// Swaps the top and bottom x of ring edge `e`.
    fn flip_horizontal(&mut self, e: usize, rg: Ghost<Seq<usize>>, lo: Ghost<int>)
        requires
            kept(*old(self), *old(self), rg@, lo@),
            rg@.contains(e),
        ensures
            kept(*old(self), *final(self), rg@, lo@),
            ({
                let old_e = old(self).edges@[e as int];
                final(self).edges@ == old(self).edges@.update(
                    e as int,
                    TEdge {
                        top: IntPoint { x: old_e.bot.x, ..old_e.top },
                        bot: IntPoint { x: old_e.top.x, ..old_e.bot },
                        ..old_e
                    },
                )
            }),
            final(self).minima_list == old(self).minima_list,
    {
        proof {
            lemma_ring_neighbours(self.edges@, rg@, lo@, e);
        }
        self.reverse_horizontal(e);
        proof {
            lemma_ring_kept(old(self).edges@, self.edges@, rg@, lo@);
        }
    }

    /// Lists local minimum `lm`, whose bounds are ring edges.
    fn add_minimum(&mut self, lm: LocalMinima, rg: Ghost<Seq<usize>>, lo: Ghost<int>)
        requires
            kept(*old(self), *old(self), rg@, lo@),
            lm.left_bound matches Some(x) ==> rg@.contains(x),
            lm.right_bound matches Some(x) ==> rg@.contains(x),
        ensures
            kept(*old(self), *final(self), rg@, lo@),
            final(self).minima_list@.contains(lm),
            final(self).minima_list@.len() == old(self).minima_list@.len() + 1,
            final(self).edges == old(self).edges,
            forall|m: LocalMinima| #[trigger] final(self).minima_list@.contains(m) ==> old(self).minima_list@.contains(m) || m
                == lm,
    {
        proof {
            if let Some(x) = lm.left_bound {
                lemma_ring_neighbours(self.edges@, rg@, lo@, x);
            }
            if let Some(x) = lm.right_bound {
                lemma_ring_neighbours(self.edges@, rg@, lo@, x);
            }
        }
        self.insert_local_minima(lm);
        proof {
            let k = choose|k: int|
                0 <= k <= old(self).minima_list@.len() && self.minima_list@ == old(self).minima_list@.insert(k, lm) && (forall|i: int|
                    0 <= i < k ==> old(self).minima_list@[i].y > lm.y) && (forall|i: int|
                    k <= i < old(self).minima_list@.len() ==> old(self).minima_list@[i].y <= lm.y);
            let ml = self.minima_list@;
            let om = old(self).minima_list@;
            assert(ml[k] == lm);
            assert forall|m: LocalMinima| om.contains(m) implies ml.contains(m) by {
                let i = choose|i: int| 0 <= i < om.len() && om[i] == m;
                if i < k {
                    assert(ml[i] == m);
                } else {
                    assert(ml[i + 1] == m);
                }
            }
            assert forall|i: int| 0 <= i < ml.len() implies ((#[trigger] ml[i]).left_bound is Some ==> ml[i].left_bound->0 < self.edges@.len()) && (
                ml[i].right_bound is Some ==> ml[i].right_bound->0 < self.edges@.len()) by {
                if i < k {
                    assert(ml[i] == om[i]);
                } else if i > k {
                    assert(ml[i] == om[i - 1]);
                }
            }
        }
    }

    /// From edge `e0`, walks forward (or backward) while an edge meets the
    /// next edge of the walk (see `chain_goes_on`) and returns the edge where
    /// it stops; `None` when `bound` steps do not reach one.
    fn chain_end(
        &self,
        e0: usize,
        fwd: bool,
        skip: bool,
        rg: Ghost<Seq<usize>>,
        lo: Ghost<int>,
        bound: usize,
    ) -> (r: Option<usize>)
        requires
            edge_ring(self.edges@, rg@, lo@),
            rg@.contains(e0),
        ensures
            r matches Some(x) ==> rg@.contains(x),
            bound >= rg@.len() && chain_stops(self.edges@, rg@, fwd) ==> r is Some,
    {
        let ghost n = rg@.len() as int;
        let ghost hyp = bound >= rg@.len() && chain_stops(self.edges@, rg@, fwd);
        let ghost p0 = choose|p: int| 0 <= p < n && rg@[p] == e0;
        let ghost mut pos = p0;
        let mut e = e0;
        let mut k: usize = 0;
        loop
            invariant
                edge_ring(self.edges@, rg@, lo@),
                n == rg@.len(),
                0 <= p0 < n,
                0 <= pos < n,
                rg@[pos] == e,
                rg@.contains(e),
                hyp == (bound >= rg@.len() && chain_stops(self.edges@, rg@, fwd)),
                hyp ==> k == walk_dist(p0, pos, n, fwd),
                hyp ==> forall|q: int| 0 <= q < n && walk_dist(p0, q, n, fwd) < k ==> #[trigger] chain_goes_on(self.edges@, rg@, q, fwd, false),
            decreases bound - k,
        {
            assert(self.edges@[rg@[pos] as int].next == Some(rg@[succ(pos, n)]));
            assert(self.edges@[rg@[pos] as int].prev == Some(rg@[pred(pos, n)]));
            let nx = if fwd {
                self.ring_next(e, rg, lo)
            } else {
                self.ring_prev(e, rg, lo)
            };
            if !(self.edges[e].top.y == self.edges[nx].bot.y && (!skip || self.edges[nx].out_idx != SKIP)) {
                break;
            }
            if k >= bound {
                return None;
            }
            proof {
                if hyp {
                    assert(chain_goes_on(self.edges@, rg@, pos, fwd, false));
                    if k + 1 >= n {
                        assert forall|q: int| 0 <= q < n implies #[trigger] chain_goes_on(self.edges@, rg@, q, fwd, false) by {
                            if q != pos {
                                assert(walk_dist(p0, q, n, fwd) < k);
                            }
                        }
                        assert(false);
                    }
                    let np = step_pos(pos, n, fwd);
                    assert(walk_dist(p0, np, n, fwd) == k + 1);
                    assert forall|q: int| 0 <= q < n && walk_dist(p0, q, n, fwd) < k + 1 implies #[trigger] chain_goes_on(
                        self.edges@,
                        rg@,
                        q,
                        fwd,
                        false,
                    ) by {
                        if q != pos {
                            assert(walk_dist(p0, q, n, fwd) < k);
                        }
                    }
                }
                pos = step_pos(pos, n, fwd);
            }
            k += 1;
            e = nx;
        }
        Some(e)
    }

    /// From edge `e0`, walks forward (or backward) while the edge is not
    /// `stop` and is horizontal; returns the edge where it stops; `None`
    /// when `bound` steps do not reach one.
    fn flat_walk(
        &self,
        e0: usize,
        fwd: bool,
        stop: usize,
        rg: Ghost<Seq<usize>>,
        lo: Ghost<int>,
        bound: usize,
    ) -> (r: Option<usize>)
        requires
            edge_ring(self.edges@, rg@, lo@),
            rg@.contains(e0),
            rg@.contains(stop),
        ensures
            r matches Some(x) ==> rg@.contains(x) && (x == stop || self.edges@[x as int].delta.y != 0),
            bound >= rg@.len() ==> r is Some,
    {
        let ghost n = rg@.len() as int;
        let ghost hyp = bound >= rg@.len();
        let ghost p0 = choose|p: int| 0 <= p < n && rg@[p] == e0;
        let ghost mut pos = p0;
        let mut e = e0;
        let mut k: usize = 0;
        loop
            invariant
                edge_ring(self.edges@, rg@, lo@),
                n == rg@.len(),
                0 <= p0 < n,
                0 <= pos < n,
                rg@[pos] == e,
                rg@.contains(e),
                rg@.contains(stop),
                hyp == (bound >= rg@.len()),
                hyp ==> k == walk_dist(p0, pos, n, fwd),
                hyp ==> forall|q: int| 0 <= q < n && walk_dist(p0, q, n, fwd) < k ==> #[trigger] rg@[q] != stop,
            ensures
                rg@.contains(e),
                e == stop || self.edges@[e as int].delta.y != 0,
            decreases bound - k,
        {
            if e == stop || self.edges[e].delta.y != 0 {
                break;
            }
            if k >= bound {
                return None;
            }
            assert(self.edges@[rg@[pos] as int].next == Some(rg@[succ(pos, n)]));
            assert(self.edges@[rg@[pos] as int].prev == Some(rg@[pred(pos, n)]));
            let nx = if fwd {
                self.ring_next(e, rg, lo)
            } else {
                self.ring_prev(e, rg, lo)
            };
            proof {
                if hyp {
                    if k + 1 >= n {
                        let qs = choose|q: int| 0 <= q < n && rg@[q] == stop;
                        if qs != pos {
                            assert(walk_dist(p0, qs, n, fwd) < k);
                        }
                        assert(false);
                    }
                    let np = step_pos(pos, n, fwd);
                    assert(walk_dist(p0, np, n, fwd) == k + 1);
                    assert forall|q: int| 0 <= q < n && walk_dist(p0, q, n, fwd) < k + 1 implies #[trigger] rg@[q] != stop by {
                        if q != pos {
                            assert(walk_dist(p0, q, n, fwd) < k);
                        }
                    }
                }
                pos = step_pos(pos, n, fwd);
            }
            k += 1;
            e = nx;
        }
        Some(e)
    }

    /// From edge `e0`, walks forward (or backward) while the next edge of
    /// the walk is horizontal; returns the edge where it stops; `None` when
    /// `bound` steps do not reach one.
    fn flat_run_end(&self, e0: usize, fwd: bool, rg: Ghost<Seq<usize>>, lo: Ghost<int>, bound: usize) -> (r: Option<usize>)
        requires
            edge_ring(self.edges@, rg@, lo@),
            rg@.contains(e0),
        ensures
            r matches Some(x) ==> rg@.contains(x),
            bound >= rg@.len() && has_slope(self.edges@, rg@) ==> r is Some,
    {
        let ghost n = rg@.len() as int;
        let ghost hyp = bound >= rg@.len() && has_slope(self.edges@, rg@);
        let ghost p0 = choose|p: int| 0 <= p < n && rg@[p] == e0;
        let ghost mut pos = p0;
        let mut e = e0;
        let mut k: usize = 0;
        loop
            invariant
                edge_ring(self.edges@, rg@, lo@),
                n == rg@.len(),
                0 <= p0 < n,
                0 <= pos < n,
                rg@[pos] == e,
                rg@.contains(e),
                hyp == (bound >= rg@.len() && has_slope(self.edges@, rg@)),
                hyp ==> k == walk_dist(p0, pos, n, fwd),
                hyp ==> forall|q: int|
                    0 <= q < n && walk_dist(p0, q, n, fwd) < k ==> #[trigger] self.edges@[rg@[step_pos(q, n, fwd)] as int].delta.y
                        == 0,
            decreases bound - k,
        {
            assert(self.edges@[rg@[pos] as int].next == Some(rg@[succ(pos, n)]));
            assert(self.edges@[rg@[pos] as int].prev == Some(rg@[pred(pos, n)]));
            let nx = if fwd {
                self.ring_next(e, rg, lo)
            } else {
                self.ring_prev(e, rg, lo)
            };
            if self.edges[nx].delta.y != 0 {
                break;
            }
            if k >= bound {
                return None;
            }
            proof {
                if hyp {
                    if k + 1 >= n {
                        let h = choose|h: int| 0 <= h < n && #[trigger] self.edges@[rg@[h] as int].delta.y != 0;
                        let q = if fwd { pred(h, n) } else { succ(h, n) };
                        assert(step_pos(q, n, fwd) == h);
                        if q != pos {
                            assert(walk_dist(p0, q, n, fwd) < k);
                        }
                        assert(false);
                    }
                    let np = step_pos(pos, n, fwd);
                    assert(walk_dist(p0, np, n, fwd) == k + 1);
                    assert forall|q: int|
                        0 <= q < n && walk_dist(p0, q, n, fwd) < k + 1 implies #[trigger] self.edges@[rg@[step_pos(
                        q,
                        n,
                        fwd,
                    )] as int].delta.y == 0 by {
                        if q != pos {
                            assert(walk_dist(p0, q, n, fwd) < k);
                        }
                    }
                }
                pos = step_pos(pos, n, fwd);
            }
            k += 1;
            e = nx;
        }
        Some(e)
    }

    /// The edge after ring edge `e`.
    fn ring_next(&self, e: usize, rg: Ghost<Seq<usize>>, lo: Ghost<int>) -> (r: usize)
        requires
            edge_ring(self.edges@, rg@, lo@),
            rg@.contains(e),
        ensures
            self.edges@[e as int].next == Some(r),
            rg@.contains(r),
            r < self.edges@.len(),
    {
        proof {
            lemma_ring_neighbours(self.edges@, rg@, lo@, e);
            lemma_ring_neighbours(self.edges@, rg@, lo@, self.edges@[e as int].next->0);
        }
        self.edges[e].next.unwrap()
    }

    /// The edge before ring edge `e`.
    fn ring_prev(&self, e: usize, rg: Ghost<Seq<usize>>, lo: Ghost<int>) -> (r: usize)
        requires
            edge_ring(self.edges@, rg@, lo@),
            rg@.contains(e),
        ensures
            self.edges@[e as int].prev == Some(r),
            rg@.contains(r),
            r < self.edges@.len(),
    {
        proof {
            lemma_ring_neighbours(self.edges@, rg@, lo@, e);
            lemma_ring_neighbours(self.edges@, rg@, lo@, self.edges@[e as int].prev->0);
        }
        self.edges[e].prev.unwrap()
    }

    /// Links edge `e` of a ring to the edge `to` that follows it in its
    /// bound, and flips it when it is a horizontal (other than the bound's
    /// first edge `first`) whose bottom does not meet the top of the edge
    /// before it in the bound (`behind`).
    fn link_in_bound(
        &mut self,
        e: usize,
        to: Option<usize>,
        behind: usize,
        first: usize,
        rg: Ghost<Seq<usize>>,
        lo: Ghost<int>,
    )
        requires
            kept(*old(self), *old(self), rg@, lo@),
            rg@.contains(e),
            rg@.contains(behind),
            to matches Some(x) ==> rg@.contains(x),
        ensures
            kept(*old(self), *final(self), rg@, lo@),
            final(self).minima_list == old(self).minima_list,
            same_frame(old(self).edges@, final(self).edges@, rg@),
            ({
                let oe = old(self).edges@[e as int];
                let linked = match to {
                    Some(x) => TEdge { next_in_lml: Some(x), ..oe },
                    None => oe,
                };
                let t = old(self).edges@.update(e as int, linked);
                if linked.delta.y == 0 && e != first && linked.bot.x != t[behind as int].top.x {
                    final(self).edges@ == t.update(
                        e as int,
                        TEdge {
                            top: IntPoint { x: linked.bot.x, ..linked.top },
                            bot: IntPoint { x: linked.top.x, ..linked.bot },
                            ..linked
                        },
                    )
                } else {
                    final(self).edges@ == t
                }
            }),
    {
        proof {
            lemma_ring_neighbours(self.edges@, rg@, lo@, e);
            lemma_ring_neighbours(self.edges@, rg@, lo@, behind);
        }
        match to {
            Some(x) => {
                let mut t = self.edges[e];
                t.next_in_lml = Some(x);
                self.put_ring_edge(e, t, rg, lo);
            },
            None => {},
        }
        let ghost mid = *self;
        proof {
            lemma_frame_update(old(self).edges@, mid.edges@, rg@, e as int);
        }
        if self.edges[e].delta.y == 0 && e != first && self.edges[e].bot.x != self.edges[behind].top.x {
            self.flip_horizontal(e, rg, lo);
            proof {
                lemma_kept_trans(*old(self), mid, *self, rg@, lo@);
                lemma_frame_update(mid.edges@, self.edges@, rg@, e as int);
                lemma_same_frame_trans(old(self).edges@, mid.edges@, self.edges@, rg@);
            }
        }
    }

    /// Builds the bound that starts at edge `e0` of a ring, walking forward
    /// (`next`) or backward (`prev`), and returns the edge just beyond it.
    ///
    /// An edge marked `SKIP` (the closing edge of an open path) ends a
    /// bound: when further edges of the bound lie beyond it, they start a
    /// bound of a new local minimum without left bound. Otherwise a first
    /// horizontal is turned to continue from the edge before it; the bound
    /// then runs while each edge's top meets the next edge's bottom, taking
    /// a closing run of horizontals only when it heads away from the other
    /// side, links its edges in order, and turns each horizontal to follow
    /// the bound. Walks are bounded by `bound` steps and skip chains by
    /// `depth`; `None` when one is exhausted.
    #[verifier::rlimit(50)]
    #[verifier::spinoff_prover]
    fn process_bound(
        &mut self,
        e0: usize,
        fwd: bool,
        rg: Ghost<Seq<usize>>,
        lo: Ghost<int>,
        bound: usize,
        depth: u8,
    ) -> (r: Option<usize>)
        requires
            kept(*old(self), *old(self), rg@, lo@),
            rg@.contains(e0),
        ensures
            kept(*old(self), *final(self), rg@, lo@),
            r matches Some(x) ==> rg@.contains(x),
            old(self).edges@[e0 as int].out_idx != SKIP ==> (r matches Some(x) ==> forall|p: int|
                0 <= p < rg@.len() && rg@[p] == e0 ==> exists|q: int|
                    0 <= q < rg@.len() && #[trigger] bound_run(final(self).edges@, rg@, p, q, fwd) && x == rg@[if fwd {
                        succ(q, rg@.len() as int)
                    } else {
                        pred(q, rg@.len() as int)
                    }]),
            bound >= rg@.len() && bound_walks_end(old(self).edges@, rg@, fwd) && (old(self).edges@[e0 as int].out_idx
                == SKIP ==> depth > 0) ==> r is Some,
            same_frame(old(self).edges@, final(self).edges@, rg@),
            minima_from(old(self).minima_list@, final(self).minima_list@, final(self).edges@, rg@),
        decreases depth,
    {
        let result0 = e0;
        proof {
            lemma_same_frame_refl(self.edges@, rg@);
            lemma_minima_from_same(self.minima_list@, self.edges@, rg@);
        }
        if self.edges[e0].out_idx == SKIP {
            let e_a = match self.chain_end(e0, fwd, false, rg, lo, bound) {
                Some(x) => x,
                None => {
                    return None;
                },
            };
            let e = match self.flat_walk(e_a, !fwd, result0, rg, lo, bound) {
                Some(x) => x,
                None => {
                    return None;
                },
            };
            if e == result0 {
                let r = if fwd {
                    self.ring_next(e, rg, lo)
                } else {
                    self.ring_prev(e, rg, lo)
                };
                return Some(r);
            }
            let e1 = if fwd {
                self.ring_next(result0, rg, lo)
            } else {
                self.ring_prev(result0, rg, lo)
            };
            let lm = LocalMinima { y: self.edges[e1].bot.y, left_bound: None, right_bound: Some(e1) };
            proof {
                lemma_ring_neighbours(self.edges@, rg@, lo@, e1);
            }
            let mut t = self.edges[e1];
            t.wind_delta = 0;
            self.put_ring_edge(e1, t, rg, lo);
            proof {
                lemma_frame_update(old(self).edges@, self.edges@, rg@, e1 as int);
                lemma_minima_from_same(self.minima_list@, self.edges@, rg@);
            }
            if depth == 0 {
                return None;
            }
            let ghost s1 = *self;
            proof {
                if bound >= rg@.len() && bound_walks_end(old(self).edges@, rg@, fwd) {
                    let n = rg@.len() as int;
                    lemma_same_frame_walks(old(self).edges@, self.edges@, rg@, fwd);
                    let p = choose|p: int| 0 <= p < n && rg@[p] == e0;
                    assert(old(self).edges@[rg@[p] as int].next == Some(rg@[succ(p, n)]));
                    assert(old(self).edges@[rg@[p] as int].prev == Some(rg@[pred(p, n)]));
                    assert(old(self).edges@[rg@[p] as int].out_idx == SKIP);
                    assert(self.edges@[e1 as int].out_idx != SKIP);
                }
            }
            let r = self.process_bound(e1, fwd, rg, lo, bound, depth - 1);
            let ghost s2 = *self;
            self.add_minimum(lm, rg, lo);
            proof {
                lemma_kept_trans(*old(self), s1, s2, rg@, lo@);
                lemma_kept_trans(*old(self), s2, *self, rg@, lo@);
                lemma_same_frame_trans(old(self).edges@, s1.edges@, s2.edges@, rg@);
                lemma_skip_minimum_frame(old(self).edges@, self.edges@, rg@, e1, lm.y);
                lemma_minima_add(s2.minima_list@, self.minima_list@, self.edges@, rg@, lm);
                lemma_same_frame_refl(self.edges@, rg@);
                lemma_same_frame_trans(s1.edges@, s2.edges@, self.edges@, rg@);
                lemma_minima_from_trans(s1.minima_list@, s2.minima_list@, self.minima_list@, s2.edges@, self.edges@, rg@);
                lemma_minima_from_trans(old(self).minima_list@, s1.minima_list@, self.minima_list@, s1.edges@, self.edges@, rg@);
            }
            return r;
        }
        let r = self.build_bound(e0, fwd, rg, lo, bound);
        proof {
            lemma_minima_from_same(self.minima_list@, self.edges@, rg@);
        }
        r
    }

    /// Builds a bound that does not start at a closing edge (see
    /// `process_bound`).
    #[verifier::rlimit(50)]
    #[verifier::spinoff_prover]
    fn build_bound(&mut self, e0: usize, fwd: bool, rg: Ghost<Seq<usize>>, lo: Ghost<int>, bound: usize) -> (r: Option<usize>)
        requires
            kept(*old(self), *old(self), rg@, lo@),
            rg@.contains(e0),
        ensures
            kept(*old(self), *final(self), rg@, lo@),
            r matches Some(x) ==> rg@.contains(x),
            r matches Some(x) ==> forall|p: int|
                0 <= p < rg@.len() && rg@[p] == e0 ==> exists|q: int|
                    0 <= q < rg@.len() && #[trigger] bound_run(final(self).edges@, rg@, p, q, fwd) && x == rg@[if fwd {
                        succ(q, rg@.len() as int)
                    } else {
                        pred(q, rg@.len() as int)
                    }],
            bound >= rg@.len() && bound_walks_end(old(self).edges@, rg@, fwd) ==> r is Some,
            same_frame(old(self).edges@, final(self).edges@, rg@),
            final(self).minima_list == old(self).minima_list,
    {
        let e = e0;
        let ghost s_f = *self;
        if self.edges[e].delta.y == 0 {
            let es = if fwd {
                self.ring_prev(e, rg, lo)
            } else {
                self.ring_next(e, rg, lo)
            };
            let ebx = self.edges[e].bot.x;
            let flip = if self.edges[es].delta.y == 0 {
                self.edges[es].bot.x != ebx && self.edges[es].top.x != ebx
            } else {
                self.edges[es].bot.x != ebx
            };
            if flip {
                self.flip_horizontal(e, rg, lo);
            }
        }
        proof {
            lemma_frame_update(old(self).edges@, self.edges@, rg@, e as int);
            if bound >= rg@.len() && bound_walks_end(old(self).edges@, rg@, fwd) {
                lemma_same_frame_walks(old(self).edges@, self.edges@, rg@, fwd);
            }
        }
        let e_start = e;
        let mut result = e;
        if fwd {
            result = match self.chain_end(e, true, true, rg, lo, bound) {
                Some(x) => x,
                None => {
                    return None;
                },
            };
            let rn = self.ring_next(result, rg, lo);
            if self.edges[result].delta.y == 0 && self.edges[rn].out_idx != SKIP {
                let hz = match self.flat_run_end(result, false, rg, lo, bound) {
                    Some(x) => x,
                    None => {
                        return None;
                    },
                };
                let hp = self.ring_prev(hz, rg, lo);
                if self.edges[hp].top.x > self.edges[rn].top.x {
                    result = hp;
                }
            }
            let ghost s_l = *self;
            if !self.link_bound(e_start, result, true, rg, lo, bound) {
                proof {
                    lemma_kept_trans(*old(self), s_l, *self, rg@, lo@);
                    lemma_same_frame_trans(old(self).edges@, s_l.edges@, self.edges@, rg@);
                }
                return None;
            }
            proof {
                lemma_kept_trans(*old(self), s_l, *self, rg@, lo@);
                lemma_same_frame_trans(old(self).edges@, s_l.edges@, self.edges@, rg@);
            }
            let x = self.ring_next(result, rg, lo);
            proof {
                let n = rg@.len() as int;
                let q = choose|q: int| 0 <= q < n && rg@[q] == result;
                assert(self.edges@[rg@[q] as int].next == Some(rg@[succ(q, n)]));
                assert(self.edges@[rg@[q] as int].prev == Some(rg@[pred(q, n)]));
                assert forall|p: int| 0 <= p < n && rg@[p] == e0 implies exists|q2: int|
                    0 <= q2 < n && #[trigger] bound_run(self.edges@, rg@, p, q2, fwd) && x == rg@[if fwd {
                        succ(q2, n)
                    } else {
                        pred(q2, n)
                    }] by {
                    assert(bound_run(self.edges@, rg@, p, q, fwd));
                }
            }
            Some(x)
        } else {
            result = match self.chain_end(e, false, true, rg, lo, bound) {
                Some(x) => x,
                None => {
                    return None;
                },
            };
            let rp = self.ring_prev(result, rg, lo);
            if self.edges[result].delta.y == 0 && self.edges[rp].out_idx != SKIP {
                let hz = match self.flat_run_end(result, true, rg, lo, bound) {
                    Some(x) => x,
                    None => {
                        return None;
                    },
                };
                let hn = self.ring_next(hz, rg, lo);
                if self.edges[hn].top.x >= self.edges[rp].top.x {
                    result = hn;
                }
            }
            let ghost s_l = *self;
            if !self.link_bound(e_start, result, false, rg, lo, bound) {
                proof {
                    lemma_kept_trans(*old(self), s_l, *self, rg@, lo@);
                    lemma_same_frame_trans(old(self).edges@, s_l.edges@, self.edges@, rg@);
                }
                return None;
            }
            proof {
                lemma_kept_trans(*old(self), s_l, *self, rg@, lo@);
                lemma_same_frame_trans(old(self).edges@, s_l.edges@, self.edges@, rg@);
            }
            let x = self.ring_prev(result, rg, lo);
            proof {
                let n = rg@.len() as int;
                let q = choose|q: int| 0 <= q < n && rg@[q] == result;
                assert(self.edges@[rg@[q] as int].next == Some(rg@[succ(q, n)]));
                assert(self.edges@[rg@[q] as int].prev == Some(rg@[pred(q, n)]));
                assert forall|p: int| 0 <= p < n && rg@[p] == e0 implies exists|q2: int|
                    0 <= q2 < n && #[trigger] bound_run(self.edges@, rg@, p, q2, fwd) && x == rg@[if fwd {
                        succ(q2, n)
                    } else {
                        pred(q2, n)
                    }] by {
                    assert(bound_run(self.edges@, rg@, p, q, fwd));
                }
            }
            Some(x)
        }
    }

    /// Links the edges of a bound in order, from its first edge `first` to
    /// its last edge `last`, walking forward (`next`) or backward (`prev`):
    /// each through `next_in_lml` to the one after it (see `link_in_bound`,
    /// which also turns horizontals); the last keeps its link. `false` when
    /// the walk exhausts `bound` steps.
    #[verifier::rlimit(40)]
    #[verifier::spinoff_prover]
    fn link_bound(
        &mut self,
        first: usize,
        last: usize,
        fwd: bool,
        rg: Ghost<Seq<usize>>,
        lo: Ghost<int>,
        bound: usize,
    ) -> (ok: bool)
        requires
            kept(*old(self), *old(self), rg@, lo@),
            rg@.contains(first),
            rg@.contains(last),
        ensures
            kept(*old(self), *final(self), rg@, lo@),
            final(self).minima_list == old(self).minima_list,
            ok ==> forall|p: int, q: int|
                0 <= p < rg@.len() && 0 <= q < rg@.len() && rg@[p] == first && rg@[q] == last
                    ==> #[trigger] bound_run(final(self).edges@, rg@, p, q, fwd),
            bound >= rg@.len() ==> ok,
            same_frame(old(self).edges@, final(self).edges@, rg@),
    {
        let ghost n = rg@.len() as int;
        let ghost p0 = choose|p: int| 0 <= p < n && rg@[p] == first;
        let ghost mut pos = p0;
        let mut e = first;
        let mut k: usize = 0;
        proof {
            lemma_same_frame_refl(self.edges@, rg@);
        }
        loop
            invariant
                kept(*old(self), *self, rg@, lo@),
                self.minima_list == old(self).minima_list,
                same_frame(old(self).edges@, self.edges@, rg@),
                n == rg@.len(),
                0 <= p0 < n,
                rg@[p0] == first,
                0 <= pos < n,
                rg@[pos] == e,
                rg@.contains(last),
                bound_run(self.edges@, rg@, p0, pos, fwd),
                fwd ==> forall|j: int| 0 <= j < n && dist_from(p0, j, n) < dist_from(p0, pos, n) ==> #[trigger] rg@[j] != last,
                !fwd ==> forall|j: int| 0 <= j < n && dist_from(j, p0, n) < dist_from(pos, p0, n) ==> #[trigger] rg@[j] != last,
                k == walk_dist(p0, pos, n, fwd),
            ensures
                e == last,
                k == walk_dist(p0, pos, n, fwd),
            decreases bound - k,
        {
            if e == last {
                break;
            }
            if k >= bound {
                return false;
            }
            k += 1;
            let ghost s_b = *self;
            let to = if fwd {
                self.ring_next(e, rg, lo)
            } else {
                self.ring_prev(e, rg, lo)
            };
            let behind = if fwd {
                self.ring_prev(e, rg, lo)
            } else {
                self.ring_next(e, rg, lo)
            };
            self.link_in_bound(e, Some(to), behind, first, rg, lo);
            proof {
                lemma_kept_trans(*old(self), s_b, *self, rg@, lo@);
                lemma_same_frame_trans(old(self).edges@, s_b.edges@, self.edges@, rg@);
                assert(s_b.edges@[e as int].next == Some(rg@[succ(pos, n)]));
                assert(s_b.edges@[e as int].prev == Some(rg@[pred(pos, n)]));
                let np = if fwd { succ(pos, n) } else { pred(pos, n) };
                if np == p0 {
                    let ql = choose|q: int| 0 <= q < n && rg@[q] == last;
                    if fwd {
                        assert(dist_from(p0, ql, n) < dist_from(p0, pos, n) || ql == pos);
                    } else {
                        assert(dist_from(ql, p0, n) < dist_from(pos, p0, n) || ql == pos);
                    }
                    assert(false);
                }
                assert(self.edges@[e as int].next_in_lml == Some(to));
                if fwd {
                    assert forall|j: int| 0 <= j < n && dist_from(p0, j, n) < dist_from(p0, np, n) implies #[trigger] self.edges@[rg@[j] as int].next_in_lml == Some(rg@[succ(j, n)]) by {
                        if j != pos {
                            assert(rg@[j] != rg@[pos]);
                            assert(dist_from(p0, j, n) < dist_from(p0, pos, n));
                            assert(s_b.edges@[rg@[j] as int].next_in_lml == Some(rg@[succ(j, n)]));
                        }
                    }
                    assert forall|j: int| 0 <= j < n && dist_from(p0, j, n) < dist_from(p0, np, n) implies #[trigger] rg@[j] != last by {
                        if j != pos {
                            assert(dist_from(p0, j, n) < dist_from(p0, pos, n));
                        }
                    }
                } else {
                    assert forall|j: int| 0 <= j < n && dist_from(j, p0, n) < dist_from(np, p0, n) implies #[trigger] self.edges@[rg@[j] as int].next_in_lml == Some(rg@[pred(j, n)]) by {
                        if j != pos {
                            assert(rg@[j] != rg@[pos]);
                            assert(dist_from(j, p0, n) < dist_from(pos, p0, n));
                            assert(s_b.edges@[rg@[j] as int].next_in_lml == Some(rg@[pred(j, n)]));
                        }
                    }
                    assert forall|j: int| 0 <= j < n && dist_from(j, p0, n) < dist_from(np, p0, n) implies #[trigger] rg@[j] != last by {
                        if j != pos {
                            assert(dist_from(j, p0, n) < dist_from(pos, p0, n));
                        }
                    }
                }
                pos = np;
            }
            e = to;
        }
        let behind = if fwd {
            self.ring_prev(e, rg, lo)
        } else {
            self.ring_next(e, rg, lo)
        };
        let ghost s_c = *self;
        self.link_in_bound(e, None, behind, first, rg, lo);
        proof {
            lemma_kept_trans(*old(self), s_c, *self, rg@, lo@);
            lemma_same_frame_trans(old(self).edges@, s_c.edges@, self.edges@, rg@);
            if fwd {
                assert forall|j: int| 0 <= j < n && dist_from(p0, j, n) < dist_from(p0, pos, n) implies #[trigger] self.edges@[rg@[j] as int].next_in_lml == Some(rg@[succ(j, n)]) by {
                    assert(rg@[j] != rg@[pos]);
                    assert(s_c.edges@[rg@[j] as int].next_in_lml == Some(rg@[succ(j, n)]));
                }
            } else {
                assert forall|j: int| 0 <= j < n && dist_from(j, p0, n) < dist_from(pos, p0, n) implies #[trigger] self.edges@[rg@[j] as int].next_in_lml == Some(rg@[pred(j, n)]) by {
                    assert(rg@[j] != rg@[pos]);
                    assert(s_c.edges@[rg@[j] as int].next_in_lml == Some(rg@[pred(j, n)]));
                }
            }
            assert(self.edges@[e as int].next_in_lml == s_c.edges@[e as int].next_in_lml);
            assert(bound_run(self.edges@, rg@, p0, pos, fwd));
            assert forall|p: int, q: int|
                0 <= p < rg@.len() && 0 <= q < rg@.len() && rg@[p] == first && rg@[q] == last
                    implies #[trigger] bound_run(self.edges@, rg@, p, q, fwd) by {
                assert(p == p0);
                assert(q == pos);
            }
        }
        true
    }

    /// Sets the side and winding delta of ring edge `e`.
    fn set_bound_side(&mut self, e: usize, side: EdgeSide, wind_delta: i32, rg: Ghost<Seq<usize>>, lo: Ghost<int>)
        requires
            kept(*old(self), *old(self), rg@, lo@),
            rg@.contains(e),
        ensures
            kept(*old(self), *final(self), rg@, lo@),
            final(self).edges@ == old(self).edges@.update(
                e as int,
                TEdge { side: side, wind_delta: wind_delta, ..old(self).edges@[e as int] },
            ),
            final(self).minima_list == old(self).minima_list,
    {
        proof {
            lemma_ring_neighbours(self.edges@, rg@, lo@, e);
        }
        let mut t = self.edges[e];
        t.side = side;
        t.wind_delta = wind_delta;
        self.put_ring_edge(e, t, rg, lo);
    }

    /// Marks ring edge `e` as the closing edge of an open path.
    fn mark_skip(&mut self, e: usize, rg: Ghost<Seq<usize>>, lo: Ghost<int>)
        requires
            kept(*old(self), *old(self), rg@, lo@),
            rg@.contains(e),
        ensures
            kept(*old(self), *final(self), rg@, lo@),
            final(self).edges@ == old(self).edges@.update(
                e as int,
                TEdge { out_idx: SKIP, ..old(self).edges@[e as int] },
            ),
            final(self).minima_list == old(self).minima_list,
    {
        proof {
            lemma_ring_neighbours(self.edges@, rg@, lo@, e);
        }
        let mut t = self.edges[e];
        t.out_idx = SKIP;
        self.put_ring_edge(e, t, rg, lo);
    }

    /// The local minimum of an open path lying on one horizontal line: a
    /// single right bound from `e` to the edge before the closing edge,
    /// each edge turned to follow the previous one and linked to the next.
    fn add_flat_bound(&mut self, e0: usize, rg: Ghost<Seq<usize>>, lo: Ghost<int>, bound: usize) -> (r: Result<(), ClipperError>)
        requires
            kept(*old(self), *old(self), rg@, lo@),
            rg@.contains(e0),
        ensures
            kept(*old(self), *final(self), rg@, lo@),
            r is Ok ==> final(self).minima_list@.len() > old(self).minima_list@.len(),
            r is Err ==> r matches Err(ClipperError::OperationFailure(_)),
            minima_from(old(self).minima_list@, final(self).minima_list@, final(self).edges@, rg@),
    {
        let pv0 = self.ring_prev(e0, rg, lo);
        self.mark_skip(pv0, rg, lo);
        let ghost s1 = *self;
        let lm = LocalMinima { y: self.edges[e0].bot.y, left_bound: None, right_bound: Some(e0) };
        self.set_bound_side(e0, EdgeSide::Right, 0, rg, lo);
        proof {
            lemma_kept_trans(*old(self), s1, *self, rg@, lo@);
        }
        let mut e = e0;
        let mut k: usize = 0;
        loop
            invariant
                kept(*old(self), *self, rg@, lo@),
                rg@.contains(e),
                rg@.contains(e0),
                self.edges@[e0 as int].bot.y == lm.y,
                self.minima_list == old(self).minima_list,
            decreases bound - k,
        {
            let pv = self.ring_prev(e, rg, lo);
            if self.edges[e].bot.x != self.edges[pv].top.x {
                let ghost s2 = *self;
                self.flip_horizontal(e, rg, lo);
                proof {
                    lemma_kept_trans(*old(self), s2, *self, rg@, lo@);
                }
            }
            let nx = self.ring_next(e, rg, lo);
            if self.edges[nx].out_idx == SKIP {
                break;
            }
            if k >= bound {
                proof {
                    lemma_minima_from_same(self.minima_list@, self.edges@, rg@);
                }
                return Err(ClipperError::OperationFailure("AddPath: open bound without end".to_string()));
            }
            k += 1;
            let ghost s3 = *self;
            let mut t = self.edges[e];
            t.next_in_lml = Some(nx);
            self.put_ring_edge(e, t, rg, lo);
            proof {
                lemma_kept_trans(*old(self), s3, *self, rg@, lo@);
            }
            e = nx;
        }
        let ghost s4 = *self;
        self.add_minimum(lm, rg, lo);
        proof {
            lemma_kept_trans(*old(self), s4, *self, rg@, lo@);
            let k = choose|k: int| 0 <= k < rg@.len() && rg@[k] == e0;
            assert(lm == skip_minimum(self.edges@, rg@, k));
            assert(ring_minimum(self.edges@, rg@, lm));
            lemma_minima_add(s4.minima_list@, self.minima_list@, self.edges@, rg@, lm);
        }
        Ok(())
    }

    /// Lists the local minimum at edge `e` with its two bounds and builds
    /// them; returns the edge where the search for the next minimum goes on.
    #[verifier::rlimit(40)]
    #[verifier::spinoff_prover]
    fn add_one_minimum(
        &mut self,
        e: usize,
        closed: bool,
        rg: Ghost<Seq<usize>>,
        lo: Ghost<int>,
        bound: usize,
    ) -> (r: Result<usize, ClipperError>)
        requires
            kept(*old(self), *old(self), rg@, lo@),
            rg@.contains(e),
        ensures
            kept(*old(self), *final(self), rg@, lo@),
            grew(*old(self), *final(self), rg@),
            r matches Ok(x) ==> rg@.contains(x) && final(self).minima_list@.len() > old(self).minima_list@.len(),
            r is Err ==> r matches Err(ClipperError::OperationFailure(_)),
            bound >= rg@.len() && bound_walks_end(old(self).edges@, rg@, true) && bound_walks_end(
                old(self).edges@,
                rg@,
                false,
            ) ==> r is Ok,
    {
        let ghost hyp = bound >= rg@.len() && bound_walks_end(old(self).edges@, rg@, true) && bound_walks_end(
            old(self).edges@,
            rg@,
            false,
        );
        let pe = self.ring_prev(e, rg, lo);
        let lm_y = self.edges[e].bot.y;
        let fwd = !Self::dx_is_less(&self.edges[e], &self.edges[pe]);
        let left = if fwd { e } else { pe };
        let right = if fwd { pe } else { e };
        let ghost s1 = *self;
        let left_next = self.ring_next(left, rg, lo);
        let wd: i32 = if !closed {
            0
        } else if left_next == right {
            -1
        } else {
            1
        };
        self.set_bound_side(left, EdgeSide::Left, wd, rg, lo);
        let ghost s2 = *self;
        self.set_bound_side(right, EdgeSide::Right, -wd, rg, lo);
        proof {
            lemma_kept_trans(*old(self), s1, s2, rg@, lo@);
            lemma_kept_trans(*old(self), s2, *self, rg@, lo@);
            lemma_frame_update(s1.edges@, s2.edges@, rg@, left as int);
            lemma_frame_update(s2.edges@, self.edges@, rg@, right as int);
            lemma_same_frame_trans(s1.edges@, s2.edges@, self.edges@, rg@);
            lemma_minima_from_same(self.minima_list@, self.edges@, rg@);
            lemma_grew_intro(s1, *self, rg@);
        }
        let ghost s3 = *self;
        proof {
            if hyp {
                lemma_grew_frame(*old(self), *self, rg@);
                lemma_same_frame_walks(old(self).edges@, self.edges@, rg@, true);
                lemma_same_frame_walks(old(self).edges@, self.edges@, rg@, false);
            }
        }
        let r1 = self.process_bound(left, fwd, rg, lo, bound, 2);
        proof {
            lemma_kept_trans(*old(self), s3, *self, rg@, lo@);
            lemma_grew_intro(s3, *self, rg@);
            lemma_grew_trans(*old(self), s3, *self, rg@);
        }
        let mut e1 = match r1 {
            Some(x) => x,
            None => {
                return Err(ClipperError::OperationFailure("AddPath: bound not closed".to_string()));
            },
        };
        if self.edges[e1].out_idx == SKIP {
            let ghost s4 = *self;
            proof {
                if hyp {
                    lemma_grew_frame(*old(self), *self, rg@);
                    lemma_same_frame_walks(old(self).edges@, self.edges@, rg@, true);
                    lemma_same_frame_walks(old(self).edges@, self.edges@, rg@, false);
                }
            }
            let r2 = self.process_bound(e1, fwd, rg, lo, bound, 2);
            proof {
                lemma_kept_trans(*old(self), s4, *self, rg@, lo@);
                lemma_grew_intro(s4, *self, rg@);
                lemma_grew_intro(s4, *self, rg@);
            lemma_grew_trans(*old(self), s4, *self, rg@);
            }
            e1 = match r2 {
                Some(x) => x,
                None => {
                    return Err(ClipperError::OperationFailure("AddPath: bound not closed".to_string()));
                },
            };
        }
        let ghost s5 = *self;
        proof {
            if hyp {
                lemma_grew_frame(*old(self), *self, rg@);
                lemma_same_frame_walks(old(self).edges@, self.edges@, rg@, true);
                lemma_same_frame_walks(old(self).edges@, self.edges@, rg@, false);
            }
        }
        let r3 = self.process_bound(right, !fwd, rg, lo, bound, 2);
        proof {
            lemma_kept_trans(*old(self), s5, *self, rg@, lo@);
            lemma_grew_intro(s5, *self, rg@);
            lemma_grew_trans(*old(self), s5, *self, rg@);
        }
        let mut e2 = match r3 {
            Some(x) => x,
            None => {
                return Err(ClipperError::OperationFailure("AddPath: bound not closed".to_string()));
            },
        };
        if self.edges[e2].out_idx == SKIP {
            let ghost s6 = *self;
            proof {
                if hyp {
                    lemma_grew_frame(*old(self), *self, rg@);
                    lemma_same_frame_walks(old(self).edges@, self.edges@, rg@, true);
                    lemma_same_frame_walks(old(self).edges@, self.edges@, rg@, false);
                }
            }
            let r4 = self.process_bound(e2, !fwd, rg, lo, bound, 2);
            proof {
                lemma_kept_trans(*old(self), s6, *self, rg@, lo@);
                lemma_grew_intro(s6, *self, rg@);
                lemma_grew_intro(s6, *self, rg@);
            lemma_grew_trans(*old(self), s6, *self, rg@);
            }
            e2 = match r4 {
                Some(x) => x,
                None => {
                    return Err(ClipperError::OperationFailure("AddPath: bound not closed".to_string()));
                },
            };
        }
        proof {
            lemma_ring_neighbours(self.edges@, rg@, lo@, left);
            lemma_ring_neighbours(self.edges@, rg@, lo@, right);
        }
        let mut lb = Some(left);
        let mut rb = Some(right);
        if self.edges[left].out_idx == SKIP {
            lb = None;
        } else if self.edges[right].out_idx == SKIP {
            rb = None;
        }
        let ghost s7 = *self;
        let lm = LocalMinima { y: lm_y, left_bound: lb, right_bound: rb };
        self.add_minimum(lm, rg, lo);
        proof {
            lemma_kept_trans(*old(self), s7, *self, rg@, lo@);
            let n = rg@.len() as int;
            let k = choose|k: int| 0 <= k < n && rg@[k] == e;
            assert(old(self).edges@[rg@[k] as int].prev == Some(rg@[pred(k, n)]));
            lemma_grew_frame(*old(self), s7, rg@);
            lemma_frame_at(old(self).edges@, s7.edges@, rg@, k);
            lemma_frame_at(old(self).edges@, s7.edges@, rg@, pred(k, n));
            assert(lm == minimum_at(self.edges@, rg@, k));
            assert(ring_minimum(self.edges@, rg@, lm));
            lemma_minima_add(s7.minima_list@, self.minima_list@, self.edges@, rg@, lm);
            lemma_same_frame_refl(self.edges@, rg@);
            lemma_grew_intro(s7, *self, rg@);
            lemma_grew_trans(*old(self), s7, *self, rg@);
        }
        Ok(if fwd { e1 } else { e2 })
    }

    /// Finds the local minima of a ring that is not flat, from edge `e0`,
    /// and lists each with its two bounds: the left bound is the side of
    /// smaller slope, the winding deltas are set (zero for an open path),
    /// each bound is built (past a closing edge if needed), and a bound that
    /// is a closing edge is dropped. Ends when the search comes back to the
    /// first minimum found; the walks are bounded by `bound`.
    fn add_ring_minima(
        &mut self,
        e0: usize,
        closed: bool,
        rg: Ghost<Seq<usize>>,
        lo: Ghost<int>,
        bound: usize,
    ) -> (r: Result<(), ClipperError>)
        requires
            kept(*old(self), *old(self), rg@, lo@),
            rg@.contains(e0),
        ensures
            kept(*old(self), *final(self), rg@, lo@),
            r is Ok ==> final(self).minima_list@.len() > old(self).minima_list@.len(),
            r is Err ==> r matches Err(ClipperError::OperationFailure(_)),
            grew(*old(self), *final(self), rg@),
    {
        proof {
            lemma_grew_refl(*self, rg@);
            lemma_minima_from_same(self.minima_list@, self.edges@, rg@);
        }
        let mut e = e0;
        let p0 = self.ring_prev(e, rg, lo);
        if self.edges[p0].bot == self.edges[p0].top {
            e = self.ring_next(e, rg, lo);
        }
        let mut e_min: Option<usize> = None;
        let mut iters: usize = 0;
        loop
            invariant
                kept(*old(self), *self, rg@, lo@),
                rg@.contains(e),
                e_min is Some ==> self.minima_list@.len() > old(self).minima_list@.len(),
                grew(*old(self), *self, rg@),
            decreases bound - iters,
        {
            if iters >= bound {
                return Err(ClipperError::OperationFailure("AddPath: local minima not closed".to_string()));
            }
            iters += 1;
            let found = match self.find_next_loc_min(e, rg, lo, bound) {
                Some(x) => x,
                None => {
                    return Err(ClipperError::OperationFailure("AddPath: no local minimum".to_string()));
                },
            };
            e = found;
            if e_min == Some(e) {
                return Ok(());
            }
            let ghost s0 = *self;
            let nxt = self.add_one_minimum(e, closed, rg, lo, bound);
            proof {
                lemma_kept_trans(*old(self), s0, *self, rg@, lo@);
                lemma_grew_trans(*old(self), s0, *self, rg@);
            }
            let next_e = match nxt {
                Ok(x) => x,
                Err(err) => {
                    return Err(err);
                },
            };
            if e_min.is_none() {
                e_min = Some(e);
            }
            e = next_e;
        }
    }

    /// Drops the edges from `base` on, which no active edge list holds.
    fn drop_new_edges(&mut self, base: usize, target: Ghost<Seq<TEdge>>)
        requires
            old(self).wf(),
            base <= old(self).edges@.len(),
            target@.len() == base,
            forall|k: int| 0 <= k < base ==> #[trigger] old(self).edges@[k] == target@[k],
            forall|i: int| 0 <= i < old(self).ael@.len() ==> #[trigger] old(self).ael@[i] < base,
        ensures
            final(self).wf(),
            final(self).edges@ == target@,
            final(self).ael == old(self).ael,
            final(self).active_edges == old(self).active_edges,
            final(self).scanbeam == old(self).scanbeam,
            final(self).minima_list == old(self).minima_list,
            final(self).current_lm == old(self).current_lm,
            final(self).poly_outs == old(self).poly_outs,
            final(self).preserve_collinear == old(self).preserve_collinear,
            final(self).use_full_range == old(self).use_full_range,
            final(self).has_open_paths == old(self).has_open_paths,
    {
        self.edges.truncate(base);
        proof {
            assert(self.edges@ =~= target@);
            let a = self.ael@;
            assert forall|k: int| 0 <= k < a.len() implies (#[trigger] self.edges@[a[k] as int]).prev_in_ael
                == old(self).edges@[a[k] as int].prev_in_ael && self.edges@[a[k] as int].next_in_ael
                == old(self).edges@[a[k] as int].next_in_ael by {
                assert(a[k] < base);
            }
        }
    }

    /// Adds a path as edges and local minima. An open path must be a
    /// subject. Repeated vertices at the end are dropped (for a closed path
    /// first those repeating the first vertex); a closed path needs three
    /// vertices left and an open path two, else nothing is added. Every
    /// vertex is range tested. Repeated and (for closed paths) collinear
    /// vertices are removed; a path that collapses, or a closed path lying
    /// on one horizontal line, adds nothing. Otherwise the edges are added
    /// with their local minima (an open path marks its closing edge and
    /// records that open paths are present). Returns whether anything was
    /// added.
    pub fn add_path(&mut self, path: &Vec<IntPoint>, poly_type: PolyType, closed: bool) -> (r: Result<bool, ClipperError>)
        requires
            old(self).wf(),
            bounds_in_arena(old(self).minima_list@, old(self).edges@.len() as int),
            old(self).edges@.len() + path@.len() <= usize::MAX,
            (closed || poly_type == PolyType::Subject) && path@.len() > 0 && !too_short(path@, closed) ==> forall|i: int|
                0 <= i <= high_index(path@, closed) ==> range_test_defined(#[trigger] path@[i], false),
        ensures
            final(self).wf(),
            bounds_in_arena(final(self).minima_list@, final(self).edges@.len() as int),
            final(self).edges@.len() >= old(self).edges@.len(),
            final(self).edges@.len() <= old(self).edges@.len() + path@.len(),
            forall|k: int| 0 <= k < old(self).edges@.len() ==> #[trigger] final(self).edges@[k] == old(self).edges@[k],
            forall|m: LocalMinima| old(self).minima_list@.contains(m) ==> final(self).minima_list@.contains(m),
            final(self).ael == old(self).ael,
            final(self).active_edges == old(self).active_edges,
            final(self).scanbeam == old(self).scanbeam,
            final(self).current_lm == old(self).current_lm,
            final(self).poly_outs == old(self).poly_outs,
            final(self).preserve_collinear == old(self).preserve_collinear,
            !closed && poly_type == PolyType::Clip ==> (r matches Err(ClipperError::OpenPathsNotSupported))
                && *final(self) == *old(self),
            (closed || poly_type == PolyType::Subject) && (path@.len() == 0 || too_short(path@, closed)) ==> r
                == Ok::<bool, ClipperError>(false) && *final(self) == *old(self),
            (closed || poly_type == PolyType::Subject) && path@.len() > 0 && !too_short(path@, closed) ==> {
                let hi = high_index(path@, closed);
                &&& (r matches Err(ClipperError::CoordinateOutOfRange)) <==> some_beyond(path@, hi, HI_RANGE as int)
                &&& !some_beyond(path@, hi, HI_RANGE as int) ==> final(self).use_full_range == (old(self).use_full_range
                    || some_beyond(path@, hi, LO_RANGE as int))
                &&& some_beyond(path@, hi, HI_RANGE as int) ==> *final(self) == (ClipperBase {
                    use_full_range: final(self).use_full_range,
                    ..*old(self)
                })
                &&& r == Ok::<bool, ClipperError>(false) ==> final(self).edges@ == old(self).edges@
                    && final(self).minima_list == old(self).minima_list && final(self).has_open_paths
                    == old(self).has_open_paths
                &&& !some_beyond(path@, hi, HI_RANGE as int) && closed && all_collinear(path@, hi) ==> r
                    == Ok::<bool, ClipperError>(false)
                &&& r == Ok::<bool, ClipperError>(true) ==> final(self).minima_list@.len() > old(self).minima_list@.len()
                    && final(self).has_open_paths == (old(self).has_open_paths || !closed)
                &&& r == Ok::<bool, ClipperError>(true) ==> minima_of_new_ring(*old(self), *final(self))
            },
    {
        if !closed && poly_type == PolyType::Clip {
            return Err(ClipperError::OpenPathsNotSupported);
        }
        if path.len() == 0 {
            return Ok(false);
        }
        let hi = Self::find_high_index(path, closed);
        proof {
            lemma_high_index_bounds(path@, closed);
        }
        if (closed && hi < 2) || (!closed && hi < 1) {
            return Ok(false);
        }
        let ghost s_old = *self;
        match self.range_test_path(path, hi) {
            Err(err) => {
                proof {
                    assert(*self == (ClipperBase { use_full_range: self.use_full_range, ..s_old }));
                }
                return Err(err);
            },
            Ok(()) => {},
        }
        let ghost s_in = *self;
        let r = self.add_tested_path(path, hi, poly_type, closed);
        proof {
            if r == Ok::<bool, ClipperError>(true) {
                lemma_new_ring_same_start(s_old, s_in, *self);
            }
        }
        r
    }

    /// Adds a path whose counted vertices (up to `hi`) passed the range
    /// test: builds and links its edges, removes repeated and collinear
    /// vertices, sets the edge geometry and lists the local minima (see
    /// `add_path`).
    #[verifier::rlimit(60)]
    #[verifier::spinoff_prover]
    fn add_tested_path(&mut self, path: &Vec<IntPoint>, hi: usize, poly_type: PolyType, closed: bool) -> (r: Result<bool, ClipperError>)
        requires
            old(self).wf(),
            bounds_in_arena(old(self).minima_list@, old(self).edges@.len() as int),
            old(self).edges@.len() + hi + 1 <= usize::MAX,
            1 <= hi < path@.len(),
            !some_beyond(path@, hi as int, HI_RANGE as int),
        ensures
            final(self).wf(),
            bounds_in_arena(final(self).minima_list@, final(self).edges@.len() as int),
            old(self).edges@.len() <= final(self).edges@.len() <= old(self).edges@.len() + hi + 1,
            forall|k: int| 0 <= k < old(self).edges@.len() ==> #[trigger] final(self).edges@[k] == old(self).edges@[k],
            forall|m: LocalMinima| old(self).minima_list@.contains(m) ==> final(self).minima_list@.contains(m),
            final(self).ael == old(self).ael,
            final(self).active_edges == old(self).active_edges,
            final(self).scanbeam == old(self).scanbeam,
            final(self).current_lm == old(self).current_lm,
            final(self).poly_outs == old(self).poly_outs,
            final(self).preserve_collinear == old(self).preserve_collinear,
            final(self).use_full_range == old(self).use_full_range,
            r == Ok::<bool, ClipperError>(false) ==> final(self).edges@ == old(self).edges@
                && final(self).minima_list == old(self).minima_list && final(self).has_open_paths
                == old(self).has_open_paths,
            r == Ok::<bool, ClipperError>(true) ==> final(self).minima_list@.len() > old(self).minima_list@.len()
                && final(self).has_open_paths == (old(self).has_open_paths || !closed),
            r is Err ==> r matches Err(ClipperError::OperationFailure(_)),
            closed && all_collinear(path@, hi as int) ==> r == Ok::<bool, ClipperError>(false),
            r == Ok::<bool, ClipperError>(true) ==> minima_of_new_ring(*old(self), *final(self)),
    {
        let base = self.edges.len();
        let ghost s_tested = *self;
        proof {
            assert forall|i: int| 0 <= i < self.ael@.len() implies #[trigger] self.ael@[i] < base by {}
        }
        self.push_ring_edges(path, hi);
        let ghost s_pushed = *self;
        let ghost ring = index_run(base as int, hi + 1);
        let (e, e_start, rg) = self.remove_duplicate_vertices(base, closed, Ghost(ring), Ghost(base as int));
        proof {
            assert(ring[0] == base);
        }
        let en = self.edges[e].next.unwrap();
        let ep = self.edges[e].prev.unwrap();
        proof {
            lemma_ring_neighbours(self.edges@, rg@, base as int, e);
        }
        if (!closed && e == en) || (closed && ep == en) {
            self.drop_new_edges(base, Ghost(s_tested.edges@));
            return Ok(false);
        }
        proof {
            if closed {
                lemma_collinear_ring_collapses(
                    self.edges@,
                    s_pushed.edges@,
                    path@,
                    base as int,
                    hi as int,
                    rg@,
                    e,
                    self.preserve_collinear,
                );
            }
        }
        proof {
            assert forall|k: int| 0 <= k < rg@.len() implies !point_beyond(#[trigger] self.edges@[rg@[k] as int].curr, HI_RANGE as int) by {
                let x = rg@[k];
                assert(ring.contains(x));
                let i = choose|i: int| 0 <= i < ring.len() && ring[i] == x;
                assert(x == base + i);
                assert(s_pushed.edges@[base + i] == fresh_edge(
                    path@[i],
                    (base + succ(i, hi + 1)) as usize,
                    (base + pred(i, hi + 1)) as usize,
                ));
                assert(self.edges@[x as int].same_values(s_pushed.edges@[x as int]));
                assert(0 <= i <= hi);
                if point_beyond(path@[i], HI_RANGE as int) {
                    assert(some_beyond(path@, hi as int, HI_RANGE as int));
                }
            }
            assert(bounds_in_arena(self.minima_list@, self.edges@.len() as int));
        }
        if !closed {
            self.has_open_paths = true;
            let sp = self.ring_prev(e_start, rg, Ghost(base as int));
            self.mark_skip(sp, rg, Ghost(base as int));
        }
        let ghost s_marked = *self;
        proof {
            assert(ring_in_range(self.edges@, rg@));
            assert forall|i: int| 0 <= i < self.ael@.len() implies #[trigger] self.ael@[i] < base by {}
        }
        let ghost spos = choose|k: int| 0 <= k < rg@.len() && rg@[k] == e_start;
        let (_last, is_flat) = self.init_ring_geometry(e_start, poly_type, rg, Ghost(spos), Ghost(base as int));
        proof {
            assert forall|k: int| 0 <= k < s_marked.edges@.len() implies (#[trigger] self.edges@[k]).next == s_marked.edges@[k].next
                && self.edges@[k].prev == s_marked.edges@[k].prev by {
                if rg@.contains(k as usize) {
                    let q = choose|q: int| 0 <= q < rg@.len() && rg@[q] == k as usize;
                    assert(self.edges@[rg@[q] as int] == with_geometry(
                        s_marked.edges@[rg@[q] as int],
                        s_marked.edges@[rg@[succ(q, rg@.len() as int)] as int].curr,
                        poly_type,
                    ));
                }
            }
            assert forall|k: int| 0 <= k < base implies #[trigger] self.edges@[k] == s_marked.edges@[k] by {
                if rg@.contains(k as usize) {
                    lemma_ring_neighbours(s_marked.edges@, rg@, base as int, k as usize);
                }
            }
            assert(kept(s_marked, *self, rg@, base as int));
        }
        let bound: usize = if hi < usize::MAX / 4 {
            2 * (hi + 1)
        } else {
            hi + 1
        };
        let ghost s_geom = *self;
        if is_flat {
            if closed {
                self.drop_new_edges(base, Ghost(s_tested.edges@));
                return Ok(false);
            }
            let res = self.add_flat_bound(e_start, rg, Ghost(base as int), bound);
            proof {
                lemma_kept_trans(s_marked, s_geom, *self, rg@, base as int);
            }
            match res {
                Ok(()) => {
                    proof {
                        lemma_minima_of_new_ring(s_tested, *self, rg@);
                    }
                    return Ok(true);
                },
                Err(err) => {
                    return Err(err);
                },
            }
        }
        let res = self.add_ring_minima(e_start, closed, rg, Ghost(base as int), bound);
        proof {
            lemma_kept_trans(s_marked, s_geom, *self, rg@, base as int);
        }
        match res {
            Ok(()) => {
                proof {
                    lemma_grew_minima(s_geom, *self, rg@);
                    lemma_minima_of_new_ring(s_tested, *self, rg@);
                }
                Ok(true)
            },
            Err(err) => Err(err),
        }
    }

    /// Adds each path in turn (see `add_path`); stops at the first error.
    /// Returns whether any path was added.
    pub fn add_paths(&mut self, ppg: &Vec<Vec<IntPoint>>, poly_type: PolyType, closed: bool) -> (r: Result<bool, ClipperError>)
        requires
            old(self).wf(),
            bounds_in_arena(old(self).minima_list@, old(self).edges@.len() as int),
            old(self).edges@.len() + total_len(ppg@) <= usize::MAX,
            forall|j: int| 0 <= j < ppg@.len() ==> forall|i: int|
                0 <= i < (#[trigger] ppg@[j])@.len() ==> range_test_defined(#[trigger] ppg@[j]@[i], false),
        ensures
            final(self).wf(),
            bounds_in_arena(final(self).minima_list@, final(self).edges@.len() as int),
            forall|k: int| 0 <= k < old(self).edges@.len() ==> #[trigger] final(self).edges@[k] == old(self).edges@[k],
            forall|m: LocalMinima| old(self).minima_list@.contains(m) ==> final(self).minima_list@.contains(m),
            !closed && poly_type == PolyType::Clip && ppg@.len() > 0 ==> r matches Err(ClipperError::OpenPathsNotSupported),
            r == Ok::<bool, ClipperError>(true) ==> final(self).minima_list@.len() > old(self).minima_list@.len(),
            r == Ok::<bool, ClipperError>(false) ==> final(self).minima_list == old(self).minima_list,
            closed && (forall|j: int| 0 <= j < ppg@.len() ==> #[trigger] closed_path_collapses(ppg@[j]@)) ==> r
                == Ok::<bool, ClipperError>(false),
    {
        let mut result = false;
        let mut j: usize = 0;
        assert(ppg@.skip(0) =~= ppg@);
        while j < ppg.len()
            invariant
                j <= ppg@.len(),
                !closed && poly_type == PolyType::Clip ==> j == 0,
                self.wf(),
                bounds_in_arena(self.minima_list@, self.edges@.len() as int),
                self.edges@.len() + total_len(ppg@.skip(j as int)) <= usize::MAX,
                forall|k: int| 0 <= k < old(self).edges@.len() ==> #[trigger] self.edges@[k] == old(self).edges@[k],
                self.edges@.len() >= old(self).edges@.len(),
                forall|m: LocalMinima| old(self).minima_list@.contains(m) ==> self.minima_list@.contains(m),
                result ==> self.minima_list@.len() > old(self).minima_list@.len(),
                !result ==> self.minima_list == old(self).minima_list,
                closed && (forall|jj: int| 0 <= jj < ppg@.len() ==> #[trigger] closed_path_collapses(ppg@[jj]@)) ==> !result,
                forall|jj: int| 0 <= jj < ppg@.len() ==> forall|i: int|
                    0 <= i < (#[trigger] ppg@[jj])@.len() ==> range_test_defined(#[trigger] ppg@[jj]@[i], false),
            decreases ppg@.len() - j,
        {
            proof {
                lemma_total_len_skip(ppg@, j as int);
            }
            let ghost before = *self;
            proof {
                if ppg@[j as int]@.len() > 0 {
                    lemma_high_index_bounds(ppg@[j as int]@, closed);
                    assert forall|i: int| 0 <= i <= high_index(ppg@[j as int]@, closed) implies range_test_defined(#[trigger] ppg@[j as int]@[i], false) by {
                        assert(range_test_defined(ppg@[j as int]@[i], false));
                    }
                }
            }
            let r1 = self.add_path(&ppg[j], poly_type, closed);
            proof {
                if closed && (forall|jj: int| 0 <= jj < ppg@.len() ==> #[trigger] closed_path_collapses(ppg@[jj]@)) {
                    assert(closed_path_collapses(ppg@[j as int]@));
                    assert(r1 == Ok::<bool, ClipperError>(false));
                }
            }
            match r1 {
                Err(err) => {
                    return Err(err);
                },
                Ok(b) => {
                    if b {
                        result = true;
                    }
                },
            }
            j += 1;
        }
        Ok(result)
    }

    /// Finds the next local minimum of a ring from edge `e`: an edge whose
    /// bottom is shared with the edge before it and that starts at its
    /// bottom. At a horizontal, the run of horizontals is skipped: an
    /// intermediate one (the bound goes on up) is passed over, otherwise the
    /// minimum is the side of the run whose end lies further left. Each
    /// walk is bounded by `bound` steps; `None` when a walk exhausts it.
    fn find_next_loc_min(&self, e: usize, rg: Ghost<Seq<usize>>, lo: Ghost<int>, bound: usize) -> (r: Option<usize>)
        requires
            edge_ring(self.edges@, rg@, lo@),
            rg@.contains(e),
        ensures
            r matches Some(x) ==> rg@.contains(x),
    {
        let mut e = e;
        let mut rounds: usize = 0;
        loop
            invariant
                edge_ring(self.edges@, rg@, lo@),
                rg@.contains(e),
            decreases bound - rounds,
        {
            if rounds >= bound {
                return None;
            }
            rounds += 1;
            let mut k: usize = 0;
            loop
                invariant
                    edge_ring(self.edges@, rg@, lo@),
                    rg@.contains(e),
                decreases bound - k,
            {
                proof {
                    lemma_ring_neighbours(self.edges@, rg@, lo@, e);
                }
                let pe = self.edges[e].prev.unwrap();
                proof {
                    lemma_ring_neighbours(self.edges@, rg@, lo@, pe);
                }
                if !(self.edges[e].bot != self.edges[pe].bot || self.edges[e].curr == self.edges[e].top) {
                    break;
                }
                if k >= bound {
                    return None;
                }
                k += 1;
                e = self.edges[e].next.unwrap();
            }
            proof {
                lemma_ring_neighbours(self.edges@, rg@, lo@, e);
            }
            let pe = self.edges[e].prev.unwrap();
            proof {
                lemma_ring_neighbours(self.edges@, rg@, lo@, pe);
            }
            if self.edges[e].delta.y != 0 && self.edges[pe].delta.y != 0 {
                return Some(e);
            }
            k = 0;
            loop
                invariant
                    edge_ring(self.edges@, rg@, lo@),
                    rg@.contains(e),
                decreases bound - k,
            {
                proof {
                    lemma_ring_neighbours(self.edges@, rg@, lo@, e);
                }
                let p2 = self.edges[e].prev.unwrap();
                proof {
                    lemma_ring_neighbours(self.edges@, rg@, lo@, p2);
                }
                if self.edges[p2].delta.y != 0 {
                    break;
                }
                if k >= bound {
                    return None;
                }
                k += 1;
                e = p2;
            }
            let e2 = e;
            k = 0;
            loop
                invariant
                    edge_ring(self.edges@, rg@, lo@),
                    rg@.contains(e),
                    rg@.contains(e2),
                decreases bound - k,
            {
                proof {
                    lemma_ring_neighbours(self.edges@, rg@, lo@, e);
                }
                if self.edges[e].delta.y != 0 {
                    break;
                }
                if k >= bound {
                    return None;
                }
                k += 1;
                e = self.edges[e].next.unwrap();
            }
            proof {
                lemma_ring_neighbours(self.edges@, rg@, lo@, e);
                lemma_ring_neighbours(self.edges@, rg@, lo@, e2);
            }
            let pe2 = self.edges[e].prev.unwrap();
            proof {
                lemma_ring_neighbours(self.edges@, rg@, lo@, pe2);
            }
            if self.edges[e].top.y != self.edges[pe2].bot.y {
                let p3 = self.edges[e2].prev.unwrap();
                proof {
                    lemma_ring_neighbours(self.edges@, rg@, lo@, p3);
                }
                if self.edges[p3].bot.x < self.edges[e].bot.x {
                    return Some(e2);
                }
                return Some(e);
            }
        }
    }
}

} // verus!
