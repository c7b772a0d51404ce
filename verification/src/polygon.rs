//! Point-in-polygon classification on the integer grid.
use vstd::prelude::*;
use crate::geometry::{Point64, PipResult, min_int, max_int};
use crate::internal_clipper::{cross, sign, cross_sign};

verus! {

/// `p` lies on the closed segment from `a` to `b`.
pub open spec fn on_segment(p: Point64, a: Point64, b: Point64) -> bool {
    &&& cross(a, b, p) == 0
    &&& min_int(a.x as int, b.x as int) <= p.x <= max_int(a.x as int, b.x as int)
    &&& min_int(a.y as int, b.y as int) <= p.y <= max_int(a.y as int, b.y as int)
}

/// Index of the vertex before `k` in a closed ring of `n` vertices.
pub open spec fn prev_index(k: int, n: int) -> int {
    if k == 0 {
        n - 1
    } else {
        k - 1
    }
}

/// `p` lies on some edge of the closed polygon.
pub open spec fn on_boundary(poly: Seq<Point64>, p: Point64) -> bool {
    exists|k: int|
        0 <= k < poly.len() && #[trigger] on_segment(
            p,
            poly[prev_index(k, poly.len() as int)],
            poly[k],
        )
}

/// The first index at or after `i` of a vertex off the horizontal line
/// through `p`, or the length when there is none.
pub open spec fn first_off_line(poly: Seq<Point64>, p: Point64, i: int) -> int
    decreases poly.len() - i,
{
    if i < 0 || i >= poly.len() {
        poly.len() as int
    } else if poly[i].y != p.y {
        i
    } else {
        first_off_line(poly, p, i + 1)
    }
}

/// Index `j` steps after `s` in a ring of `n` vertices (`0 <= j <= n`).
pub open spec fn rot(s: int, j: int, n: int) -> int {
    if s + j < n {
        s + j
    } else {
        s + j - n
    }
}

/// The vertex `j` steps after vertex `s`.
pub open spec fn rotated(poly: Seq<Point64>, s: int, j: int) -> Point64 {
    poly[rot(s, j, poly.len() as int)]
}

/// Whether the boundary is above the line through `p` (smaller y) after the
/// walk from vertex `s` has reached `j` steps: a vertex on the line keeps
/// the side the walk came from.
pub open spec fn side_above(poly: Seq<Point64>, p: Point64, s: int, j: int) -> bool
    decreases j,
{
    if j <= 0 {
        rotated(poly, s, 0).y < p.y
    } else if rotated(poly, s, j).y == p.y {
        side_above(poly, p, s, j - 1)
    } else {
        rotated(poly, s, j).y < p.y
    }
}

/// The edge `a -> b`, taken across the line through `p`, meets that line to
/// the left of `p`.
pub open spec fn crosses_left(a: Point64, b: Point64, p: Point64) -> bool {
    cross(a, b, p) * (b.y - a.y) < 0
}

/// Step `j` of the walk passes from one side of the line to the other, to
/// the left of `p`.
pub open spec fn crossing_at(poly: Seq<Point64>, p: Point64, s: int, j: int) -> bool {
    let a = rotated(poly, s, j - 1);
    let b = rotated(poly, s, j);
    &&& b.y != p.y
    &&& (b.y < p.y) != side_above(poly, p, s, j - 1)
    &&& crosses_left(a, b, p)
}

/// How many of the first `j` steps of the walk cross the line left of `p`.
pub open spec fn crossing_count(poly: Seq<Point64>, p: Point64, s: int, j: int) -> nat
    decreases j,
{
    if j <= 0 {
        0
    } else {
        crossing_count(poly, p, s, j - 1) + if crossing_at(poly, p, s, j) {
            1nat
        } else {
            0nat
        }
    }
}

/// The classification: polygons of fewer than three vertices, and polygons
/// lying wholly on the horizontal line through `p`, are `Outside`;
/// otherwise `OnEdge` when `p` is on the boundary, else `Inside` exactly
/// when a full walk round the boundary crosses the line left of `p` an odd
/// number of times.
pub open spec fn point_in_polygon_spec(p: Point64, poly: Seq<Point64>) -> PipResult {
    let n = poly.len() as int;
    let s = first_off_line(poly, p, 0);
    if n < 3 || s >= n {
        PipResult::Outside
    } else if on_boundary(poly, p) {
        PipResult::OnEdge
    } else if crossing_count(poly, p, s, n) % 2 == 1 {
        PipResult::Inside
    } else {
        PipResult::Outside
    }
}

proof fn lemma_first_off_line(poly: Seq<Point64>, p: Point64, i: int)
    requires
        0 <= i <= poly.len(),
        forall|k: int| 0 <= k < i ==> poly[k].y == p.y,
    ensures
        first_off_line(poly, p, 0) == first_off_line(poly, p, i),
    decreases i,
{
    if i > 0 {
        lemma_first_off_line(poly, p, i - 1);
    }
}

proof fn lemma_first_off_line_found(poly: Seq<Point64>, p: Point64, i: int)
    requires
        0 <= i < poly.len(),
        poly[i].y != p.y,
    ensures
        first_off_line(poly, p, i) == i,
{
}

proof fn lemma_first_off_line_none(poly: Seq<Point64>, p: Point64)
    ensures
        first_off_line(poly, p, poly.len() as int) == poly.len(),
{
}

/// The walk's current side agrees with every vertex it stands on off the line.
proof fn lemma_side_agrees(poly: Seq<Point64>, p: Point64, s: int, j: int)
    requires
        j >= 0,
        rotated(poly, s, j).y != p.y,
    ensures
        side_above(poly, p, s, j) == (rotated(poly, s, j).y < p.y),
{
}

proof fn lemma_online_start(p: Point64, a: Point64, b: Point64)
    requires
        a.y == p.y,
        b.y != p.y,
    ensures
        on_segment(p, a, b) <==> (p.x == a.x),
{
    assert(cross(a, b, p) == -((b.y - a.y) * (p.x - a.x))) by (nonlinear_arith)
        requires a.y == p.y;
    assert((b.y - a.y) * (p.x - a.x) == 0 <==> p.x == a.x) by (nonlinear_arith)
        requires b.y != a.y;
}

proof fn lemma_online_end(p: Point64, a: Point64, b: Point64)
    requires
        b.y == p.y,
        a.y != p.y,
    ensures
        on_segment(p, a, b) <==> (p.x == b.x),
{
    assert(cross(a, b, p) == -((b.y - a.y) * (p.x - b.x))) by (nonlinear_arith)
        requires b.y == p.y;
    assert((b.y - a.y) * (p.x - b.x) == 0 <==> p.x == b.x) by (nonlinear_arith)
        requires b.y != a.y;
}

proof fn lemma_online_both(p: Point64, a: Point64, b: Point64)
    requires
        a.y == p.y,
        b.y == p.y,
    ensures
        on_segment(p, a, b) <==> (min_int(a.x as int, b.x as int) <= p.x <= max_int(
            a.x as int,
            b.x as int,
        )),
{
    assert(cross(a, b, p) == 0) by (nonlinear_arith)
        requires a.y == p.y, b.y == p.y;
}

proof fn lemma_same_side(p: Point64, a: Point64, b: Point64)
    requires
        (a.y < p.y && b.y < p.y) || (a.y > p.y && b.y > p.y),
    ensures
        !on_segment(p, a, b),
{
}

/// For an edge that leaves the line's side of `a` (or the line itself) for
/// the other side: `p` is on it exactly when collinear, and when `p` lies to
/// one side of both endpoints the crossing is on that side too.
proof fn lemma_crossing_edge(p: Point64, a: Point64, b: Point64)
    requires
        (a.y <= p.y && p.y < b.y) || (a.y >= p.y && p.y > b.y),
    ensures
        on_segment(p, a, b) <==> cross(a, b, p) == 0,
        (p.x < a.x && p.x < b.x) ==> cross(a, b, p) != 0 && !crosses_left(a, b, p),
        (p.x > a.x && p.x > b.x) ==> cross(a, b, p) != 0 && crosses_left(a, b, p),
{
    let ax = a.x as int;
    let ay = a.y as int;
    let bx = b.x as int;
    let by = b.y as int;
    let px = p.x as int;
    let py = p.y as int;
    let c = cross(a, b, p);
    assert(c == (bx - ax) * (py - by) - (by - ay) * (px - bx));
    // (px - bx) * (by - ay) == (bx - ax) * (py - by) when collinear
    if c == 0 {
        if py < by {
            assert(ax <= px <= bx || bx <= px <= ax) by (nonlinear_arith)
                requires
                    ay <= py < by,
                    (bx - ax) * (py - by) == (by - ay) * (px - bx),
            ;
        } else {
            assert(ax <= px <= bx || bx <= px <= ax) by (nonlinear_arith)
                requires
                    ay >= py > by,
                    (bx - ax) * (py - by) == (by - ay) * (px - bx),
            ;
        }
    }
    assert((px < ax && px < bx) ==> c * (by - ay) > 0) by (nonlinear_arith)
        requires
            (ay <= py && py < by) || (ay >= py && py > by),
            c == (bx - ax) * (py - by) - (by - ay) * (px - bx),
    ;
    assert((px > ax && px > bx) ==> c * (by - ay) < 0) by (nonlinear_arith)
        requires
            (ay <= py && py < by) || (ay >= py && py > by),
            c == (bx - ax) * (py - by) - (by - ay) * (px - bx),
    ;
}

/// For an edge leaving the side `above` of the line (or the line) for the
/// other side, crossing left of `p` is a matter of the orientation's sign.
proof fn lemma_left_sign(p: Point64, a: Point64, b: Point64, above: bool)
    requires
        above ==> a.y <= p.y && p.y < b.y,
        !above ==> a.y >= p.y && p.y > b.y,
    ensures
        crosses_left(a, b, p) == (cross(a, b, p) != 0 && ((sign(cross(a, b, p)) < 0) == above)),
{
    let c = cross(a, b, p);
    let dy = b.y - a.y;
    if above {
        assert(c * dy < 0 <==> c < 0) by (nonlinear_arith) requires dy > 0;
    } else {
        assert(c * dy < 0 <==> c > 0) by (nonlinear_arith) requires dy < 0;
    }
}

/// Every edge of the ring is one step of the walk from `s`.
proof fn lemma_edge_is_step(n: int, s: int, k: int)
    requires
        0 <= s < n,
        0 <= k < n,
    ensures
        ({
            let j = if k > s { k - s } else { k + n - s };
            &&& 1 <= j <= n
            &&& rot(s, j, n) == k
            &&& rot(s, j - 1, n) == prev_index(k, n)
        }),
{
}

/// Classifies `pt` against the closed polygon: `OnEdge`, `Inside` or
/// `Outside` (see `point_in_polygon_spec`).
pub fn point_in_polygon(pt: &Point64, polygon: &Vec<Point64>) -> (r: PipResult)
    ensures
        r == point_in_polygon_spec(*pt, polygon@),
{
    let ghost poly = polygon@;
    let ghost p = *pt;
    let len = polygon.len();
    if len < 3 {
        return PipResult::Outside;
    }
    let mut start: usize = 0;
    while start < len && polygon[start].y == pt.y
        invariant
            start <= len,
            len == polygon.len(),
            poly == polygon@,
            p == *pt,
            forall|k: int| 0 <= k < start ==> poly[k].y == p.y,
        decreases len - start,
    {
        start += 1;
    }
    proof {
        lemma_first_off_line(poly, p, start as int);
    }
    if start == len {
        proof {
            lemma_first_off_line_none(poly, p);
        }
        return PipResult::Outside;
    }
    proof {
        lemma_first_off_line_found(poly, p, start as int);
    }
    let ghost s = start as int;
    let ghost n = len as int;
    let mut is_above = polygon[start].y < pt.y;
    let starting_above = is_above;
    let mut val: u8 = 0;
    let mut j: usize = 1;
    let mut prev_idx: usize = start;
    while j < len
        invariant
            poly == polygon@,
            len == polygon.len(),
            n == len,
            s == start,
            p == *pt,
            0 <= start < len,
            3 <= len,
            poly[s].y != p.y,
            first_off_line(poly, p, 0) == s,
            starting_above == (poly[s].y < p.y),
            1 <= j <= len,
            prev_idx == rot(s, j - 1, n),
            is_above == side_above(poly, p, s, j - 1),
            val == crossing_count(poly, p, s, j - 1) % 2,
            forall|i: int| 1 <= i < j ==> !on_segment(p, #[trigger] rotated(poly, s, i - 1), rotated(poly, s, i)),
            forall|i: int| 1 <= i < j && (#[trigger] rotated(poly, s, i)).y == p.y ==> rotated(poly, s, i) != p,
        decreases len - j,
    {
        let k: usize = if prev_idx + 1 == len { 0 } else { prev_idx + 1 };
        assert(k as int == rot(s, j as int, n));
        let curr = polygon[k];
        let prev = polygon[prev_idx];
        assert(prev == rotated(poly, s, j - 1));
        assert(curr == rotated(poly, s, j as int));
        proof {
            if prev.y != p.y {
                lemma_side_agrees(poly, p, s, j - 1);
            }
        }
        assert(crossing_count(poly, p, s, j as int) == crossing_count(poly, p, s, j - 1) + if crossing_at(poly, p, s, j as int) { 1nat } else { 0nat });
        if curr.y == pt.y {
            if curr.x == pt.x || (prev.y == pt.y && ((pt.x < prev.x) != (pt.x < curr.x))) {
                proof {
                    if curr.x == pt.x {
                        if prev.y == p.y {
                            lemma_online_both(p, prev, curr);
                        } else {
                            lemma_online_end(p, prev, curr);
                        }
                    } else {
                        lemma_online_both(p, prev, curr);
                    }
                    lemma_edge_is_step(n, s, k as int);
                    assert(on_segment(p, poly[prev_index(k as int, n)], poly[k as int]));
                }
                return PipResult::OnEdge;
            }
            proof {
                if prev.y == p.y {
                    lemma_online_both(p, prev, curr);
                    if j > 1 {
                        assert(rotated(poly, s, (j - 1) as int) != p);
                    }
                } else {
                    lemma_online_end(p, prev, curr);
                }
            }
        } else if (curr.y < pt.y) != is_above {
            proof {
                lemma_crossing_edge(p, prev, curr);
                lemma_left_sign(p, prev, curr, is_above);
            }
            if pt.x < curr.x && pt.x < prev.x {
                assert(!crossing_at(poly, p, s, j as int));
            } else if pt.x > prev.x && pt.x > curr.x {
                assert(crossing_at(poly, p, s, j as int));
                val = 1 - val;
            } else {
                let d = cross_sign(&prev, &curr, pt);
                if d == 0 {
                    proof {
                        lemma_edge_is_step(n, s, k as int);
                        assert(on_segment(p, poly[prev_index(k as int, n)], poly[k as int]));
                    }
                    return PipResult::OnEdge;
                }
                assert(crossing_at(poly, p, s, j as int) == ((d < 0) == is_above));
                if (d < 0) == is_above {
                    val = 1 - val;
                }
            }
            is_above = !is_above;
        } else {
            proof {
                if prev.y == p.y {
                    lemma_online_start(p, prev, curr);
                    if j > 1 {
                        assert(rotated(poly, s, (j - 1) as int) != p);
                    }
                } else {
                    lemma_same_side(p, prev, curr);
                }
            }
        }
        prev_idx = k;
        j += 1;
    }
    assert(rot(s, n, n) == s);
    let prev = polygon[prev_idx];
    let curr = polygon[start];
    assert(prev == rotated(poly, s, n - 1));
    assert(curr == rotated(poly, s, n));
    proof {
        if prev.y != p.y {
            lemma_side_agrees(poly, p, s, n - 1);
        }
    }
    assert(crossing_count(poly, p, s, n) == crossing_count(poly, p, s, n - 1) + if crossing_at(poly, p, s, n) { 1nat } else { 0nat });
    if is_above != starting_above {
        proof {
            lemma_crossing_edge(p, prev, curr);
            lemma_left_sign(p, prev, curr, is_above);
        }
        let d = cross_sign(&prev, &curr, pt);
        if d == 0 {
            proof {
                lemma_edge_is_step(n, s, s);
                assert(on_segment(p, poly[prev_index(s, n)], poly[s]));
            }
            return PipResult::OnEdge;
        }
        assert(crossing_at(poly, p, s, n) == ((d < 0) == is_above));
        if (d < 0) == is_above {
            val = 1 - val;
        }
    } else {
        proof {
            if prev.y == p.y {
                lemma_online_start(p, prev, curr);
                assert(rotated(poly, s, n - 1) != p);
            } else {
                lemma_same_side(p, prev, curr);
            }
        }
    }
    proof {
        assert forall|k: int| 0 <= k < n implies !#[trigger] on_segment(
            p,
            poly[prev_index(k, n)],
            poly[k],
        ) by {
            lemma_edge_is_step(n, s, k);
            let jj = if k > s { k - s } else { k + n - s };
            if jj < n {
                assert(!on_segment(p, rotated(poly, s, jj - 1), rotated(poly, s, jj)));
            }
        }
    }
    if val == 0 {
        PipResult::Outside
    } else {
        PipResult::Inside
    }
}

/// The side of the line through `p` (above: smaller y) of the nearest
/// vertex off that line, looking back from vertex `v` (itself included)
/// at most `m` steps round the ring.
pub open spec fn side_back(poly: Seq<Point64>, p: Point64, v: int, m: int) -> bool
    decreases m,
{
    if m <= 0 || poly[v].y != p.y {
        poly[v].y < p.y
    } else {
        side_back(poly, p, prev_index(v, poly.len() as int), m - 1)
    }
}

/// The edge ending at vertex `v` crosses the line through `p` to the left
/// of `p`, coming from the other side.
pub open spec fn crossing_into(poly: Seq<Point64>, p: Point64, v: int) -> bool {
    let n = poly.len() as int;
    let u = prev_index(v, n);
    &&& poly[v].y != p.y
    &&& (poly[v].y < p.y) != side_back(poly, p, u, n)
    &&& crosses_left(poly[u], poly[v], p)
}

/// How many of the edges ending at vertices `0..k` cross as above.
pub open spec fn crossings_before(poly: Seq<Point64>, p: Point64, k: int) -> nat
    decreases k,
{
    if k <= 0 {
        0
    } else {
        crossings_before(poly, p, k - 1) + if crossing_into(poly, p, k - 1) {
            1nat
        } else {
            0nat
        }
    }
}

proof fn lemma_side_back_walk(poly: Seq<Point64>, p: Point64, s: int, j: int, m: int)
    requires
        0 <= s < poly.len(),
        poly[s].y != p.y,
        0 <= j <= poly.len(),
        j <= m,
    ensures
        side_above(poly, p, s, j) == side_back(poly, p, rot(s, j, poly.len() as int), j),
        side_back(poly, p, rot(s, j, poly.len() as int), m) == side_back(poly, p, rot(s, j, poly.len() as int), j),
    decreases j,
{
    let n = poly.len() as int;
    if j > 0 {
        lemma_side_back_walk(poly, p, s, j - 1, m - 1);
        assert(prev_index(rot(s, j, n), n) == rot(s, j - 1, n));
    }
}

proof fn lemma_crossing_at_is_into(poly: Seq<Point64>, p: Point64, s: int, j: int)
    requires
        0 <= s < poly.len(),
        poly[s].y != p.y,
        1 <= j <= poly.len(),
    ensures
        crossing_at(poly, p, s, j) == crossing_into(poly, p, rot(s, j, poly.len() as int)),
{
    let n = poly.len() as int;
    assert(prev_index(rot(s, j, n), n) == rot(s, j - 1, n));
    lemma_side_back_walk(poly, p, s, j - 1, n);
}

proof fn lemma_crossing_count_split(poly: Seq<Point64>, p: Point64, s: int, j: int)
    requires
        0 <= s < poly.len(),
        poly[s].y != p.y,
        0 <= j <= poly.len(),
    ensures
        s + j < poly.len() ==> crossing_count(poly, p, s, j) + crossings_before(poly, p, s + 1) == crossings_before(
            poly,
            p,
            s + j + 1,
        ),
        s + j >= poly.len() ==> crossing_count(poly, p, s, j) + crossings_before(poly, p, s + 1) == crossings_before(
            poly,
            p,
            poly.len() as int,
        ) + crossings_before(poly, p, s + j - poly.len() + 1),
    decreases j,
{
    let n = poly.len() as int;
    if j > 0 {
        lemma_crossing_count_split(poly, p, s, j - 1);
        lemma_crossing_at_is_into(poly, p, s, j);
        if s + j >= n {
            let t = s + j - n;
            assert(rot(s, j, n) == t);
            assert(crossings_before(poly, p, t + 1) == crossings_before(poly, p, t) + if crossing_into(poly, p, t) {
                1nat
            } else {
                0nat
            });
            assert(crossings_before(poly, p, 0) == 0);
        } else {
            assert(crossings_before(poly, p, s + j + 1) == crossings_before(poly, p, s + j) + if crossing_into(
                poly,
                p,
                s + j,
            ) {
                1nat
            } else {
                0nat
            });
        }
    }
}

/// However the walk starts from a vertex off the line through `p`, a full
/// round crosses that line left of `p` the same number of times.
proof fn lemma_crossing_count_any_start(poly: Seq<Point64>, p: Point64, s: int)
    requires
        0 <= s < poly.len(),
        poly[s].y != p.y,
    ensures
        crossing_count(poly, p, s, poly.len() as int) == crossings_before(poly, p, poly.len() as int),
{
    lemma_crossing_count_split(poly, p, s, poly.len() as int);
}

/// `poly` with its list started at vertex `k`.
pub open spec fn rotate_start(poly: Seq<Point64>, k: int) -> Seq<Point64> {
    poly.subrange(k, poly.len() as int) + poly.subrange(0, k)
}

proof fn lemma_rotate_start_index(poly: Seq<Point64>, k: int, i: int)
    requires
        0 <= k < poly.len(),
        0 <= i < poly.len(),
    ensures
        rotate_start(poly, k).len() == poly.len(),
        rotate_start(poly, k)[i] == poly[rot(k, i, poly.len() as int)],
        rot(k, prev_index(i, poly.len() as int), poly.len() as int) == prev_index(
            rot(k, i, poly.len() as int),
            poly.len() as int,
        ),
{
}

proof fn lemma_rotate_side_back(poly: Seq<Point64>, p: Point64, k: int, i: int, m: int)
    requires
        0 <= k < poly.len(),
        0 <= i < poly.len(),
    ensures
        side_back(rotate_start(poly, k), p, i, m) == side_back(poly, p, rot(k, i, poly.len() as int), m),
    decreases m,
{
    let n = poly.len() as int;
    lemma_rotate_start_index(poly, k, i);
    if m > 0 {
        lemma_rotate_side_back(poly, p, k, prev_index(i, n), m - 1);
    }
}

proof fn lemma_rotate_crossings(poly: Seq<Point64>, p: Point64, k: int, i: int)
    requires
        0 <= k < poly.len(),
        0 <= i <= poly.len(),
    ensures
        k + i <= poly.len() ==> crossings_before(rotate_start(poly, k), p, i) + crossings_before(poly, p, k)
            == crossings_before(poly, p, k + i),
        k + i > poly.len() ==> crossings_before(rotate_start(poly, k), p, i) + crossings_before(poly, p, k)
            == crossings_before(poly, p, poly.len() as int) + crossings_before(poly, p, k + i - poly.len()),
    decreases i,
{
    let n = poly.len() as int;
    let q = rotate_start(poly, k);
    if i > 0 {
        lemma_rotate_crossings(poly, p, k, i - 1);
        let v = i - 1;
        lemma_rotate_start_index(poly, k, v);
        lemma_rotate_start_index(poly, k, prev_index(v, n));
        lemma_rotate_side_back(poly, p, k, prev_index(v, n), n);
        assert(crossing_into(q, p, v) == crossing_into(poly, p, rot(k, v, n)));
        let t = rot(k, v, n);
        assert(crossings_before(poly, p, t + 1) == crossings_before(poly, p, t) + if crossing_into(poly, p, t) {
            1nat
        } else {
            0nat
        });
        assert(crossings_before(poly, p, 0) == 0);
    }
}

proof fn lemma_first_off_line_range(poly: Seq<Point64>, p: Point64, i: int)
    requires
        0 <= i <= poly.len(),
    ensures
        i <= first_off_line(poly, p, i) <= poly.len(),
        first_off_line(poly, p, i) < poly.len() ==> poly[first_off_line(poly, p, i)].y != p.y,
        forall|k: int| i <= k < first_off_line(poly, p, i) ==> poly[k].y == p.y,
    decreases poly.len() - i,
{
    if i < poly.len() && poly[i].y == p.y {
        lemma_first_off_line_range(poly, p, i + 1);
    }
}

/// Classifying a point against a polygon does not depend on which vertex
/// the list of vertices starts from.
pub proof fn law_point_in_polygon_rotation(p: Point64, poly: Seq<Point64>, k: int)
    requires
        0 <= k < poly.len(),
    ensures
        point_in_polygon_spec(p, rotate_start(poly, k)) == point_in_polygon_spec(p, poly),
{
    let n = poly.len() as int;
    let q = rotate_start(poly, k);
    assert(q.len() == n);
    lemma_first_off_line_range(poly, p, 0);
    lemma_first_off_line_range(q, p, 0);
    let s = first_off_line(poly, p, 0);
    let s2 = first_off_line(q, p, 0);
    if s < n {
        let i = if s >= k { s - k } else { s + n - k };
        lemma_rotate_start_index(poly, k, i);
        assert(q[i].y != p.y);
        assert(s2 < n);
    }
    if s2 < n {
        lemma_rotate_start_index(poly, k, s2);
        let v = rot(k, s2, n);
        assert(poly[v].y != p.y);
        assert(s < n);
    }
    if on_boundary(poly, p) {
        let v = choose|v: int| 0 <= v < n && #[trigger] on_segment(p, poly[prev_index(v, n)], poly[v]);
        let i = if v >= k { v - k } else { v + n - k };
        lemma_rotate_start_index(poly, k, i);
        lemma_rotate_start_index(poly, k, prev_index(i, n));
        assert(on_segment(p, q[prev_index(i, n)], q[i]));
    }
    if on_boundary(q, p) {
        let i = choose|i: int| 0 <= i < n && #[trigger] on_segment(p, q[prev_index(i, n)], q[i]);
        lemma_rotate_start_index(poly, k, i);
        lemma_rotate_start_index(poly, k, prev_index(i, n));
        assert(on_segment(p, poly[prev_index(rot(k, i, n), n)], poly[rot(k, i, n)]));
    }
    if s < n && s2 < n {
        lemma_rotate_crossings(poly, p, k, n);
        lemma_crossing_count_any_start(poly, p, s);
        lemma_crossing_count_any_start(q, p, s2);
    }
}

/// Index of the vertex after `k` in a closed ring of `n` vertices.
pub open spec fn next_index(k: int, n: int) -> int {
    if k + 1 >= n {
        0
    } else {
        k + 1
    }
}

/// The side of the line through `p` (above: smaller y) of the nearest
/// vertex off that line, looking forward from vertex `v` (itself included)
/// at most `m` steps round the ring.
pub open spec fn side_fwd(poly: Seq<Point64>, p: Point64, v: int, m: int) -> bool
    decreases m,
{
    if m <= 0 || poly[v].y != p.y {
        poly[v].y < p.y
    } else {
        side_fwd(poly, p, next_index(v, poly.len() as int), m - 1)
    }
}

/// The edge leaving vertex `u`, walked backward into `u`, crosses the line
/// through `p` to the left of `p`, coming from the other side.
pub open spec fn crossing_out(poly: Seq<Point64>, p: Point64, u: int) -> bool {
    let n = poly.len() as int;
    let w = next_index(u, n);
    &&& poly[u].y != p.y
    &&& (poly[u].y < p.y) != side_fwd(poly, p, w, n)
    &&& crosses_left(poly[w], poly[u], p)
}

/// How many of the vertices `0..k` have a crossing as above.
pub open spec fn out_before(poly: Seq<Point64>, p: Point64, k: int) -> nat
    decreases k,
{
    if k <= 0 {
        0
    } else {
        out_before(poly, p, k - 1) + if crossing_out(poly, p, k - 1) {
            1nat
        } else {
            0nat
        }
    }
}

/// The same crossings counted over the first `j` vertices of the walk from
/// vertex `s`.
pub open spec fn out_walk(poly: Seq<Point64>, p: Point64, s: int, j: int) -> nat
    decreases j,
{
    if j <= 0 {
        0
    } else {
        out_walk(poly, p, s, j - 1) + if crossing_out(poly, p, rot(s, j - 1, poly.len() as int)) {
            1nat
        } else {
            0nat
        }
    }
}

/// The last step at or before `j` of the walk from `s` that reaches a
/// vertex off the line through `p` (`0` when there is none).
pub open spec fn last_off(poly: Seq<Point64>, p: Point64, s: int, j: int) -> int
    decreases j,
{
    if j <= 0 {
        0
    } else if rotated(poly, s, j).y != p.y {
        j
    } else {
        last_off(poly, p, s, j - 1)
    }
}

/// `poly` with its vertices in the opposite order.
pub open spec fn reversed(poly: Seq<Point64>) -> Seq<Point64> {
    Seq::new(poly.len(), |i: int| poly[poly.len() - 1 - i])
}

proof fn lemma_cross_swap(a: Point64, b: Point64, p: Point64)
    ensures
        cross(b, a, p) == -cross(a, b, p),
        crosses_left(b, a, p) == crosses_left(a, b, p),
        on_segment(p, b, a) == on_segment(p, a, b),
{
    let (ax, ay, bx, by, px, py) = (a.x as int, a.y as int, b.x as int, b.y as int, p.x as int, p.y as int);
    assert((ax - bx) * (py - ay) - (ay - by) * (px - ax) == -((bx - ax) * (py - by) - (by - ay) * (px - bx)))
        by (nonlinear_arith);
    assert(cross(b, a, p) * (ay - by) == cross(a, b, p) * (by - ay)) by (nonlinear_arith)
        requires
            cross(b, a, p) == -cross(a, b, p),
    ;
}

/// From a vertex on the line, an edge to a vertex off it crosses left of
/// `p` exactly when `p` lies right of the first vertex.
proof fn lemma_left_from_line(a: Point64, b: Point64, p: Point64)
    requires
        a.y == p.y,
        b.y != p.y,
    ensures
        crosses_left(a, b, p) == (p.x > a.x),
{
    let (ax, ay, bx, by, px, py) = (a.x as int, a.y as int, b.x as int, b.y as int, p.x as int, p.y as int);
    assert(cross(a, b, p) == -((by - ay) * (px - ax))) by (nonlinear_arith)
        requires
            ay == py,
            cross(a, b, p) == (bx - ax) * (py - by) - (by - ay) * (px - bx),
    ;
    assert(cross(a, b, p) * (by - ay) == -((by - ay) * (by - ay)) * (px - ax)) by (nonlinear_arith)
        requires
            cross(a, b, p) == -((by - ay) * (px - ax)),
    ;
    assert((by - ay) * (by - ay) > 0) by (nonlinear_arith)
        requires
            by != ay,
    ;
    assert(-((by - ay) * (by - ay)) * (px - ax) < 0 <==> px > ax) by (nonlinear_arith)
        requires
            (by - ay) * (by - ay) > 0,
    ;
}

proof fn lemma_last_off(poly: Seq<Point64>, p: Point64, s: int, j: int)
    requires
        0 <= s < poly.len(),
        poly[s].y != p.y,
        0 <= j <= poly.len(),
    ensures
        0 <= last_off(poly, p, s, j) <= j,
        rotated(poly, s, last_off(poly, p, s, j)).y != p.y,
        forall|t: int| last_off(poly, p, s, j) < t <= j ==> #[trigger] rotated(poly, s, t).y == p.y,
        side_above(poly, p, s, j) == (rotated(poly, s, last_off(poly, p, s, j)).y < p.y),
    decreases j,
{
    if j > 0 {
        lemma_last_off(poly, p, s, j - 1);
    }
}

/// Looking forward from a step inside a run on the line, the first vertex
/// off it is the one the run leads to.
proof fn lemma_side_fwd_run(poly: Seq<Point64>, p: Point64, s: int, t: int, e: int, m: int)
    requires
        0 <= s < poly.len(),
        0 <= t <= e <= poly.len(),
        rotated(poly, s, e).y != p.y,
        forall|u: int| t <= u < e ==> #[trigger] rotated(poly, s, u).y == p.y,
        m >= e - t,
    ensures
        side_fwd(poly, p, rot(s, t, poly.len() as int), m) == (rotated(poly, s, e).y < p.y),
    decreases e - t,
{
    let n = poly.len() as int;
    if t < e {
        assert(rotated(poly, s, t).y == p.y);
        assert(next_index(rot(s, t, n), n) == rot(s, t + 1, n));
        lemma_side_fwd_run(poly, p, s, t + 1, e, m - 1);
        assert(side_fwd(poly, p, rot(s, t, n), m) == side_fwd(poly, p, rot(s, t + 1, n), m - 1));
    } else {
        assert(poly[rot(s, t, n)].y != p.y);
    }
}

/// Along a run of vertices on the line through `p` whose edges miss `p`,
/// every vertex lies on the same side of `p` as the first.
proof fn lemma_run_same_side(poly: Seq<Point64>, p: Point64, s: int, t0: int, t: int)
    requires
        0 <= s < poly.len(),
        1 <= t0 <= t <= poly.len(),
        forall|u: int| t0 <= u <= t ==> #[trigger] rotated(poly, s, u).y == p.y,
        !on_boundary(poly, p),
    ensures
        (p.x > rotated(poly, s, t).x) == (p.x > rotated(poly, s, t0).x),
        rotated(poly, s, t).x != p.x,
    decreases t - t0,
{
    let n = poly.len() as int;
    let k = rot(s, t, n);
    assert(rot(s, t - 1, n) == prev_index(k, n));
    assert(!on_segment(p, poly[prev_index(k, n)], poly[k]));
    assert(rotated(poly, s, t) != p) by {
        if rotated(poly, s, t) == p {
            assert(on_segment(p, poly[prev_index(k, n)], poly[k]));
        }
    }
    if t > t0 {
        lemma_run_same_side(poly, p, s, t0, t - 1);
        lemma_online_both(p, rotated(poly, s, t - 1), rotated(poly, s, t));
    }
}

/// The crossing at step `j + 1` of the walk from `s` is the crossing out of
/// the last vertex off the line before it.
proof fn lemma_gap(poly: Seq<Point64>, p: Point64, s: int, j: int)
    requires
        0 <= s < poly.len(),
        poly[s].y != p.y,
        0 <= j < poly.len(),
        rotated(poly, s, j + 1).y != p.y,
        !on_boundary(poly, p),
    ensures
        crossing_at(poly, p, s, j + 1) == crossing_out(poly, p, rot(s, last_off(poly, p, s, j), poly.len() as int)),
{
    let n = poly.len() as int;
    lemma_last_off(poly, p, s, j);
    let l = last_off(poly, p, s, j);
    let u = rot(s, l, n);
    let v = rotated(poly, s, j + 1);
    assert(next_index(u, n) == rot(s, l + 1, n));
    lemma_side_fwd_run(poly, p, s, l + 1, j + 1, n);
    if l == j {
        lemma_cross_swap(poly[u], v, p);
    } else {
        lemma_left_from_line(rotated(poly, s, j), v, p);
        lemma_left_from_line(rotated(poly, s, l + 1), poly[u], p);
        lemma_run_same_side(poly, p, s, l + 1, j);
    }
}

proof fn lemma_walk_counts(poly: Seq<Point64>, p: Point64, s: int, j: int)
    requires
        0 <= s < poly.len(),
        poly[s].y != p.y,
        0 <= j <= poly.len(),
        !on_boundary(poly, p),
    ensures
        crossing_count(poly, p, s, j) == out_walk(poly, p, s, last_off(poly, p, s, j)),
        j < poly.len() ==> out_walk(poly, p, s, j + 1) == out_walk(poly, p, s, last_off(poly, p, s, j)) + if crossing_out(
            poly,
            p,
            rot(s, last_off(poly, p, s, j), poly.len() as int),
        ) {
            1nat
        } else {
            0nat
        },
    decreases j,
{
    let n = poly.len() as int;
    if j > 0 {
        lemma_walk_counts(poly, p, s, j - 1);
        lemma_last_off(poly, p, s, j - 1);
        if rotated(poly, s, j).y != p.y {
            lemma_gap(poly, p, s, j - 1);
        }
    }
}

proof fn lemma_out_walk_split(poly: Seq<Point64>, p: Point64, s: int, j: int)
    requires
        0 <= s < poly.len(),
        0 <= j <= poly.len(),
    ensures
        s + j <= poly.len() ==> out_walk(poly, p, s, j) + out_before(poly, p, s) == out_before(poly, p, s + j),
        s + j > poly.len() ==> out_walk(poly, p, s, j) + out_before(poly, p, s) == out_before(
            poly,
            p,
            poly.len() as int,
        ) + out_before(poly, p, s + j - poly.len()),
    decreases j,
{
    let n = poly.len() as int;
    if j > 0 {
        lemma_out_walk_split(poly, p, s, j - 1);
        let t = rot(s, j - 1, n);
        assert(out_before(poly, p, t + 1) == out_before(poly, p, t) + if crossing_out(poly, p, t) {
            1nat
        } else {
            0nat
        });
        assert(out_before(poly, p, 0) == 0);
    }
}

proof fn lemma_reversed_side(poly: Seq<Point64>, p: Point64, i: int, m: int)
    requires
        0 <= i < poly.len(),
    ensures
        side_back(reversed(poly), p, i, m) == side_fwd(poly, p, poly.len() - 1 - i, m),
    decreases m,
{
    let n = poly.len() as int;
    if m > 0 {
        assert(n - 1 - prev_index(i, n) == next_index(n - 1 - i, n));
        lemma_reversed_side(poly, p, prev_index(i, n), m - 1);
    }
}

proof fn lemma_reversed_crossings(poly: Seq<Point64>, p: Point64, k: int)
    requires
        0 <= k <= poly.len(),
    ensures
        crossings_before(reversed(poly), p, k) + out_before(poly, p, poly.len() - k) == out_before(
            poly,
            p,
            poly.len() as int,
        ),
    decreases k,
{
    let n = poly.len() as int;
    let q = reversed(poly);
    if k > 0 {
        lemma_reversed_crossings(poly, p, k - 1);
        let i = k - 1;
        let u = n - 1 - i;
        assert(n - 1 - prev_index(i, n) == next_index(u, n));
        lemma_reversed_side(poly, p, prev_index(i, n), n);
        assert(q[i] == poly[u]);
        assert(q[prev_index(i, n)] == poly[next_index(u, n)]);
        assert(crossing_into(q, p, i) == crossing_out(poly, p, u));
        assert(out_before(poly, p, u + 1) == out_before(poly, p, u) + if crossing_out(poly, p, u) {
            1nat
        } else {
            0nat
        });
    }
}

/// Classifying a point against a polygon does not depend on the direction
/// in which its vertices are listed.
pub proof fn law_point_in_polygon_reversal(p: Point64, poly: Seq<Point64>)
    ensures
        point_in_polygon_spec(p, reversed(poly)) == point_in_polygon_spec(p, poly),
{
    let n = poly.len() as int;
    let q = reversed(poly);
    assert(q.len() == n);
    if n >= 3 {
        lemma_first_off_line_range(poly, p, 0);
        lemma_first_off_line_range(q, p, 0);
        let s = first_off_line(poly, p, 0);
        let s2 = first_off_line(q, p, 0);
        if s < n {
            assert(q[n - 1 - s].y != p.y);
            assert(s2 < n);
        }
        if s2 < n {
            assert(poly[n - 1 - s2].y != p.y);
            assert(s < n);
        }
        if on_boundary(poly, p) {
            let v = choose|v: int| 0 <= v < n && #[trigger] on_segment(p, poly[prev_index(v, n)], poly[v]);
            let i = n - 1 - prev_index(v, n);
            assert(q[i] == poly[prev_index(v, n)]);
            assert(q[prev_index(i, n)] == poly[v]);
            lemma_cross_swap(poly[prev_index(v, n)], poly[v], p);
            assert(on_segment(p, q[prev_index(i, n)], q[i]));
        }
        if on_boundary(q, p) {
            let i = choose|i: int| 0 <= i < n && #[trigger] on_segment(p, q[prev_index(i, n)], q[i]);
            let v = n - 1 - prev_index(i, n);
            assert(q[i] == poly[prev_index(v, n)]);
            assert(q[prev_index(i, n)] == poly[v]);
            lemma_cross_swap(poly[prev_index(v, n)], poly[v], p);
            assert(on_segment(p, poly[prev_index(v, n)], poly[v]));
        }
        if s < n && s2 < n && !on_boundary(poly, p) {
            lemma_walk_counts(poly, p, s, n);
            assert(rot(s, n, n) == s);
            assert(last_off(poly, p, s, n) == n);
            lemma_out_walk_split(poly, p, s, n);
            lemma_reversed_crossings(poly, p, n);
            lemma_crossing_count_any_start(q, p, s2);
        }
    }
}

} // verus!
