//! Stateless helpers of the clipper base: exact slope tests, betweenness and
//! bounds of a path collection.
use vstd::prelude::*;
use crate::clipper_v1::types::{IntPoint, IntRect};
use crate::clipper_v1::tedge::{TEdge, x_at_y, x_at_y_defined};
use crate::internal_clipper::{compare_products, sign};

verus! {

/// The slopes of `pt1 -> pt2` and `pt2 -> pt3` are equal.
pub open spec fn slopes_equal_spec(pt1: IntPoint, pt2: IntPoint, pt3: IntPoint) -> bool {
    (pt1.y - pt2.y) * (pt2.x - pt3.x) == (pt1.x - pt2.x) * (pt2.y - pt3.y)
}

/// `pt2` differs from both other points and lies strictly between them
/// along the x axis, or along the y axis when `pt1` and `pt3` share x.
pub open spec fn pt2_between_spec(pt1: IntPoint, pt2: IntPoint, pt3: IntPoint) -> bool {
    if pt1 == pt3 || pt1 == pt2 || pt3 == pt2 {
        false
    } else if pt1.x != pt3.x {
        (pt2.x > pt1.x) == (pt2.x < pt3.x)
    } else {
        (pt2.y > pt1.y) == (pt2.y < pt3.y)
    }
}

/// Every path of the collection is empty.
pub open spec fn all_empty(paths: Seq<Vec<IntPoint>>) -> bool {
    forall|i: int| 0 <= i < paths.len() ==> (#[trigger] paths[i])@.len() == 0
}

/// `r` is the tightest rectangle holding every point of the collection.
pub open spec fn is_bounds(paths: Seq<Vec<IntPoint>>, r: IntRect) -> bool {
    &&& forall|i: int, j: int|
        0 <= i < paths.len() && 0 <= j < paths[i]@.len() ==> {
            let p = #[trigger] paths[i]@[j];
            r.left <= p.x <= r.right && r.top <= p.y <= r.bottom
        }
    &&& exists|i: int, j: int|
        0 <= i < paths.len() && 0 <= j < paths[i]@.len() && (#[trigger] paths[i]@[j]).x == r.left
    &&& exists|i: int, j: int|
        0 <= i < paths.len() && 0 <= j < paths[i]@.len() && (#[trigger] paths[i]@[j]).x == r.right
    &&& exists|i: int, j: int|
        0 <= i < paths.len() && 0 <= j < paths[i]@.len() && (#[trigger] paths[i]@[j]).y == r.top
    &&& exists|i: int, j: int|
        0 <= i < paths.len() && 0 <= j < paths[i]@.len() && (#[trigger] paths[i]@[j]).y
            == r.bottom
}

/// Stateless operations of the clipper base.
pub struct ClipperBaseStatic;

/// Decides `a * b == c * d` exactly for coordinate differences.
fn products_match(a: i128, b: i128, c: i128, d: i128) -> (r: bool)
    requires
        -0x1_0000_0000_0000_0000 < a < 0x1_0000_0000_0000_0000,
        -0x1_0000_0000_0000_0000 < b < 0x1_0000_0000_0000_0000,
        -0x1_0000_0000_0000_0000 < c < 0x1_0000_0000_0000_0000,
        -0x1_0000_0000_0000_0000 < d < 0x1_0000_0000_0000_0000,
    ensures
        r == (a * b == c * d),
{
    compare_products(a, b, c, d) == 0
}

impl ClipperBaseStatic {
    /// Swaps two values.
    pub fn swap(val1: &mut i64, val2: &mut i64)
        ensures
            *final(val1) == *old(val2),
            *final(val2) == *old(val1),
    {
        let t = *val1;
        *val1 = *val2;
        *val2 = t;
    }

    /// True when `pt1`, `pt2` and `pt3` lie on one line, decided exactly
    /// (both ranges give the same answer).
    pub fn slopes_equal(pt1: &IntPoint, pt2: &IntPoint, pt3: &IntPoint, use_full_range: bool) -> (r:
        bool)
        ensures
            r == slopes_equal_spec(*pt1, *pt2, *pt3),
    {
        let a: i128 = (pt1.y as i128) - (pt2.y as i128);
        let b: i128 = (pt2.x as i128) - (pt3.x as i128);
        let c: i128 = (pt1.x as i128) - (pt2.x as i128);
        let d: i128 = (pt2.y as i128) - (pt3.y as i128);
        products_match(a, b, c, d)
    }

    /// True when two edges have equal slopes, decided exactly.
    pub fn slopes_equal_edge(e1: &TEdge, e2: &TEdge, use_full_range: bool) -> (r: bool)
        ensures
            r == (e1.delta.y * e2.delta.x == e1.delta.x * e2.delta.y),
    {
        products_match(
            e1.delta.y as i128,
            e2.delta.x as i128,
            e1.delta.x as i128,
            e2.delta.y as i128,
        )
    }

    /// True when `pt2` lies strictly between `pt1` and `pt3` (see
    /// `pt2_between_spec`).
    pub fn pt2_is_between_pt1_and_pt3(pt1: &IntPoint, pt2: &IntPoint, pt3: &IntPoint) -> (r: bool)
        ensures
            r == pt2_between_spec(*pt1, *pt2, *pt3),
    {
        if *pt1 == *pt3 || *pt1 == *pt2 || *pt3 == *pt2 {
            return false;
        }
        if pt1.x != pt3.x {
            (pt2.x > pt1.x) == (pt2.x < pt3.x)
        } else {
            (pt2.y > pt1.y) == (pt2.y < pt3.y)
        }
    }

    /// The x of `edge` at height `current_y` (see `x_at_y`).
    pub fn get_x_at_y(edge: &TEdge, current_y: i64) -> (r: i64)
        requires
            x_at_y_defined(*edge, current_y as int),
        ensures
            r == x_at_y(*edge, current_y as int),
    {
        edge.get_x_at_y(current_y)
    }


    /// True for an edge without vertical extent.
    pub fn is_horizontal(e: &TEdge) -> (b: bool)
        ensures
            b == (e.delta.y == 0),
    {
        e.delta.y == 0
    }

    /// The bounding rectangle of all points, or the zero rectangle when
    /// every path is empty.
    pub fn get_bounds(paths: &Vec<Vec<IntPoint>>) -> (r: IntRect)
        ensures
            all_empty(paths@) ==> r == (IntRect { left: 0, top: 0, right: 0, bottom: 0 }),
            !all_empty(paths@) ==> is_bounds(paths@, r),
    {
        let cnt = paths.len();
        let mut i: usize = 0;
        while i < cnt && paths[i].len() == 0
            invariant
                i <= cnt,
                cnt == paths.len(),
                forall|k: int| 0 <= k < i ==> (#[trigger] paths@[k])@.len() == 0,
            decreases cnt - i,
        {
            i += 1;
        }
        if i == cnt {
            return IntRect::new(0, 0, 0, 0);
        }
        let first = paths[i][0];
        let ghost fi = i as int;
        let mut result = IntRect::new(first.x, first.y, first.x, first.y);
        let mut pi: usize = i;
        while pi < cnt
            invariant
                cnt == paths.len(),
                fi <= pi <= cnt,
                0 <= fi < cnt,
                paths@[fi]@.len() > 0,
                first == paths@[fi]@[0],
                forall|k: int| 0 <= k < fi ==> (#[trigger] paths@[k])@.len() == 0,
                forall|a: int, b: int|
                    0 <= a < pi && 0 <= b < paths@[a]@.len() ==> {
                        let p = #[trigger] paths@[a]@[b];
                        result.left <= p.x <= result.right && result.top <= p.y <= result.bottom
                    },
                first.x >= result.left && first.x <= result.right,
                first.y >= result.top && first.y <= result.bottom,
                exists|a: int, b: int|
                    0 <= a < paths.len() && 0 <= b < paths@[a]@.len() && (#[trigger] paths@[a]@[b]).x
                        == result.left,
                exists|a: int, b: int|
                    0 <= a < paths.len() && 0 <= b < paths@[a]@.len() && (#[trigger] paths@[a]@[b]).x
                        == result.right,
                exists|a: int, b: int|
                    0 <= a < paths.len() && 0 <= b < paths@[a]@.len() && (#[trigger] paths@[a]@[b]).y
                        == result.top,
                exists|a: int, b: int|
                    0 <= a < paths.len() && 0 <= b < paths@[a]@.len() && (#[trigger] paths@[a]@[b]).y
                        == result.bottom,
            decreases cnt - pi,
        {
            let path = &paths[pi];
            let n = path.len();
            let mut j: usize = 0;
            while j < n
                invariant
                    cnt == paths.len(),
                    fi <= pi < cnt,
                    0 <= fi < cnt,
                    *path == paths@[pi as int],
                    n == path@.len(),
                    j <= n,
                    paths@[fi]@.len() > 0,
                    first == paths@[fi]@[0],
                    forall|k: int| 0 <= k < fi ==> (#[trigger] paths@[k])@.len() == 0,
                    forall|a: int, b: int|
                        0 <= a < pi && 0 <= b < paths@[a]@.len() ==> {
                            let p = #[trigger] paths@[a]@[b];
                            result.left <= p.x <= result.right && result.top <= p.y <= result.bottom
                        },
                    forall|b: int|
                        0 <= b < j ==> {
                            let p = #[trigger] path@[b];
                            result.left <= p.x <= result.right && result.top <= p.y <= result.bottom
                        },
                    first.x >= result.left && first.x <= result.right,
                    first.y >= result.top && first.y <= result.bottom,
                    exists|a: int, b: int|
                        0 <= a < paths.len() && 0 <= b < paths@[a]@.len() && (#[trigger] paths@[a]@[
                            b]).x == result.left,
                    exists|a: int, b: int|
                        0 <= a < paths.len() && 0 <= b < paths@[a]@.len() && (#[trigger] paths@[a]@[
                            b]).x == result.right,
                    exists|a: int, b: int|
                        0 <= a < paths.len() && 0 <= b < paths@[a]@.len() && (#[trigger] paths@[a]@[
                            b]).y == result.top,
                    exists|a: int, b: int|
                        0 <= a < paths.len() && 0 <= b < paths@[a]@.len() && (#[trigger] paths@[a]@[
                            b]).y == result.bottom,
                decreases n - j,
            {
                let pt = path[j];
                assert(pt == paths@[pi as int]@[j as int]);
                if pt.x < result.left {
                    result.left = pt.x;
                }
                if pt.x > result.right {
                    result.right = pt.x;
                }
                if pt.y < result.top {
                    result.top = pt.y;
                }
                if pt.y > result.bottom {
                    result.bottom = pt.y;
                }
                j += 1;
            }
            pi += 1;
        }
        assert(!all_empty(paths@) ==> is_bounds(paths@, result));
        result
    }
}

} // verus!
