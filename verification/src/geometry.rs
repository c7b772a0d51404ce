//! Integer points and rectangles with their exact predicates.
use vstd::prelude::*;
use crate::text::{int_text, push_int};
use crate::path_data::string_of_range;

verus! {

/// A point on the 64-bit integer grid.
#[derive(Debug, Clone, Copy, PartialEq, Eq, Structural)]
pub struct Point64 {
    pub x: i64,
    pub y: i64,
}

impl Point64 {
    /// Creates a new point from two coordinates.
    pub fn new(x: i64, y: i64) -> (r: Self)
        ensures
            r.x == x,
            r.y == y,
    {
        Point64 { x, y }
    }

    /// Copy constructor.
    pub fn from_point(pt: &Self) -> (r: Self)
        ensures
            r == *pt,
    {
        *pt
    }
}

/// An axis-aligned rectangle on the integer grid (y grows downwards).
#[derive(Debug, Clone, Copy, PartialEq, Eq, Structural)]
pub struct Rect64 {
    pub left: i64,
    pub top: i64,
    pub right: i64,
    pub bottom: i64,
}

/// The larger of two integers.
pub open spec fn max_int(a: int, b: int) -> int {
    if a >= b { a } else { b }
}

/// The smaller of two integers.
pub open spec fn min_int(a: int, b: int) -> int {
    if a <= b { a } else { b }
}

/// Integer division rounding towards zero, as the machine division does.
pub open spec fn div_trunc(a: int, b: int) -> int
    recommends
        b != 0,
{
    if a >= 0 {
        a / b
    } else {
        -((-a) / b)
    }
}

impl Rect64 {
    /// Creates a new rectangle.
    pub fn new(l: i64, t: i64, r: i64, b: i64) -> (res: Self)
        ensures
            res.left == l,
            res.top == t,
            res.right == r,
            res.bottom == b,
    {
        Rect64 { left: l, top: t, right: r, bottom: b }
    }

    /// The all-zero rectangle when `is_valid`, otherwise the inverted
    /// rectangle that serves as the start value of a bounds computation.
    pub fn new_valid(is_valid: bool) -> (res: Self)
        ensures
            is_valid ==> res == (Rect64 { left: 0, top: 0, right: 0, bottom: 0 }),
            !is_valid ==> res == (Rect64 {
                left: i64::MAX,
                top: i64::MAX,
                right: i64::MIN,
                bottom: i64::MIN,
            }),
    {
        if is_valid {
            Rect64 { left: 0, top: 0, right: 0, bottom: 0 }
        } else {
            Rect64 { left: i64::MAX, top: i64::MAX, right: i64::MIN, bottom: i64::MIN }
        }
    }

    /// Returns the width.
    pub fn width(&self) -> (w: i64)
        requires
            i64::MIN <= self.right - self.left <= i64::MAX,
        ensures
            w == self.right - self.left,
    {
        self.right - self.left
    }

    /// Sets the width by moving the right edge.
    pub fn set_width(&mut self, width: i64)
        requires
            i64::MIN <= old(self).left + width <= i64::MAX,
        ensures
            final(self).right == old(self).left + width,
            final(self).left == old(self).left,
            final(self).top == old(self).top,
            final(self).bottom == old(self).bottom,
    {
        self.right = self.left + width;
    }

    /// Returns the height.
    pub fn height(&self) -> (h: i64)
        requires
            i64::MIN <= self.bottom - self.top <= i64::MAX,
        ensures
            h == self.bottom - self.top,
    {
        self.bottom - self.top
    }

    /// Sets the height by moving the bottom edge.
    pub fn set_height(&mut self, height: i64)
        requires
            i64::MIN <= old(self).top + height <= i64::MAX,
        ensures
            final(self).bottom == old(self).top + height,
            final(self).left == old(self).left,
            final(self).top == old(self).top,
            final(self).right == old(self).right,
    {
        self.bottom = self.top + height;
    }

    /// True when the rectangle encloses no area.
    pub fn is_empty(&self) -> (b: bool)
        ensures
            b == (self.bottom <= self.top || self.right <= self.left),
    {
        self.bottom <= self.top || self.right <= self.left
    }

    /// False only for a rectangle whose left edge is still at the start
    /// value of a bounds computation.
    pub fn is_valid(&self) -> (b: bool)
        ensures
            b == (self.left < i64::MAX),
    {
        self.left < i64::MAX
    }

    /// The midpoint, each coordinate halved towards zero.
    pub fn mid_point(&self) -> (p: Point64)
        requires
            i64::MIN <= self.left + self.right <= i64::MAX,
            i64::MIN <= self.top + self.bottom <= i64::MAX,
        ensures
            p.x == div_trunc(self.left + self.right, 2),
            p.y == div_trunc(self.top + self.bottom, 2),
    {
        let sx: i64 = self.left + self.right;
        let sy: i64 = self.top + self.bottom;
        Point64::new(halve(sx), halve(sy))
    }

    /// True when the point lies strictly inside.
    pub fn contains_point(&self, pt: &Point64) -> (b: bool)
        ensures
            b == (self.left < pt.x < self.right && self.top < pt.y < self.bottom),
    {
        pt.x > self.left && pt.x < self.right && pt.y > self.top && pt.y < self.bottom
    }

    /// True when `other` lies within this rectangle (edges may touch).
    pub fn contains_rect(&self, other: &Rect64) -> (b: bool)
        ensures
            b == (other.left >= self.left && other.right <= self.right && other.top
                >= self.top && other.bottom <= self.bottom),
    {
        other.left >= self.left && other.right <= self.right && other.top >= self.top
            && other.bottom <= self.bottom
    }

    /// True when the two closed rectangles share at least one point.
    pub fn intersects(&self, other: &Rect64) -> (b: bool)
        ensures
            b == (max_int(self.left as int, other.left as int) <= min_int(
                self.right as int,
                other.right as int,
            ) && max_int(self.top as int, other.top as int) <= min_int(
                self.bottom as int,
                other.bottom as int,
            )),
    {
        let l = if self.left >= other.left { self.left } else { other.left };
        let r = if self.right <= other.right { self.right } else { other.right };
        let t = if self.top >= other.top { self.top } else { other.top };
        let b = if self.bottom <= other.bottom { self.bottom } else { other.bottom };
        l <= r && t <= b
    }

    /// The rectangle as a closed path: top-left, top-right, bottom-right,
    /// bottom-left.
    pub fn as_path(&self) -> (p: Vec<Point64>)
        ensures
            p@ == seq![
                Point64 { x: self.left, y: self.top },
                Point64 { x: self.right, y: self.top },
                Point64 { x: self.right, y: self.bottom },
                Point64 { x: self.left, y: self.bottom },
            ],
    {
        let mut v: Vec<Point64> = Vec::new();
        v.push(Point64::new(self.left, self.top));
        v.push(Point64::new(self.right, self.top));
        v.push(Point64::new(self.right, self.bottom));
        v.push(Point64::new(self.left, self.bottom));
        v
    }
}

/// Halves a value, rounding towards zero.
fn halve(v: i64) -> (r: i64)
    ensures
        r == div_trunc(v as int, 2),
{
    if v >= 0 {
        v / 2
    } else {
        let u: i64 = -(v + 1);
        let q: i64 = u / 2 + u % 2;
        proof {
            assert(q == (-(v as int)) / 2) by (nonlinear_arith)
                requires
                    u == -(v + 1),
                    u >= 0,
                    q == u / 2 + u % 2;
        }
        -q
    }
}

/// The operation a clipper applies to subject and clip regions.
#[derive(Debug, Clone, Copy, PartialEq, Eq, Structural)]
pub enum ClipType {
    NoClip,
    Intersection,
    Union,
    Difference,
    Xor,
}

/// Whether a path is a subject or a clip path.
#[derive(Debug, Clone, Copy, PartialEq, Eq, Structural)]
pub enum PathType {
    Subject,
    Clip,
}

/// How winding numbers decide what is filled.
#[derive(Debug, Clone, Copy, PartialEq, Eq, Structural)]
pub enum FillRule {
    EvenOdd,
    NonZero,
    Positive,
    Negative,
}

/// Where a point lies relative to a polygon.
#[derive(Debug, Clone, Copy, PartialEq, Eq, Structural)]
pub enum PipResult {
    Inside,
    Outside,
    OnEdge,
}

/// Another name for `PipResult`.
pub type PointInPolygonResult = PipResult;


/// The text of a point: its coordinates in decimal, separated by a comma
/// and followed by a space.
pub open spec fn point64_text(p: Point64) -> Seq<char> {
    int_text(p.x as int) + seq![','] + int_text(p.y as int) + seq![' ']
}

/// The texts of the points of a path, joined by a comma and a space.
pub open spec fn path64_text(s: Seq<Point64>) -> Seq<char>
    decreases s.len(),
{
    if s.len() == 0 {
        seq![]
    } else if s.len() == 1 {
        point64_text(s[0])
    } else {
        path64_text(s.drop_last()) + seq![',', ' '] + point64_text(s.last())
    }
}

/// The texts of paths, one per line.
pub open spec fn paths64_text(ps: Seq<Seq<Point64>>) -> Seq<char>
    decreases ps.len(),
{
    if ps.len() == 0 {
        seq![]
    } else {
        paths64_text(ps.drop_last()) + path64_text(ps.last()) + seq!['\n']
    }
}

fn push_point_text(out: &mut Vec<char>, p: Point64)
    ensures
        final(out)@ == old(out)@ + point64_text(p),
{
    let ghost o = out@;
    push_int(out, p.x);
    out.push(',');
    push_int(out, p.y);
    out.push(' ');
    assert(out@ =~= o + point64_text(p));
}

fn push_path_text(out: &mut Vec<char>, path: &Vec<Point64>)
    ensures
        final(out)@ == old(out)@ + path64_text(path@),
{
    let ghost o = out@;
    let mut i: usize = 0;
    while i < path.len()
        invariant
            i <= path@.len(),
            out@ == o + path64_text(path@.take(i as int)),
        decreases path@.len() - i,
    {
        let ghost before = out@;
        if i > 0 {
            out.push(',');
            out.push(' ');
        }
        push_point_text(out, path[i]);
        proof {
            assert(path@.take(i + 1).drop_last() =~= path@.take(i as int));
            if i == 0 {
                assert(path64_text(path@.take(1)) == point64_text(path@[0]));
                assert(path@.take(0) =~= Seq::<Point64>::empty());
            }
            assert(out@ =~= o + path64_text(path@.take(i + 1)));
        }
        i += 1;
    }
    assert(path@.take(path@.len() as int) =~= path@);
}

impl Point64 {
    /// The point's text (see `point64_text`).
    pub fn to_string(&self) -> (r: String)
        ensures
            r@ == point64_text(*self),
    {
        let mut out: Vec<char> = Vec::new();
        push_point_text(&mut out, *self);
        assert(out@ =~= point64_text(*self));
        let n = out.len();
        string_of_range(&out, 0, n)
    }
}

/// The text form of a path.
pub trait DisplayPath64 {
    fn to_string(&self) -> String;
}

impl DisplayPath64 for Vec<Point64> {
    /// The path's text (see `path64_text`).
    fn to_string(&self) -> (r: String)
        ensures
            r@ == path64_text(self@),
    {
        let mut out: Vec<char> = Vec::new();
        push_path_text(&mut out, self);
        assert(out@ =~= path64_text(self@));
        let n = out.len();
        string_of_range(&out, 0, n)
    }
}

/// The text form of a list of paths.
pub trait DisplayPaths64 {
    fn to_string(&self) -> String;
}

impl DisplayPaths64 for Vec<Vec<Point64>> {
    /// The paths' text (see `paths64_text`).
    fn to_string(&self) -> (r: String)
        ensures
            r@ == paths64_text(self@.map_values(|p: Vec<Point64>| p@)),
    {
        let ghost ps = self@.map_values(|p: Vec<Point64>| p@);
        let mut out: Vec<char> = Vec::new();
        let mut i: usize = 0;
        while i < self.len()
            invariant
                i <= self@.len(),
                ps == self@.map_values(|p: Vec<Point64>| p@),
                out@ == paths64_text(ps.take(i as int)),
            decreases self@.len() - i,
        {
            push_path_text(&mut out, &self[i]);
            out.push('\n');
            proof {
                assert(ps.take(i + 1).drop_last() =~= ps.take(i as int));
                assert(ps.take(i + 1).last() == self@[i as int]@);
            }
            i += 1;
        }
        assert(ps.take(ps.len() as int) =~= ps);
        let n = out.len();
        string_of_range(&out, 0, n)
    }
}

} // verus!
