//! Integer polygon clipping and Minkowski sums on top of the Clipper2
//! engine: plain point lists in, plain point lists out.
use vstd::prelude::*;
use clipper2_sys::Clipper64;
use clipper2_sys::Path64;
use clipper2_sys::Paths64;
use clipper2_sys::Point64;

verus! {

/// The Clipper2 integer clipping engine.
#[verifier::external_type_specification]
#[verifier::external_body]
pub struct ExClipper64(Clipper64);

/// The role of paths handed to a clipper.
#[derive(Debug, PartialEq, Eq, Structural, Clone, Copy)]
pub enum PolyType {
    Subject,
    Clip,
}

/// Boolean operations.
#[derive(Debug, PartialEq, Eq, Structural, Clone, Copy)]
pub enum ClipType {
    NoClip,
    Intersection,
    Union,
    Difference,
    Xor,
}

/// Fill rules.
#[derive(Debug, PartialEq, Eq, Structural, Clone, Copy)]
pub enum FillType {
    EvenOdd,
    NonZero,
    Positive,
    Negative,
}

/// A point on the integer grid.
#[derive(Debug, PartialEq, Eq, Structural, Clone, Copy)]
pub struct Point {
    pub x: i64,
    pub y: i64,
}

/// A path as a sequence of coordinate pairs.
pub open spec fn path_view(p: Seq<Point>) -> Seq<(i64, i64)> {
    p.map_values(|q: Point| (q.x, q.y))
}

/// Paths as sequences of coordinate pairs.
pub open spec fn paths_view(ps: Seq<Vec<Point>>) -> Seq<Seq<(i64, i64)>> {
    ps.map_values(|p: Vec<Point>| path_view(p@))
}

/// What `Path64::minkowski_sum` returns for `path`, `pattern` and
/// `closed`.
pub uninterp spec fn minkowski_sum_of(
    path: Seq<(i64, i64)>,
    pattern: Seq<(i64, i64)>,
    closed: bool,
) -> Seq<Seq<(i64, i64)>>;

/// The paths that a `Clipper64` holds, in the order they were added, each
/// with its role: `true` for a clip path, `false` for a subject path.
pub uninterp spec fn clipper64_held(c: Clipper64) -> Seq<(bool, Seq<(i64, i64)>)>;

/// The closed paths that `Clipper64::execute` returns for the held paths (in
/// their add order, with their roles), an operation and a fill rule (on a
/// clipper with its default settings).
pub uninterp spec fn boolean_result(
    held: Seq<(bool, Seq<(i64, i64)>)>,
    clip_type: ClipType,
    fill_type: FillType,
) -> Seq<Seq<(i64, i64)>>;

/// Paths tagged with one role (`true` for clip paths).
pub open spec fn tagged(ps: Seq<Seq<(i64, i64)>>, is_clip: bool) -> Seq<(bool, Seq<(i64, i64)>)> {
    ps.map_values(|p: Seq<(i64, i64)>| (is_clip, p))
}

/// Calls `Path64::minkowski_sum` on `path` with `pattern`; the result is
/// the named outcome of those arguments.
#[verifier::external_body]
fn path64_minkowski_sum(path: &Vec<Point>, pattern: &Vec<Point>, closed: bool) -> (r: Vec<
    Vec<Point>,
>)
    ensures
        paths_view(r@) == minkowski_sum_of(path_view(path@), path_view(pattern@), closed),
{
    let a = Path64::new(path.iter().map(|p| Point64::new(p.x, p.y)).collect::<Vec<Point64>>());
    let b = Path64::new(pattern.iter().map(|p| Point64::new(p.x, p.y)).collect::<Vec<Point64>>());
    let c = a.minkowski_sum(&b, closed);
    c.iter().map(|q| q.iter().map(|t| Point { x: t.x, y: t.y }).collect::<Vec<Point>>()).collect()
}

/// `Clipper64::new`: a clipper that holds no paths.
#[verifier::external_body]
fn clipper64_new() -> (c: Clipper64)
    ensures
        clipper64_held(c) == Seq::<(bool, Seq<(i64, i64)>)>::empty(),
{
    Clipper64::new()
}

/// `Clipper64::add_subject`: appends the paths, as subjects, to the held
/// paths.
#[verifier::external_body]
fn clipper64_add_subject(c: &mut Clipper64, paths: &Vec<Vec<Point>>)
    ensures
        clipper64_held(*final(c)) == clipper64_held(*old(c)) + tagged(paths_view(paths@), false),
{
    let ps = Paths64::new(
        paths.iter().map(
            |p| Path64::new(p.iter().map(|q| Point64::new(q.x, q.y)).collect::<Vec<Point64>>()),
        ).collect::<Vec<Path64>>(),
    );
    c.add_subject(&ps);
}

/// `Clipper64::add_clip`: appends the paths, as clips, to the held paths.
#[verifier::external_body]
fn clipper64_add_clip(c: &mut Clipper64, paths: &Vec<Vec<Point>>)
    ensures
        clipper64_held(*final(c)) == clipper64_held(*old(c)) + tagged(paths_view(paths@), true),
{
    let ps = Paths64::new(
        paths.iter().map(
            |p| Path64::new(p.iter().map(|q| Point64::new(q.x, q.y)).collect::<Vec<Point64>>()),
        ).collect::<Vec<Path64>>(),
    );
    c.add_clip(&ps);
}

/// `Clipper64::clear`: drops all subjects and clips.
#[verifier::external_body]
fn clipper64_clear(c: &mut Clipper64)
    ensures
        clipper64_held(*final(c)) == Seq::<(bool, Seq<(i64, i64)>)>::empty(),
{
    c.clear();
}

/// `Clipper64::execute`, keeping the closed solution. The held paths stay
/// (the engine only cleans up its working state afterwards).
#[verifier::external_body]
fn clipper64_execute(c: &mut Clipper64, clip_type: ClipType, fill_type: FillType) -> (r: Vec<
    Vec<Point>,
>)
    ensures
        paths_view(r@) == boolean_result(clipper64_held(*old(c)), clip_type, fill_type),
        clipper64_held(*final(c)) == clipper64_held(*old(c)),
{
    let ct = match clip_type {
        ClipType::NoClip => clipper2_sys::ClipType::None,
        ClipType::Intersection => clipper2_sys::ClipType::Intersection,
        ClipType::Union => clipper2_sys::ClipType::Union,
        ClipType::Difference => clipper2_sys::ClipType::Difference,
        ClipType::Xor => clipper2_sys::ClipType::Xor,
    };
    let fr = match fill_type {
        FillType::EvenOdd => clipper2_sys::FillRule::EvenOdd,
        FillType::NonZero => clipper2_sys::FillRule::NonZero,
        FillType::Positive => clipper2_sys::FillRule::Positive,
        FillType::Negative => clipper2_sys::FillRule::Negative,
    };
    let sol = c.execute(ct, fr);
    sol.iter_closed().map(|q| q.iter().map(|t| Point { x: t.x, y: t.y }).collect()).collect()
}

/// The sum of two integers.
pub fn sum(a: i32, b: i32) -> (r: i32)
    requires
        i32::MIN <= a + b <= i32::MAX,
    ensures
        r == a + b,
{
    a + b
}

/// Minkowski sum of path `a` with pattern `b`, as computed by the engine.
pub fn minkowski_sum_i64(a: Vec<Point>, b: Vec<Point>, closed: bool) -> (r: Vec<Vec<Point>>)
    ensures
        paths_view(r@) == minkowski_sum_of(path_view(a@), path_view(b@), closed),
{
    path64_minkowski_sum(&a, &b, closed)
}

/// An integer clipper: collects subject and clip paths and runs boolean
/// operations on them.
pub struct Clipper {
    clipper: Clipper64,
}

impl Clipper {
    /// The paths held, in the order added, each with its role (`true` for
    /// a clip path).
    pub closed spec fn held(&self) -> Seq<(bool, Seq<(i64, i64)>)> {
        clipper64_held(self.clipper)
    }

    /// A clipper with no paths.
    pub fn new() -> (r: Self)
        ensures
            r.held() == Seq::<(bool, Seq<(i64, i64)>)>::empty(),
    {
        Clipper { clipper: clipper64_new() }
    }

    /// Adds the paths as subjects or as clips.
    pub fn add_paths(&mut self, path: Vec<Vec<Point>>, poly_type: PolyType)
        ensures
            final(self).held() == old(self).held() + tagged(paths_view(path@), poly_type == PolyType::Clip),
    {
        match poly_type {
            PolyType::Clip => clipper64_add_clip(&mut self.clipper, &path),
            PolyType::Subject => clipper64_add_subject(&mut self.clipper, &path),
        }
    }

    /// Runs the boolean operation on the held paths and returns the closed
    /// result (named over the held paths in their add order, which the
    /// engine uses to order local minima at equal positions); the held
    /// paths stay.
    pub fn execute(&mut self, clip_type: ClipType, fill_type: FillType) -> (r: Vec<Vec<Point>>)
        ensures
            paths_view(r@) == boolean_result(old(self).held(), clip_type, fill_type),
            final(self).held() == old(self).held(),
    {
        clipper64_execute(&mut self.clipper, clip_type, fill_type)
    }

    /// Drops all held paths.
    pub fn clear(&mut self)
        ensures
            final(self).held() == Seq::<(bool, Seq<(i64, i64)>)>::empty(),
    {
        clipper64_clear(&mut self.clipper);
    }
}

} // verus!
