//! Integer points, rectangles and the clipper's enumerations.
use vstd::prelude::*;

verus! {

/// Coordinates of the clipper are 64-bit integers.
pub type CInt = i64;

/// Marker of an edge that is skipped when building bounds.
pub const SKIP: i32 = -2;
/// Marker of an edge or record that has no output index yet.
pub const UNASSIGNED: i32 = -1;
/// Largest coordinate magnitude of the full (128-bit) range.
pub const HI_RANGE: i64 = 0x3FFF_FFFF_FFFF_FFFF;
/// Largest coordinate magnitude of the low (64-bit product) range.
pub const LO_RANGE: i64 = 0x3FFF_FFFF;

/// A point on the integer grid.
#[derive(Debug, Clone, Copy, PartialEq, Eq, Structural)]
pub struct IntPoint {
    pub x: i64,
    pub y: i64,
}

impl IntPoint {
    /// Constructs a new point from two coordinates.
    pub fn new(x: i64, y: i64) -> (r: Self)
        ensures
            r.x == x,
            r.y == y,
    {
        IntPoint { x, y }
    }

    /// Constructs a new point by copying another one.
    pub fn from_int_point(pt: &IntPoint) -> (r: Self)
        ensures
            r == *pt,
    {
        *pt
    }
}

/// An axis-aligned rectangle on the integer grid.
#[derive(Debug, Clone, Copy, PartialEq, Eq, Structural)]
pub struct IntRect {
    pub left: i64,
    pub top: i64,
    pub right: i64,
    pub bottom: i64,
}

impl IntRect {
    /// Constructs a new rectangle with the given boundaries.
    pub fn new(left: i64, top: i64, right: i64, bottom: i64) -> (r: Self)
        ensures
            r.left == left,
            r.top == top,
            r.right == right,
            r.bottom == bottom,
    {
        IntRect { left, top, right, bottom }
    }

    /// Constructs a new rectangle by copying another one.
    pub fn from_rect(other: &IntRect) -> (r: Self)
        ensures
            r == *other,
    {
        IntRect { left: other.left, top: other.top, right: other.right, bottom: other.bottom }
    }
}

/// The boolean operation of a clipping run.
#[derive(Debug, Clone, Copy, PartialEq, Eq, Structural)]
pub enum ClipType {
    Intersection,
    Union,
    Difference,
    Xor,
}

/// Whether a path is a subject or a clip polygon.
#[derive(Debug, Clone, Copy, PartialEq, Eq, Structural)]
pub enum PolyType {
    Subject,
    Clip,
}

/// How winding numbers decide what is filled.
#[derive(Debug, Clone, Copy, PartialEq, Eq, Structural)]
pub enum PolyFillType {
    EvenOdd,
    NonZero,
    Positive,
    Negative,
}

/// The corner style of an offset.
#[derive(Debug, Clone, Copy, PartialEq, Eq, Structural)]
pub enum JoinType {
    Square,
    Round,
    Miter,
}

/// How the ends of an offset path are closed or capped.
#[derive(Debug, Clone, Copy, PartialEq, Eq, Structural)]
pub enum EndType {
    ClosedPolygon,
    ClosedLine,
    OpenButt,
    OpenSquare,
    OpenRound,
}

/// The side of the output polygon an edge contributes to.
#[derive(Debug, Clone, Copy, PartialEq, Eq, Structural)]
pub enum EdgeSide {
    Left,
    Right,
}

/// The direction a horizontal edge is processed in.
#[derive(Debug, Clone, Copy, PartialEq, Eq, Structural)]
pub enum Direction {
    RightToLeft,
    LeftToRight,
}

/// The kind of node selected from a polygon tree.
#[derive(Debug, Clone, Copy, PartialEq, Eq, Structural)]
pub enum NodeType {
    Any,
    Open,
    Closed,
}

} // verus!
