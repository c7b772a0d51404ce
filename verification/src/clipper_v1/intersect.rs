//! Intersections of active edges and their sort order.
use vstd::prelude::*;
use std::cmp::Ordering;
use crate::clipper_v1::types::IntPoint;

verus! {

/// An intersection of two edges (arena indices) at `pt`.
#[derive(Debug, Clone, Copy, PartialEq, Eq, Structural)]
pub struct IntersectNode {
    pub edge1: Option<usize>,
    pub edge2: Option<usize>,
    pub pt: IntPoint,
}

/// The sort order of intersections: by the y of the point, then by its x.
pub struct MyIntersectNodeSort;

impl MyIntersectNodeSort {
    /// Compares two intersections by the y of their points, then by x.
    pub fn compare(node1: &IntersectNode, node2: &IntersectNode) -> (r: Ordering)
        ensures
            r == (if node1.pt.y < node2.pt.y {
                Ordering::Less
            } else if node1.pt.y > node2.pt.y {
                Ordering::Greater
            } else if node1.pt.x < node2.pt.x {
                Ordering::Less
            } else if node1.pt.x > node2.pt.x {
                Ordering::Greater
            } else {
                Ordering::Equal
            }),
    {
        if node1.pt.y < node2.pt.y {
            Ordering::Less
        } else if node1.pt.y > node2.pt.y {
            Ordering::Greater
        } else if node1.pt.x < node2.pt.x {
            Ordering::Less
        } else if node1.pt.x > node2.pt.x {
            Ordering::Greater
        } else {
            Ordering::Equal
        }
    }
}

} // verus!
