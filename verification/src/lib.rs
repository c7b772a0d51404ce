//! Geometry kernels of a nesting tool: exact integer point and rectangle
//! predicates, 128-bit product comparison, point-in-polygon classification,
//! the bookkeeping structures of a scan-line polygon clipper, a tokenizer for
//! SVG path data, and the glue around an outside polygon-clipping engine.
#![allow(unused_imports)]

pub mod geometry;
pub mod internal_clipper;
pub mod polygon;
pub mod clipper_v1;
pub mod path_data;
pub mod node_clipper;
pub mod svg_flip;
pub mod svg_load;
pub mod laws;
pub mod part_table;
pub mod lightburn;
pub mod text;
pub mod lightburn_writer;
pub mod lightburn_reader;

use vstd::prelude::*;

verus! {

/// The sum of two integers.
pub fn sum(a: i32, b: i32) -> (r: i32)
    requires
        i32::MIN <= a + b <= i32::MAX,
    ensures
        r == a + b,
{
    a + b
}

/// The sum of two unsigned integers.
pub fn add(left: u64, right: u64) -> (r: u64)
    requires
        left + right <= u64::MAX,
    ensures
        r == left + right,
{
    left + right
}

} // verus!
