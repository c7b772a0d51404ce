//! The scan-line polygon clipper: integer types, exact predicates and the
//! bookkeeping structures of the sweep (scan beams, local minima, the active
//! edge list, output records and maxima).
pub mod types;
pub mod error;
pub mod tedge;
pub mod base_static;
pub mod clipper_base;
pub mod clipper;
pub mod intersect;
pub mod clipper_static;
pub mod add_path;
pub mod poly;
