//! A growable disjoint-set (union-find) structure over dense, zero-based
//! indices, with a path-compressing lookup, a pure lookup, left-biased
//! union, one-element growth, and group enumeration.

#![verifier::loop_isolation(false)]

pub mod disjoint_set;
pub mod laws;
pub mod model;
pub mod render;

pub use disjoint_set::DisjointSet;
pub use disjoint_set::UfError;
