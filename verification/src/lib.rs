//! Lower bounds and exact measures for the tree edit distance between ordered,
//! labelled trees written in bracket notation.

pub mod collections;
pub mod edit_distance;
pub mod sed;
pub mod tree;
pub mod parsing;
pub mod traversal;
pub mod topdiff;
pub mod label_intersection;
pub mod structural;
pub mod structural_split;
pub mod unified;
pub mod pipelines;
pub mod lblint;
pub mod binary_branch;
pub mod string_bounds;
