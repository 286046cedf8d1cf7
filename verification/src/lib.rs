//! Core of a directory-diff tool: a verified scanner over an in-memory
//! model of a file tree, and a comparator that merges two scans into a
//! sorted, classified report.

pub mod compare;
pub mod config;
pub mod laws;
pub mod order;
pub mod paths;
pub mod scanner;
pub mod tree;

use vstd::prelude::*;

verus! {

} // verus!
