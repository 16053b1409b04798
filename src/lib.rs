use vstd::prelude::*;

pub mod geometry;
pub mod graph;
pub mod path;
pub mod solver;

verus! {

} // verus!
