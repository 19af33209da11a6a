//! An unbounded two-dimensional grid of boolean cells, stored as a mesh of
//! fixed-size chunks that is grown on demand and read through rectangular
//! windows.
use vstd::prelude::*;

pub mod gol;
pub mod math;
pub mod viewer;

verus! {

} // verus!
