//! Curve simplification by the Ramer-Douglas-Peucker reduction, over exact
//! fixed-point coordinates, and validators for ontology node names.
use vstd::prelude::*;

pub mod geometry;
pub mod simplify;
pub mod node_names;
pub mod laws;

verus! {

} // verus!
