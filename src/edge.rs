use vstd::prelude::*;

verus! {

/// A directed, weighted connection between two sites, given by their
/// positions in the site list that the edge set was built from.
#[derive(Debug, Clone, Copy, PartialEq, Eq, Hash, Structural)]
pub struct Edge {
    /// Position of the site the edge leaves.
    pub from: usize,
    /// Position of the site the edge enters.
    pub to: usize,
    /// Weight of the edge, in centimetres.
    pub cost: u64,
}

} // verus!
