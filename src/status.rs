use vstd::prelude::*;

verus! {

/// The operating status of a site.
#[derive(Debug, Clone, Copy, PartialEq, Eq, Hash, Structural)]
pub enum Status {
    /// The site is currently operating.
    Open,
    /// The site is currently down.
    Closed,
}

} // verus!
