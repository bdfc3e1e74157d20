use vstd::prelude::*;

verus! {

/// The ways a routing or planning request fails.
#[derive(Debug, Clone, Copy, PartialEq, Eq, Structural)]
pub enum RouterError {
    /// The router has not been initialized yet.
    NotReady,
    /// A one-shot initialization was attempted a second time.
    AlreadyInitialized,
    /// A required value is missing or malformed.
    InvalidArgument,
    /// A site id is not in the active site set.
    NotFound,
    /// No route joins the two sites.
    Unroutable,
    /// The time window cannot hold one full flight block.
    WindowTooSmall,
    /// Every candidate departure failed a site or vehicle check.
    NoFeasibleSlot,
}

/// The message of each kind of failure.
pub open spec fn message_of(e: RouterError) -> Seq<char> {
    match e {
        RouterError::NotReady => "router not initialized"@,
        RouterError::AlreadyInitialized => "router already initialized"@,
        RouterError::InvalidArgument => "invalid argument"@,
        RouterError::NotFound => "site not found"@,
        RouterError::Unroutable => "route between sites not found"@,
        RouterError::WindowTooSmall => "time window too small to schedule flight"@,
        RouterError::NoFeasibleSlot => "no flight plans found"@,
    }
}

impl RouterError {
    /// A distinct message for each kind of failure.
    pub fn message(&self) -> (r: &'static str)
        ensures
            r@ == message_of(*self),
    {
        match self {
            RouterError::NotReady => "router not initialized",
            RouterError::AlreadyInitialized => "router already initialized",
            RouterError::InvalidArgument => "invalid argument",
            RouterError::NotFound => "site not found",
            RouterError::Unroutable => "route between sites not found",
            RouterError::WindowTooSmall => "time window too small to schedule flight",
            RouterError::NoFeasibleSlot => "no flight plans found",
        }
    }
}

} // verus!
