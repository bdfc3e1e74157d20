//! Random sites, for exercising the router.

use vstd::prelude::*;
use rand::Rng;
use crate::location::{Location, MAX_LATITUDE, MAX_LONGITUDE};
use crate::node::Node;
use crate::status::Status;

verus! {

/// Highest altitude of a random location, in metres.
pub const MAX_RANDOM_ALTITUDE: i64 = 10_000;

/// Relies on rand's `thread_rng` and `Rng::gen_range` over an inclusive
/// range: a value within it (the range must not be empty).
#[verifier::external_body]
fn random_in_range(lo: i64, hi: i64) -> (r: i64)
    requires
        lo <= hi,
    ensures
        lo <= r <= hi,
{
    rand::thread_rng().gen_range(lo..=hi)
}

/// Relies on uuid's `Uuid::new_v4` and its hyphenated text form, which is
/// 36 characters long.
#[verifier::external_body]
fn new_uid() -> (r: String)
    ensures
        r@.len() == 36,
{
    uuid::Uuid::new_v4().to_string()
}

/// A random location anywhere on earth, between sea level and
/// [`MAX_RANDOM_ALTITUDE`].
pub fn generate_location() -> (r: Location)
    ensures
        r.wf(),
        0 <= r.altitude_meters <= MAX_RANDOM_ALTITUDE,
{
    let latitude = random_in_range(-MAX_LATITUDE, MAX_LATITUDE);
    let longitude = random_in_range(-MAX_LONGITUDE, MAX_LONGITUDE);
    let altitude_meters = random_in_range(0, MAX_RANDOM_ALTITUDE);
    Location { latitude, longitude, altitude_meters }
}

/// A random operating site with a fresh random id.
pub open spec fn random_site(n: Node) -> bool {
    &&& n.uid@.len() == 36
    &&& n.location.wf()
    &&& 0 <= n.location.altitude_meters <= MAX_RANDOM_ALTITUDE
    &&& n.forward_to is None
    &&& n.status == Status::Open
}

/// A single random site.
pub fn generate_random_node() -> (r: Node)
    ensures
        random_site(r),
{
    Node { uid: new_uid(), location: generate_location(), forward_to: None, status: Status::Open }
}

/// `capacity` random sites (none for a capacity below one).
pub fn generate_nodes(capacity: i32) -> (r: Vec<Node>)
    ensures
        r@.len() == if capacity < 0 { 0 } else { capacity as int },
        forall|k: int| 0 <= k < r@.len() ==> random_site(#[trigger] r@[k]),
{
    let mut nodes: Vec<Node> = Vec::new();
    let mut k: i32 = 0;
    while k < capacity
        invariant
            0 <= k,
            k <= capacity || (capacity < 0 && k == 0),
            nodes@.len() == k,
            forall|j: int| 0 <= j < nodes@.len() ==> random_site(#[trigger] nodes@[j]),
        decreases capacity - k,
    {
        nodes.push(generate_random_node());
        k = k + 1;
    }
    nodes
}

} // verus!
