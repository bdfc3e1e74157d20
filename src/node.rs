//! Routable sites. Every site variant projects onto the plain [`Node`]
//! view, which is all that routing looks at.

use vstd::prelude::*;
use crate::location::Location;
use crate::status::Status;

verus! {

/// Projection of a site variant onto its plain [`Node`] view.
pub trait AsNode {
    /// The plain node this value stands for.
    spec fn node_view(&self) -> Node;

    /// Returns the plain node.
    fn as_node(&self) -> (r: &Node)
        ensures
            *r == self.node_view(),
    ;

    /// Returns a copy of the node's id.
    fn get_uid(&self) -> (r: String)
        ensures
            r@ == self.node_view().uid@,
    ;
}

/// A vertex of the routing graph.
#[derive(Debug)]
pub struct Node {
    /// A stable synthetic id (for example `usa:ny:12345`), unique within a
    /// site set; equality of sites is equality of ids.
    pub uid: String,
    /// Where the site stands.
    pub location: Location,
    /// A site to redirect traffic to while this one is closed. A hint only:
    /// routing never follows it.
    pub forward_to: Option<Box<Node>>,
    /// Whether the site is operating.
    pub status: Status,
}

impl AsNode for Node {
    open spec fn node_view(&self) -> Node {
        *self
    }

    fn as_node(&self) -> (r: &Node) {
        self
    }

    fn get_uid(&self) -> (r: String) {
        self.uid.clone()
    }
}

/// A pad for the take-off and landing of a single aircraft.
#[derive(Debug)]
pub struct Vertipad {
    pub node: Node,
    /// Regulated pad size, in square metres.
    pub size_square_meters: u64,
    /// Special purposes the pad is reserved for (for example `medical`).
    pub permissions: Vec<String>,
    /// Id of the vertiport that owns the pad; with none, the pad is its own
    /// vertiport.
    pub owner_port: Option<String>,
}

impl Vertipad {
    /// Sets the pad size.
    pub fn update_size_square_meters(&mut self, new_size: u64)
        ensures
            final(self).size_square_meters == new_size,
            final(self).node == old(self).node,
            final(self).permissions == old(self).permissions,
            final(self).owner_port == old(self).owner_port,
    {
        self.size_square_meters = new_size;
    }
}

impl AsNode for Vertipad {
    open spec fn node_view(&self) -> Node {
        self.node
    }

    fn as_node(&self) -> (r: &Node) {
        &self.node
    }

    fn get_uid(&self) -> (r: String) {
        self.node.uid.clone()
    }
}

/// A site grouping a number of vertipads, held by id.
#[derive(Debug)]
pub struct Vertiport {
    pub node: Node,
    /// Ids of the vertipads of this vertiport, in the order they were added.
    pub vertipads: Vec<String>,
}

impl Vertiport {
    /// Adds a vertipad to the vertiport.
    pub fn add_vertipad(&mut self, vertipad: &Vertipad)
        ensures
            final(self).node == old(self).node,
            final(self).vertipads@ == old(self).vertipads@.push(vertipad.node.uid),
    {
        let uid = vertipad.node.uid.clone();
        self.vertipads.push(uid);
    }
}

impl AsNode for Vertiport {
    open spec fn node_view(&self) -> Node {
        self.node
    }

    fn as_node(&self) -> (r: &Node) {
        &self.node
    }

    fn get_uid(&self) -> (r: String) {
        self.node.uid.clone()
    }
}

} // verus!
