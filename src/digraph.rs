//! The directed graph of petgraph that the router searches, seen through
//! the arcs it holds.

use vstd::prelude::*;
use petgraph::graph::NodeIndex;
use petgraph::Directed;

verus! {

/// A directed graph of petgraph with unit vertex weights and `u64` arc
/// weights, seen only through [`vertex_count_of`] and [`arcs_of`].
#[verifier::external_body]
pub struct ArcGraph {
    g: petgraph::graph::Graph<(), u64, Directed, u32>,
}

/// Number of vertices of a graph.
pub uninterp spec fn vertex_count_of(g: ArcGraph) -> nat;

/// The arcs of a graph as (source, target, weight), in insertion order.
pub uninterp spec fn arcs_of(g: ArcGraph) -> Seq<(int, int, u64)>;

/// What petgraph's A* search with a zero estimate answers from `from` to
/// `to` on the graph with `n` vertices and these arcs, inserted in this
/// order.
pub uninterp spec fn astar_route(arcs: Seq<(int, int, u64)>, n: nat, from: int, to: int) -> Option<(u64, Seq<usize>)>;

/// Largest number of vertices a graph here may hold: the vertex and arc
/// indices of petgraph's default graph are 32-bit.
pub const MAX_VERTICES: usize = 65_535;

/// Largest arc weight: it keeps every path cost within 48 bits.
pub const MAX_ARC_WEIGHT: u64 = 0xFFFF_FFFF;

/// There is an arc from `u` to `v`.
pub open spec fn has_arc(arcs: Seq<(int, int, u64)>, u: int, v: int) -> bool {
    exists|k: int| 0 <= k < arcs.len() && (#[trigger] arcs[k]).0 == u && arcs[k].1 == v
}

/// The weight of the last arc from `u` to `v` (0 when there is none).
pub open spec fn arc_weight(arcs: Seq<(int, int, u64)>, u: int, v: int) -> int
    decreases arcs.len(),
{
    if arcs.len() == 0 {
        0
    } else if arcs.last().0 == u && arcs.last().1 == v {
        arcs.last().2 as int
    } else {
        arc_weight(arcs.drop_last(), u, v)
    }
}

/// No two arcs share both endpoints.
pub open spec fn no_parallel_arcs(arcs: Seq<(int, int, u64)>) -> bool {
    forall|k: int, l: int|
        0 <= k < l < arcs.len() ==> !((#[trigger] arcs[k]).0 == (#[trigger] arcs[l]).0 && arcs[k].1
            == arcs[l].1)
}

/// Every arc joins vertices below `n` and weighs at most [`MAX_ARC_WEIGHT`].
pub open spec fn arcs_within(arcs: Seq<(int, int, u64)>, n: int) -> bool {
    forall|k: int|
        0 <= k < arcs.len() ==> 0 <= (#[trigger] arcs[k]).0 < n && 0 <= arcs[k].1 < n && arcs[k].2
            <= MAX_ARC_WEIGHT
}

/// `p` is a walk along arcs, from `from` to `to`.
pub open spec fn is_walk(arcs: Seq<(int, int, u64)>, p: Seq<usize>, from: int, to: int) -> bool {
    &&& p.len() >= 1
    &&& p[0] == from
    &&& p.last() == to
    &&& forall|k: int| 0 <= k < p.len() - 1 ==> has_arc(arcs, #[trigger] p[k] as int, p[k + 1] as int)
}

/// The sum of the arc weights along `p`.
pub open spec fn walk_cost(arcs: Seq<(int, int, u64)>, p: Seq<usize>) -> int
    decreases p.len(),
{
    if p.len() <= 1 {
        0
    } else {
        walk_cost(arcs, p.drop_last()) + arc_weight(arcs, p[p.len() - 2] as int, p.last() as int)
    }
}

/// Some walk leads from `from` to `to`.
pub open spec fn reachable(arcs: Seq<(int, int, u64)>, from: int, to: int) -> bool {
    exists|p: Seq<usize>| #[trigger] is_walk(arcs, p, from, to)
}

/// What a cheapest-path search from `from` to `to` may answer: nothing when
/// `to` cannot be reached, else a cheapest walk and its cost; from a vertex
/// to itself, the one-vertex walk at no cost.
pub open spec fn cheapest_walk(
    arcs: Seq<(int, int, u64)>,
    from: int,
    to: int,
    r: Option<(u64, Seq<usize>)>,
) -> bool {
    match r {
        None => !reachable(arcs, from, to),
        Some((c, p)) => {
            &&& is_walk(arcs, p, from, to)
            &&& c == walk_cost(arcs, p)
            &&& forall|q: Seq<usize>| #[trigger] is_walk(arcs, q, from, to) ==> c <= walk_cost(arcs, q)
            &&& from == to ==> c == 0 && p == seq![from as usize]
        },
    }
}

/// A search answer with its walk as a sequence.
pub open spec fn route_view(r: Option<(u64, Vec<usize>)>) -> Option<(u64, Seq<usize>)> {
    match r {
        None => None,
        Some((c, p)) => Some((c, p@)),
    }
}

/// Relies on petgraph's `Graph::new`: a graph with no vertices and no arcs.
#[verifier::external_body]
pub fn new_digraph() -> (g: ArcGraph)
    ensures
        vertex_count_of(g) == 0,
        arcs_of(g) == Seq::<(int, int, u64)>::empty(),
{
    ArcGraph { g: petgraph::graph::Graph::new() }
}

/// Relies on petgraph's `Graph::add_node`: the new vertex takes the next
/// index; it panics only when the 32-bit index space is full.
#[verifier::external_body]
pub fn add_vertex(g: &mut ArcGraph) -> (r: usize)
    requires
        vertex_count_of(*old(g)) < MAX_VERTICES,
    ensures
        r == vertex_count_of(*old(g)),
        vertex_count_of(*final(g)) == vertex_count_of(*old(g)) + 1,
        arcs_of(*final(g)) == arcs_of(*old(g)),
{
    g.g.add_node(()).index()
}

/// Relies on petgraph's `Graph::add_edge`: the arc is appended; it panics
/// only on an endpoint out of bounds or a full 32-bit index space.
#[verifier::external_body]
pub fn add_arc(g: &mut ArcGraph, a: usize, b: usize, weight: u64)
    requires
        a < vertex_count_of(*old(g)),
        b < vertex_count_of(*old(g)),
        arcs_of(*old(g)).len() < 0xFFFF_FFFFusize,
    ensures
        vertex_count_of(*final(g)) == vertex_count_of(*old(g)),
        arcs_of(*final(g)) == arcs_of(*old(g)).push((a as int, b as int, weight)),
{
    g.g.add_edge(NodeIndex::new(a), NodeIndex::new(b), weight);
}

/// Relies on petgraph's `Graph::node_count`.
#[verifier::external_body]
pub fn vertex_count(g: &ArcGraph) -> (r: usize)
    ensures
        r == vertex_count_of(*g),
{
    g.g.node_count()
}

/// Relies on petgraph's `Graph::edge_count`.
#[verifier::external_body]
pub fn arc_count(g: &ArcGraph) -> (r: usize)
    ensures
        r == arcs_of(*g).len(),
{
    g.g.edge_count()
}

/// Relies on petgraph's `algo::astar` with a zero estimate, which is then
/// Dijkstra's search: a cheapest walk and its cost, or `None` when the
/// target cannot be reached. Its answer depends on the vertex count and
/// the arcs in their insertion order alone, which settle ties. The walk is
/// read back along predecessor links until the start, so no vertex occurs
/// in it twice. A start that is its own goal is returned at once, alone
/// and at no cost. The weight bounds keep every sum it forms
/// within `u64`.
#[verifier::external_body]
pub fn astar_search(g: &ArcGraph, from: usize, to: usize) -> (r: Option<(u64, Vec<usize>)>)
    requires
        vertex_count_of(*g) <= MAX_VERTICES,
        from < vertex_count_of(*g),
        to < vertex_count_of(*g),
        no_parallel_arcs(arcs_of(*g)),
        arcs_within(arcs_of(*g), vertex_count_of(*g) as int),
    ensures
        cheapest_walk(arcs_of(*g), from as int, to as int, route_view(r)),
        r matches Some((c, p)) ==> p@.no_duplicates(),
        route_view(r) == astar_route(arcs_of(*g), vertex_count_of(*g), from as int, to as int),
{
    let goal = NodeIndex::<u32>::new(to);
    petgraph::algo::astar(&g.g, NodeIndex::new(from), |n| n == goal, |e| *e.weight(), |_| 0u64)
        .map(|(cost, path)| (cost, path.into_iter().map(|n| n.index()).collect()))
}

} // verus!
