//! The router: the range-constrained graph of a site set, and cheapest-path
//! queries over it.

use vstd::prelude::*;

use crate::digraph::{
    astar_route, route_view, ArcGraph, add_arc, add_vertex, arc_count, has_arc, arcs_of, arcs_within, astar_search, cheapest_walk, is_walk,
    new_digraph, no_parallel_arcs, reachable, vertex_count, vertex_count_of, walk_cost, arc_weight,
    MAX_ARC_WEIGHT, MAX_VERTICES,
};
use crate::edge::Edge;
use crate::graph::{build_edges, edge_before, edge_sound, lemma_table_edges, row_edges, square_table, table_edges};
use crate::location::Location;
use crate::node::Node;

verus! {

/// Path-finding algorithms. Both run the same A* search with a zero
/// estimate; the tag only records which one the caller meant.
#[derive(Debug, Clone, Copy, PartialEq, Eq, Structural)]
pub enum Algorithm {
    /// Dijkstra's algorithm.
    Dijkstra,
    /// The A* algorithm.
    AStar,
}

/// Largest cost of a path: as many arcs as there can be vertices, each of
/// the largest weight.
pub const MAX_PATH_COST: i64 = 0xFFFF_FFFF * 65_535;

/// The ids of a site list, in order.
pub open spec fn ids_of(nodes: Seq<Node>) -> Seq<Seq<char>> {
    nodes.map_values(|n: Node| n.uid@)
}

/// The locations of a site list, in order.
pub open spec fn locations_of(nodes: Seq<Node>) -> Seq<Location> {
    nodes.map_values(|n: Node| n.location)
}

/// The character sequences of a list of strings.
pub open spec fn string_views(v: Seq<String>) -> Seq<Seq<char>> {
    v.map_values(|s: String| s@)
}

/// No id occurs twice.
pub open spec fn unique_ids(ids: Seq<Seq<char>>) -> bool {
    forall|i: int, j: int| 0 <= i < j < ids.len() ==> ids[i] != ids[j]
}

/// The sites in order of first sight among the endpoints of the first `k`
/// edges.
pub open spec fn sighted(edges: Seq<Edge>, k: int) -> Seq<usize>
    decreases k,
{
    if k <= 0 {
        Seq::empty()
    } else {
        let s = sighted(edges, k - 1);
        let e = edges[k - 1];
        let s1 = if s.contains(e.from) { s } else { s.push(e.from) };
        if s1.contains(e.to) { s1 } else { s1.push(e.to) }
    }
}

/// `s` followed by the sites before position `i` that it lacks, in order.
pub open spec fn fill_in(s: Seq<usize>, i: int) -> Seq<usize>
    decreases i,
{
    if i <= 0 {
        s
    } else {
        let t = fill_in(s, i - 1);
        if t.contains((i - 1) as usize) { t } else { t.push((i - 1) as usize) }
    }
}

/// The canonical vertex order of a graph on `n` sites with these edges:
/// endpoints by first sight in edge order, then the sites left isolated.
pub open spec fn canonical_order(edges: Seq<Edge>, n: int) -> Seq<usize> {
    fill_in(sighted(edges, edges.len() as int), n)
}

/// A router holds the graph of a site set, the vertex of each site and the
/// edge list the graph was built from.
pub struct Router {
    graph: ArcGraph,
    site_ids: Vec<String>,
    locations: Vec<Location>,
    vertex_of_site: Vec<usize>,
    site_of_vertex: Vec<usize>,
    edges: Vec<Edge>,
}

/// What a router holds, as mathematical values.
pub struct RouterView {
    /// Site ids, in the order of the site list.
    pub site_ids: Seq<Seq<char>>,
    /// Site locations, in the order of the site list.
    pub locations: Seq<Location>,
    /// The vertex of each site.
    pub vertex_of_site: Seq<usize>,
    /// The site of each vertex.
    pub site_of_vertex: Seq<usize>,
    /// Number of vertices of the graph.
    pub vertex_count: nat,
    /// Arcs of the graph between vertices.
    pub arcs: Seq<(int, int, u64)>,
    /// Edges between sites, as built from the site list.
    pub edges: Seq<Edge>,
}

impl View for Router {
    type V = RouterView;

    closed spec fn view(&self) -> RouterView {
        RouterView {
            site_ids: string_views(self.site_ids@),
            locations: self.locations@,
            vertex_of_site: self.vertex_of_site@,
            site_of_vertex: self.site_of_vertex@,
            vertex_count: vertex_count_of(self.graph),
            arcs: arcs_of(self.graph),
            edges: self.edges@,
        }
    }
}

impl RouterView {
    /// Number of sites.
    pub open spec fn len(self) -> int {
        self.site_ids.len() as int
    }

    /// Site and vertex numbering are inverse bijections on `0..len`, and
    /// each arc is the image of the edge at the same position.
    pub open spec fn wf(self) -> bool {
        let n = self.len();
        &&& n <= MAX_VERTICES
        &&& unique_ids(self.site_ids)
        &&& self.locations.len() == n
        &&& self.vertex_count == n
        &&& self.vertex_of_site.len() == n
        &&& self.site_of_vertex.len() == n
        &&& forall|i: int| 0 <= i < n ==> (#[trigger] self.vertex_of_site[i]) < n
            && self.site_of_vertex[self.vertex_of_site[i] as int] == i
        &&& forall|v: int| 0 <= v < n ==> (#[trigger] self.site_of_vertex[v]) < n
            && self.vertex_of_site[self.site_of_vertex[v] as int] == v
        &&& self.arcs.len() == self.edges.len()
        &&& forall|k: int| 0 <= k < self.edges.len() ==> (#[trigger] self.edges[k]).from < n
            && self.edges[k].to < n
            && self.arcs[k] == (self.vertex_of_site[self.edges[k].from as int] as int,
                self.vertex_of_site[self.edges[k].to as int] as int, self.edges[k].cost)
        &&& no_parallel_arcs(self.arcs)
        &&& arcs_within(self.arcs, n)
    }

    /// The site set holds a site with this id.
    pub open spec fn knows(self, uid: Seq<char>) -> bool {
        self.site_ids.contains(uid)
    }

    /// The vertex of the site with this id.
    pub open spec fn vertex_of(self, uid: Seq<char>) -> int {
        self.vertex_of_site[self.site_ids.index_of(uid)] as int
    }

    /// The answer of the search the router runs between the sites with ids
    /// `from` and `to`: `(-1, [])` when either is unknown, else petgraph's
    /// A* answer on the graph, `(0, [])` when it finds nothing.
    pub open spec fn route_answer(self, from: Seq<char>, to: Seq<char>) -> (i64, Seq<usize>) {
        if !self.knows(from) || !self.knows(to) {
            (-1i64, Seq::<usize>::empty())
        } else {
            match astar_route(self.arcs, self.vertex_count, self.vertex_of(from), self.vertex_of(to)) {
                None => (0i64, Seq::<usize>::empty()),
                Some((c, p)) => (c as i64, p),
            }
        }
    }

    /// `r` is the answer to a cheapest-path query between the sites with ids
    /// `from` and `to`: `(-1, [])` when either is unknown; `(0, [])` when no
    /// walk joins them; else a cheapest walk of vertices and its cost, which
    /// from a site to itself is `(0, [v])`.
    pub open spec fn path_answer(self, from: Seq<char>, to: Seq<char>, r: (i64, Seq<usize>)) -> bool {
        if !self.knows(from) || !self.knows(to) {
            r.0 == -1 && r.1.len() == 0
        } else {
            let vf = self.vertex_of(from);
            let vt = self.vertex_of(to);
            if r.1.len() == 0 {
                r.0 == 0 && !reachable(self.arcs, vf, vt)
            } else {
                &&& is_walk(self.arcs, r.1, vf, vt)
                &&& r.0 == walk_cost(self.arcs, r.1)
                &&& forall|q: Seq<usize>| #[trigger] is_walk(self.arcs, q, vf, vt) ==> r.0 <= walk_cost(self.arcs, q)
                &&& vf == vt ==> r.0 == 0 && r.1 == seq![vf as usize]
            }
        }
    }
}

proof fn lemma_arc_weight_bound(arcs: Seq<(int, int, u64)>, n: int, u: int, v: int)
    requires
        arcs_within(arcs, n),
    ensures
        0 <= arc_weight(arcs, u, v) <= MAX_ARC_WEIGHT,
    decreases arcs.len(),
{
    if arcs.len() > 0 {
        assert(arcs_within(arcs.drop_last(), n)) by {
            assert forall|k: int| 0 <= k < arcs.drop_last().len() implies #[trigger] arcs.drop_last()[k] == arcs[k] by {}
        }
        assert(arcs[arcs.len() - 1] == arcs.last());
        lemma_arc_weight_bound(arcs.drop_last(), n, u, v);
    }
}

proof fn lemma_walk_cost_bound(arcs: Seq<(int, int, u64)>, n: int, p: Seq<usize>)
    requires
        arcs_within(arcs, n),
        p.len() >= 1,
    ensures
        0 <= walk_cost(arcs, p) <= (p.len() - 1) * MAX_ARC_WEIGHT,
    decreases p.len(),
{
    if p.len() > 1 {
        lemma_walk_cost_bound(arcs, n, p.drop_last());
        lemma_arc_weight_bound(arcs, n, p[p.len() - 2] as int, p.last() as int);
        assert((p.len() - 1) * MAX_ARC_WEIGHT == (p.len() - 2) * MAX_ARC_WEIGHT + MAX_ARC_WEIGHT)
            by (nonlinear_arith);
    }
}

/// A walk without repeated vertices below `n` has at most `n` vertices.
proof fn lemma_simple_walk_len(p: Seq<usize>, n: int)
    requires
        p.no_duplicates(),
        forall|k: int| 0 <= k < p.len() ==> (#[trigger] p[k]) < n,
        n >= 0,
    ensures
        p.len() <= n,
{
    let s = p.map_values(|x: usize| x as int).to_set();
    let m = p.map_values(|x: usize| x as int);
    assert(m.no_duplicates()) by {
        assert forall|i: int, j: int| 0 <= i < m.len() && 0 <= j < m.len() && i != j implies m[i] != m[j] by {}
    }
    m.unique_seq_to_set();
    assert(s.subset_of(vstd::set_lib::set_int_range(0, n))) by {
        assert forall|x: int| s.contains(x) implies vstd::set_lib::set_int_range(0, n).contains(x) by {
            let k = choose|k: int| 0 <= k < m.len() && m[k] == x;
            assert(p[k] < n);
        }
    }
    vstd::set_lib::lemma_int_range(0, n);
    vstd::set_lib::lemma_len_subset(s, vstd::set_lib::set_int_range(0, n));
}

/// The inverse-numbering facts that hold while vertices are being assigned:
/// `n` marks a site that has none yet.
pub open spec fn partial_inverse(vos: Seq<usize>, sov: Seq<usize>, n: int) -> bool {
    &&& vos.len() == n
    &&& sov.len() <= n
    &&& forall|s: int| 0 <= s < n ==> (#[trigger] vos[s] == n || (vos[s] < sov.len() && sov[vos[s] as int] == s))
    &&& forall|v: int| 0 <= v < sov.len() ==> (#[trigger] sov[v]) < n && vos[sov[v] as int] == v
}

proof fn lemma_inverse_distinct(vos: Seq<usize>, sov: Seq<usize>, n: int)
    requires
        partial_inverse(vos, sov, n),
    ensures
        sov.no_duplicates(),
{
    assert forall|i: int, j: int| 0 <= i < sov.len() && 0 <= j < sov.len() && i != j implies sov[i] != sov[j] by {
        if sov[i] == sov[j] {
            assert(vos[sov[i] as int] == i);
        }
    }
}

proof fn lemma_inverse_absent(vos: Seq<usize>, sov: Seq<usize>, n: int, x: usize)
    requires
        partial_inverse(vos, sov, n),
        0 <= x < n,
        vos[x as int] == n,
    ensures
        !sov.contains(x),
        sov.len() < n,
{
    if sov.contains(x) {
        let v = choose|v: int| 0 <= v < sov.len() && sov[v] == x;
        assert(vos[sov[v] as int] == v);
    }
    lemma_inverse_distinct(vos, sov, n);
    let m = sov.map_values(|v: usize| if v < x { v } else { (v - 1) as usize });
    assert forall|k: int| 0 <= k < m.len() implies (#[trigger] m[k]) < n - 1 by {
        assert(sov[k] < n);
        assert(sov[k] != x);
    }
    assert(m.no_duplicates()) by {
        assert forall|i: int, j: int| 0 <= i < m.len() && 0 <= j < m.len() && i != j implies m[i] != m[j] by {
            assert(sov[i] != sov[j]);
            assert(sov[i] != x && sov[j] != x);
        }
    }
    lemma_simple_walk_len(m, n - 1);
}

proof fn lemma_inverse_present(vos: Seq<usize>, sov: Seq<usize>, n: int, x: usize)
    requires
        partial_inverse(vos, sov, n),
        0 <= x < n,
        vos[x as int] != n,
    ensures
        sov.contains(x),
{
    assert(sov[vos[x as int] as int] == x);
}

proof fn lemma_all_assigned(vos: Seq<usize>, sov: Seq<usize>, n: int)
    requires
        partial_inverse(vos, sov, n),
        forall|t: int| 0 <= t < n ==> #[trigger] vos[t] != n,
    ensures
        sov.len() == n,
{
    assert(vos.no_duplicates()) by {
        assert forall|i: int, j: int| 0 <= i < vos.len() && 0 <= j < vos.len() && i != j implies vos[i] != vos[j] by {
            assert(vos[i] != n && vos[j] != n);
        }
    }
    assert forall|k: int| 0 <= k < vos.len() implies (#[trigger] vos[k]) < sov.len() by {
        assert(vos[k] != n);
    }
    lemma_simple_walk_len(vos, sov.len() as int);
}

proof fn lemma_row_len(nodes: Seq<Node>, limits: Seq<Vec<u64>>, costs: Seq<Vec<u64>>, range_max: u64, i: int, j: int)
    ensures
        row_edges(nodes, limits, costs, range_max, i, j).len() <= if j < 0 { 0 } else { j },
    decreases j,
{
    if j > 0 {
        lemma_row_len(nodes, limits, costs, range_max, i, j - 1);
    }
}

proof fn lemma_table_len(nodes: Seq<Node>, limits: Seq<Vec<u64>>, costs: Seq<Vec<u64>>, range_max: u64, i: int)
    requires
        0 <= i,
    ensures
        table_edges(nodes, limits, costs, range_max, i).len() <= i * nodes.len(),
    decreases i,
{
    if i > 0 {
        lemma_table_len(nodes, limits, costs, range_max, i - 1);
        lemma_row_len(nodes, limits, costs, range_max, i - 1, nodes.len() as int);
        assert(i * nodes.len() == (i - 1) * nodes.len() + nodes.len()) by (nonlinear_arith);
    }
}

proof fn lemma_edges_count_bound(nodes: Seq<Node>, limits: Seq<Vec<u64>>, costs: Seq<Vec<u64>>, range_max: u64)
    ensures
        table_edges(nodes, limits, costs, range_max, nodes.len() as int).len() <= nodes.len() * nodes.len(),
{
    lemma_table_len(nodes, limits, costs, range_max, nodes.len() as int);
}

proof fn lemma_arcs_distinct(
    nodes: Seq<Node>,
    limits: Seq<Vec<u64>>,
    costs: Seq<Vec<u64>>,
    range_max: u64,
    edges: Seq<Edge>,
    vos: Seq<usize>,
    arcs: Seq<(int, int, u64)>,
    n: int,
)
    requires
        n == nodes.len(),
        square_table(costs, n),
        forall|i: int, j: int| 0 <= i < n && 0 <= j < n ==> #[trigger] costs[i]@[j] <= MAX_ARC_WEIGHT,
        forall|k: int| 0 <= k < edges.len() ==> edge_sound(nodes, limits, costs, range_max, #[trigger] edges[k]),
        forall|k: int, l: int| 0 <= k < l < edges.len() ==> edge_before(#[trigger] edges[k], #[trigger] edges[l]),
        vos.len() == n,
        forall|s: int| 0 <= s < n ==> #[trigger] vos[s] < n,
        forall|s: int, t: int| 0 <= s < n && 0 <= t < n && s != t ==> #[trigger] vos[s] != #[trigger] vos[t],
        arcs.len() == edges.len(),
        forall|j: int| 0 <= j < edges.len() ==> arcs[j] == (vos[(#[trigger] edges[j]).from as int] as int,
            vos[edges[j].to as int] as int, edges[j].cost),
    ensures
        no_parallel_arcs(arcs),
        arcs_within(arcs, n),
{
    assert forall|k: int, l: int| 0 <= k < l < arcs.len() implies !((#[trigger] arcs[k]).0 == (#[trigger] arcs[l]).0
        && arcs[k].1 == arcs[l].1) by {
        assert(edge_before(edges[k], edges[l]));
        assert(edge_sound(nodes, limits, costs, range_max, edges[k]));
        assert(edge_sound(nodes, limits, costs, range_max, edges[l]));
        if edges[k].from != edges[l].from {
            assert(vos[edges[k].from as int] != vos[edges[l].from as int]);
        } else {
            assert(vos[edges[k].to as int] != vos[edges[l].to as int]);
        }
    }
    assert forall|k: int| 0 <= k < arcs.len() implies 0 <= (#[trigger] arcs[k]).0 < n && 0 <= arcs[k].1 < n
        && arcs[k].2 <= MAX_ARC_WEIGHT by {
        assert(edge_sound(nodes, limits, costs, range_max, edges[k]));
        assert(arcs[k] == (vos[edges[k].from as int] as int, vos[edges[k].to as int] as int, edges[k].cost));
        assert(costs[edges[k].from as int]@[edges[k].to as int] <= MAX_ARC_WEIGHT);
    }
}

impl Router {
    /// Builds the router of a site list: the edges among the sites whose
    /// `limits` entry is at most `range_max`, weighted by their `costs`
    /// entry; a vertex for every site, numbered in canonical order.
    pub fn new(nodes: &[Node], range_max: u64, limits: &Vec<Vec<u64>>, costs: &Vec<Vec<u64>>) -> (r: Router)
        requires
            nodes@.len() <= MAX_VERTICES,
            unique_ids(ids_of(nodes@)),
            square_table(limits@, nodes@.len() as int),
            square_table(costs@, nodes@.len() as int),
            forall|i: int, j: int| 0 <= i < nodes@.len() && 0 <= j < nodes@.len() ==> #[trigger] costs@[i]@[j]
                <= MAX_ARC_WEIGHT,
        ensures
            r@.wf(),
            r@.site_ids == ids_of(nodes@),
            r@.locations == locations_of(nodes@),
            r@.edges == table_edges(nodes@, limits@, costs@, range_max, nodes@.len() as int),
            r@.site_of_vertex == canonical_order(r@.edges, nodes@.len() as int),
    {
        let edges = build_edges(nodes, range_max, limits, costs);
        let n = nodes.len();
        let mut graph = new_digraph();
        let mut vertex_of_site: Vec<usize> = Vec::new();
        let mut site_ids: Vec<String> = Vec::new();
        let mut locations: Vec<Location> = Vec::new();
        let mut i: usize = 0;
        while i < n
            invariant
                n == nodes@.len(),
                0 <= i <= n,
                vertex_of_site@.len() == i,
                site_ids@.len() == i,
                forall|k: int| 0 <= k < i ==> vertex_of_site@[k] == n,
                string_views(site_ids@) == ids_of(nodes@).subrange(0, i as int),
                locations@ == locations_of(nodes@).subrange(0, i as int),
            decreases n - i,
        {
            let ghost old_ids = string_views(site_ids@);
            vertex_of_site.push(n);
            site_ids.push(nodes[i].uid.clone());
            locations.push(nodes[i].location);
            i = i + 1;
            proof {
                let a = string_views(site_ids@);
                let b = ids_of(nodes@).subrange(0, i as int);
                assert(a.len() == i);
                assert forall|t: int| 0 <= t < i implies a[t] == b[t] by {
                    if t < i - 1 {
                        assert(a[t] == old_ids[t]);
                    }
                }
                assert(a =~= b);
                assert(locations@ =~= locations_of(nodes@).subrange(0, i as int));
            }
        }
        proof {
            assert(string_views(site_ids@) =~= ids_of(nodes@));
            assert(locations@ =~= locations_of(nodes@));
        }
        let mut site_of_vertex: Vec<usize> = Vec::new();
        let mut k: usize = 0;
        while k < edges.len()
            invariant
                n == nodes@.len(),
                n <= MAX_VERTICES,
                edges@ == table_edges(nodes@, limits@, costs@, range_max, n as int),
                forall|k: int| 0 <= k < edges@.len() ==> edge_sound(nodes@, limits@, costs@, range_max, #[trigger] edges@[k]),
                forall|k: int, l: int| 0 <= k < l < edges@.len() ==> edge_before(#[trigger] edges@[k], #[trigger] edges@[l]),
                0 <= k <= edges@.len(),
                partial_inverse(vertex_of_site@, site_of_vertex@, n as int),
                site_of_vertex@ == sighted(edges@, k as int),
                vertex_count_of(graph) == site_of_vertex@.len(),
                arcs_of(graph).len() == k,
                forall|j: int| 0 <= j < k ==> vertex_of_site@[(#[trigger] edges@[j]).from as int] != n
                    && vertex_of_site@[edges@[j].to as int] != n
                    && arcs_of(graph)[j] == (vertex_of_site@[edges@[j].from as int] as int,
                        vertex_of_site@[edges@[j].to as int] as int, edges@[j].cost),
            decreases edges@.len() - k,
        {
            let e = edges[k];
            proof {
                assert(edge_sound(nodes@, limits@, costs@, range_max, edges@[k as int]));
            }
            if vertex_of_site[e.from] == n {
                proof { lemma_inverse_absent(vertex_of_site@, site_of_vertex@, n as int, e.from); }
                let v = add_vertex(&mut graph);
                vertex_of_site.set(e.from, v);
                site_of_vertex.push(e.from);
            } else {
                proof { lemma_inverse_present(vertex_of_site@, site_of_vertex@, n as int, e.from); }
            }
            let ghost mid = site_of_vertex@;
            if vertex_of_site[e.to] == n {
                proof { lemma_inverse_absent(vertex_of_site@, site_of_vertex@, n as int, e.to); }
                let v = add_vertex(&mut graph);
                vertex_of_site.set(e.to, v);
                site_of_vertex.push(e.to);
            } else {
                proof { lemma_inverse_present(vertex_of_site@, site_of_vertex@, n as int, e.to); }
            }
            proof {
                assert(k < 0xFFFF_FFFFusize) by {
                    assert(k < edges@.len());
                    lemma_edges_count_bound(nodes@, limits@, costs@, range_max);
                    assert(n * n <= MAX_VERTICES * MAX_VERTICES) by (nonlinear_arith)
                        requires n <= MAX_VERTICES;
                }
            }
            add_arc(&mut graph, vertex_of_site[e.from], vertex_of_site[e.to], e.cost);
            k = k + 1;
        }
        let mut s: usize = 0;
        while s < n
            invariant
                n == nodes@.len(),
                n <= MAX_VERTICES,
                0 <= s <= n,
                edges@ == table_edges(nodes@, limits@, costs@, range_max, n as int),
                partial_inverse(vertex_of_site@, site_of_vertex@, n as int),
                site_of_vertex@ == fill_in(sighted(edges@, edges@.len() as int), s as int),
                vertex_count_of(graph) == site_of_vertex@.len(),
                forall|t: int| 0 <= t < s ==> #[trigger] vertex_of_site@[t] != n,
                forall|k: int| 0 <= k < edges@.len() ==> edge_sound(nodes@, limits@, costs@, range_max, #[trigger] edges@[k]),
                arcs_of(graph).len() == edges@.len(),
                forall|j: int| 0 <= j < edges@.len() ==> vertex_of_site@[(#[trigger] edges@[j]).from as int] != n
                    && vertex_of_site@[edges@[j].to as int] != n
                    && arcs_of(graph)[j] == (vertex_of_site@[edges@[j].from as int] as int,
                        vertex_of_site@[edges@[j].to as int] as int, edges@[j].cost),
            decreases n - s,
        {
            if vertex_of_site[s] == n {
                proof { lemma_inverse_absent(vertex_of_site@, site_of_vertex@, n as int, s); }
                let v = add_vertex(&mut graph);
                vertex_of_site.set(s, v);
                site_of_vertex.push(s);
            } else {
                proof { lemma_inverse_present(vertex_of_site@, site_of_vertex@, n as int, s); }
            }
            s = s + 1;
        }
        proof {
            lemma_all_assigned(vertex_of_site@, site_of_vertex@, n as int);
            lemma_arcs_distinct(nodes@, limits@, costs@, range_max, edges@, vertex_of_site@, arcs_of(graph), n as int);
        }
        Router { graph, site_ids, locations, vertex_of_site, site_of_vertex, edges }
    }

    /// Position in the site list of the site with this id.
    fn site_position(&self, uid: &String) -> (r: Option<usize>)
        requires
            self@.wf(),
        ensures
            match r {
                Some(i) => self@.knows(uid@) && i == self@.site_ids.index_of(uid@) && i < self@.len(),
                None => !self@.knows(uid@),
            },
    {
        let mut i: usize = 0;
        while i < self.site_ids.len()
            invariant
                self@.wf(),
                0 <= i <= self.site_ids@.len(),
                forall|k: int| 0 <= k < i ==> self@.site_ids[k] != uid@,
            decreases self.site_ids@.len() - i,
        {
            if self.site_ids[i] == *uid {
                proof {
                    assert(self@.site_ids[i as int] == uid@);
                    assert(self@.knows(uid@));
                    let j = self@.site_ids.index_of(uid@);
                    assert(self@.site_ids[j] == uid@);
                    assert(unique_ids(self@.site_ids));
                }
                return Some(i);
            }
            i = i + 1;
        }
        None
    }

    /// The vertex of the site with this id, when the router knows it.
    pub fn vertex_index(&self, uid: &String) -> (r: Option<usize>)
        requires
            self@.wf(),
        ensures
            r == (if self@.knows(uid@) { Some(self@.vertex_of(uid@) as usize) } else { None::<usize> }),
    {
        match self.site_position(uid) {
            Some(i) => Some(self.vertex_of_site[i]),
            None => None,
        }
    }

    /// The vertex of a site, when the router knows it.
    pub fn get_node_index(&self, node: &Node) -> (r: Option<usize>)
        requires
            self@.wf(),
        ensures
            r == (if self@.knows(node.uid@) { Some(self@.vertex_of(node.uid@) as usize) } else { None::<usize> }),
    {
        match self.site_position(&node.uid) {
            Some(i) => Some(self.vertex_of_site[i]),
            None => None,
        }
    }

    /// Number of edges of the graph.
    pub fn get_edge_count(&self) -> (r: usize)
        requires
            self@.wf(),
        ensures
            r == self@.edges.len(),
    {
        arc_count(&self.graph)
    }

    /// Number of vertices of the graph: one per site.
    pub fn get_node_count(&self) -> (r: usize)
        requires
            self@.wf(),
        ensures
            r == self@.len(),
    {
        vertex_count(&self.graph)
    }

    /// The edge list the graph was built from.
    pub fn get_edges(&self) -> (r: &Vec<Edge>)
        ensures
            r@ == self@.edges,
    {
        &self.edges
    }

    /// Id of the site of a vertex.
    pub fn get_node_uid(&self, index: usize) -> (r: Option<String>)
        requires
            self@.wf(),
        ensures
            match r {
                Some(u) => index < self@.len() && u@ == self@.site_ids[self@.site_of_vertex[index as int] as int],
                None => index >= self@.len(),
            },
    {
        if index < self.site_of_vertex.len() {
            let s = self.site_of_vertex[index];
            Some(self.site_ids[s].clone())
        } else {
            None
        }
    }

    /// Location of the site of a vertex.
    pub fn get_node_location(&self, index: usize) -> (r: Option<Location>)
        requires
            self@.wf(),
        ensures
            match r {
                Some(l) => index < self@.len() && l == self@.locations[self@.site_of_vertex[index as int] as int],
                None => index >= self@.len(),
            },
    {
        if index < self.site_of_vertex.len() {
            let s = self.site_of_vertex[index];
            Some(self.locations[s])
        } else {
            None
        }
    }

    /// Finds a cheapest path between two sites: its cost in centimetres and its
    /// vertices, `(-1, [])` when either site is unknown to the router, and
    /// `(0, [])` when no path joins them. Both algorithm tags run the same
    /// search, so they give the same answer.
    pub fn find_shortest_path(&self, from: &Node, to: &Node, algorithm: Algorithm) -> (r: (i64, Vec<usize>))
        requires
            self@.wf(),
        ensures
            self@.path_answer(from.uid@, to.uid@, (r.0, r.1@)),
            (r.0, r.1@) == self@.route_answer(from.uid@, to.uid@),
            -1 <= r.0 <= MAX_PATH_COST,
    {
        self.find_route(&from.uid, &to.uid, algorithm)
    }

    /// [`Router::find_shortest_path`] between the sites with these ids.
    pub fn find_route(&self, from: &String, to: &String, algorithm: Algorithm) -> (r: (i64, Vec<usize>))
        requires
            self@.wf(),
        ensures
            self@.path_answer(from@, to@, (r.0, r.1@)),
            (r.0, r.1@) == self@.route_answer(from@, to@),
            -1 <= r.0 <= MAX_PATH_COST,
            r.1@.len() > 0 ==> 0 <= r.0,
    {
        let pf = self.site_position(from);
        let pt = self.site_position(to);
        match (pf, pt) {
            (Some(i), Some(j)) => {
                let vf = self.vertex_of_site[i];
                let vt = self.vertex_of_site[j];
                let found = match algorithm {
                    Algorithm::Dijkstra => astar_search(&self.graph, vf, vt),
                    Algorithm::AStar => astar_search(&self.graph, vf, vt),
                };
                match found {
                    Some((c, p)) => {
                        proof {
                            let n = self@.len();
                            lemma_walk_vertices(self@.arcs, p@, vf as int, vt as int, n);
                            lemma_simple_walk_len(p@, n);
                            lemma_walk_cost_bound(self@.arcs, n, p@);
                            assert((p@.len() - 1) * MAX_ARC_WEIGHT <= MAX_VERTICES * MAX_ARC_WEIGHT) by (nonlinear_arith)
                                requires p@.len() <= MAX_VERTICES;
                        }
                        (c as i64, p)
                    },
                    None => (0, Vec::new()),
                }
            },
            _ => (-1, Vec::new()),
        }
    }
}

/// Every vertex of a walk that starts below `n` is below `n`.
proof fn lemma_walk_vertices(arcs: Seq<(int, int, u64)>, p: Seq<usize>, from: int, to: int, n: int)
    requires
        is_walk(arcs, p, from, to),
        arcs_within(arcs, n),
        0 <= from < n,
    ensures
        forall|k: int| 0 <= k < p.len() ==> (#[trigger] p[k]) < n,
{
    assert forall|k: int| 0 <= k < p.len() implies (#[trigger] p[k]) < n by {
        if k > 0 {
            assert(has_arc(arcs, p[k - 1] as int, p[(k - 1) + 1] as int));
            let a = choose|a: int| 0 <= a < arcs.len() && (#[trigger] arcs[a]).0 == p[k - 1] as int && arcs[a].1 == p[k] as int;
            assert(arcs[a].1 < n);
        }
    }
}

/// The vertex of the site at position `i` is found by its id.
proof fn lemma_vertex_of_site(v: RouterView, i: int)
    requires
        v.wf(),
        0 <= i < v.len(),
    ensures
        v.knows(v.site_ids[i]),
        v.vertex_of(v.site_ids[i]) == v.vertex_of_site[i],
        v.vertex_of(v.site_ids[i]) < v.vertex_count,
{
    assert(v.site_ids.contains(v.site_ids[i]));
    let j = v.site_ids.index_of(v.site_ids[i]);
    assert(v.site_ids[j] == v.site_ids[i]);
    assert(unique_ids(v.site_ids));
    if j != i {
        if j < i {
            assert(v.site_ids[j] != v.site_ids[i]);
        } else {
            assert(v.site_ids[i] != v.site_ids[j]);
        }
    }
}

/// Every site the router was built from is a vertex of its graph.
pub proof fn law_every_site_is_vertex(v: RouterView, nodes: Seq<Node>)
    requires
        v.wf(),
        v.site_ids == ids_of(nodes),
    ensures
        forall|i: int| 0 <= i < nodes.len() ==> v.knows(#[trigger] nodes[i].uid@) && v.vertex_of(nodes[i].uid@)
            < v.vertex_count,
{
    assert forall|i: int| 0 <= i < nodes.len() implies v.knows(#[trigger] nodes[i].uid@) && v.vertex_of(nodes[i].uid@)
        < v.vertex_count by {
        assert(v.site_ids[i] == nodes[i].uid@);
        lemma_vertex_of_site(v, i);
    }
}

/// A path from a known site to itself is that site alone, at no cost.
pub proof fn law_path_to_self(v: RouterView, x: Seq<char>, r: (i64, Seq<usize>))
    requires
        v.wf(),
        v.knows(x),
        v.path_answer(x, x, r),
    ensures
        r.0 == 0,
        r.1 == seq![v.vertex_of(x) as usize],
{
    let vx = v.vertex_of(x);
    let i = v.site_ids.index_of(x);
    assert(v.vertex_of_site[i] < v.len());
    assert(is_walk(v.arcs, seq![vx as usize], vx, vx));
    assert(reachable(v.arcs, vx, vx));
}

/// A query naming a site the router does not know answers `(-1, [])`.
pub proof fn law_unknown_endpoint(v: RouterView, from: Seq<char>, to: Seq<char>, r: (i64, Seq<usize>))
    requires
        !v.knows(from) || !v.knows(to),
        v.path_answer(from, to, r),
    ensures
        r.0 == -1,
        r.1.len() == 0,
{
}

/// Between known sites that no walk joins, a query answers `(0, [])`.
pub proof fn law_disconnected(v: RouterView, from: Seq<char>, to: Seq<char>, r: (i64, Seq<usize>))
    requires
        v.knows(from),
        v.knows(to),
        !reachable(v.arcs, v.vertex_of(from), v.vertex_of(to)),
        v.path_answer(from, to, r),
    ensures
        r.0 == 0,
        r.1.len() == 0,
{
    if r.1.len() > 0 {
        assert(is_walk(v.arcs, r.1, v.vertex_of(from), v.vertex_of(to)));
    }
}

/// The cost of a path found is the sum of the weights of the arcs between
/// its consecutive vertices.
pub proof fn law_path_cost_is_sum(v: RouterView, from: Seq<char>, to: Seq<char>, r: (i64, Seq<usize>))
    requires
        v.knows(from),
        v.knows(to),
        r.1.len() > 0,
        v.path_answer(from, to, r),
    ensures
        r.0 == walk_cost(v.arcs, r.1),
        forall|k: int| 0 <= k < r.1.len() - 1 ==> has_arc(v.arcs, #[trigger] r.1[k] as int, r.1[k + 1] as int),
{
}

proof fn lemma_arc_weight_unique(arcs: Seq<(int, int, u64)>, k: int)
    requires
        no_parallel_arcs(arcs),
        0 <= k < arcs.len(),
    ensures
        arc_weight(arcs, arcs[k].0, arcs[k].1) == arcs[k].2,
    decreases arcs.len(),
{
    if k < arcs.len() - 1 {
        let d = arcs.drop_last();
        assert(arcs[arcs.len() - 1] == arcs.last());
        assert(!(arcs[k].0 == arcs[arcs.len() - 1].0 && arcs[k].1 == arcs[arcs.len() - 1].1));
        assert(no_parallel_arcs(d)) by {
            assert forall|a: int, b: int| 0 <= a < b < d.len() implies !((#[trigger] d[a]).0 == (#[trigger] d[b]).0
                && d[a].1 == d[b].1) by {
                assert(d[a] == arcs[a] && d[b] == arcs[b]);
            }
        }
        assert(d[k] == arcs[k]);
        lemma_arc_weight_unique(d, k);
    }
}

/// Arc weights are at least as short as detours: going through a third site
/// never costs less, and costs strictly more; and distinct sites are apart.
pub open spec fn detours_cost_more(costs: Seq<Vec<u64>>, n: int) -> bool {
    &&& forall|a: int, b: int, c: int| 0 <= a < n && 0 <= b < n && 0 <= c < n && b != a && b != c ==> #[trigger] costs[a]@[c]
        < #[trigger] costs[a]@[b] + #[trigger] costs[b]@[c]
    &&& forall|a: int, b: int| 0 <= a < n && 0 <= b < n && a != b ==> #[trigger] costs[a]@[b] > 0
}

/// The facts about one arc of a router built from these tables.
proof fn lemma_arc_facts(
    v: RouterView,
    nodes: Seq<Node>,
    limits: Seq<Vec<u64>>,
    costs: Seq<Vec<u64>>,
    range_max: u64,
    x: int,
    y: int,
)
    requires
        v.wf(),
        v.site_ids == ids_of(nodes),
        v.edges == table_edges(nodes, limits, costs, range_max, nodes.len() as int),
        square_table(limits, nodes.len() as int),
        square_table(costs, nodes.len() as int),
        has_arc(v.arcs, x, y),
    ensures
        0 <= x < v.len(),
        0 <= y < v.len(),
        v.site_of_vertex[x] != v.site_of_vertex[y],
        arc_weight(v.arcs, x, y) == costs[v.site_of_vertex[x] as int]@[v.site_of_vertex[y] as int],
{
    let k = choose|k: int| 0 <= k < v.arcs.len() && (#[trigger] v.arcs[k]).0 == x && v.arcs[k].1 == y;
    let e = v.edges[k];
    lemma_table_edges(nodes, limits, costs, range_max, nodes.len() as int);
    assert(edge_sound(nodes, limits, costs, range_max, e));
    assert(v.arcs[k] == (v.vertex_of_site[e.from as int] as int, v.vertex_of_site[e.to as int] as int, e.cost));
    lemma_arc_weight_unique(v.arcs, k);
}

proof fn lemma_walk_positive(
    v: RouterView,
    nodes: Seq<Node>,
    limits: Seq<Vec<u64>>,
    costs: Seq<Vec<u64>>,
    range_max: u64,
    q: Seq<usize>,
    u: int,
    w: int,
)
    requires
        v.wf(),
        v.site_ids == ids_of(nodes),
        v.edges == table_edges(nodes, limits, costs, range_max, nodes.len() as int),
        square_table(limits, nodes.len() as int),
        square_table(costs, nodes.len() as int),
        detours_cost_more(costs, nodes.len() as int),
        is_walk(v.arcs, q, u, w),
        q.len() >= 2,
    ensures
        walk_cost(v.arcs, q) > 0,
    decreases q.len(),
{
    let d = q.drop_last();
    let a = q[q.len() - 2] as int;
    assert(has_arc(v.arcs, q[q.len() - 2] as int, q[(q.len() - 2) + 1] as int));
    lemma_arc_facts(v, nodes, limits, costs, range_max, a, q.last() as int);
    let sa = v.site_of_vertex[a] as int;
    let sw = v.site_of_vertex[q.last() as int] as int;
    assert(costs[sa]@[sw] > 0);
    assert(walk_cost(v.arcs, q) == walk_cost(v.arcs, d) + arc_weight(v.arcs, a, q.last() as int));
    if q.len() == 2 {
        assert(walk_cost(v.arcs, d) == 0);
    }
    if q.len() > 2 {
        assert(is_walk(v.arcs, d, u, a)) by {
            assert forall|k: int| 0 <= k < d.len() - 1 implies has_arc(v.arcs, #[trigger] d[k] as int, d[k + 1] as int) by {
                assert(has_arc(v.arcs, q[k] as int, q[k + 1] as int));
            }
        }
        lemma_walk_positive(v, nodes, limits, costs, range_max, d, u, a);
    }
}

proof fn lemma_walk_lower_bound(
    v: RouterView,
    nodes: Seq<Node>,
    limits: Seq<Vec<u64>>,
    costs: Seq<Vec<u64>>,
    range_max: u64,
    q: Seq<usize>,
    u: int,
    w: int,
)
    requires
        v.wf(),
        v.site_ids == ids_of(nodes),
        v.edges == table_edges(nodes, limits, costs, range_max, nodes.len() as int),
        square_table(limits, nodes.len() as int),
        square_table(costs, nodes.len() as int),
        detours_cost_more(costs, nodes.len() as int),
        is_walk(v.arcs, q, u, w),
        q.len() >= 2,
    ensures
        walk_cost(v.arcs, q) >= costs[v.site_of_vertex[u] as int]@[v.site_of_vertex[w] as int],
        q.len() >= 3 ==> walk_cost(v.arcs, q) > costs[v.site_of_vertex[u] as int]@[v.site_of_vertex[w] as int],
    decreases q.len(),
{
    let d = q.drop_last();
    let a = q[q.len() - 2] as int;
    assert(has_arc(v.arcs, q[q.len() - 2] as int, q[(q.len() - 2) + 1] as int));
    lemma_arc_facts(v, nodes, limits, costs, range_max, a, w);
    assert(has_arc(v.arcs, q[0int] as int, q[0int + 1] as int));
    lemma_arc_facts(v, nodes, limits, costs, range_max, u, q[1] as int);
    assert(q.last() == w);
    assert(walk_cost(v.arcs, q) == walk_cost(v.arcs, d) + arc_weight(v.arcs, a, w));
    if q.len() == 2 {
        assert(walk_cost(v.arcs, d) == 0);
        assert(a == u);
    }
    if q.len() > 2 {
        assert(is_walk(v.arcs, d, u, a)) by {
            assert forall|k: int| 0 <= k < d.len() - 1 implies has_arc(v.arcs, #[trigger] d[k] as int, d[k + 1] as int) by {
                assert(has_arc(v.arcs, q[k] as int, q[k + 1] as int));
            }
        }
        lemma_walk_lower_bound(v, nodes, limits, costs, range_max, d, u, a);
        let su = v.site_of_vertex[u] as int;
        let sa = v.site_of_vertex[a] as int;
        let sw = v.site_of_vertex[w] as int;
        if a == u {
            lemma_walk_positive(v, nodes, limits, costs, range_max, d, u, a);
        } else {
            assert(sa != su) by {
                assert(v.vertex_of_site[v.site_of_vertex[a] as int] == a);
                assert(v.vertex_of_site[v.site_of_vertex[u] as int] == u);
            }
            assert(costs[su]@[sw] < costs[su]@[sa] + costs[sa]@[sw]);
        }
    }
}

/// With arc weights that make every detour strictly dearer, the cheapest
/// path between two sites joined by an edge is that edge: its cost is the
/// edge's weight and its vertices are the two sites'.
pub proof fn law_direct_hop(
    v: RouterView,
    nodes: Seq<Node>,
    limits: Seq<Vec<u64>>,
    costs: Seq<Vec<u64>>,
    range_max: u64,
    x: int,
    y: int,
    r: (i64, Seq<usize>),
)
    requires
        v.wf(),
        v.site_ids == ids_of(nodes),
        v.edges == table_edges(nodes, limits, costs, range_max, nodes.len() as int),
        square_table(limits, nodes.len() as int),
        square_table(costs, nodes.len() as int),
        detours_cost_more(costs, nodes.len() as int),
        0 <= x < nodes.len(),
        0 <= y < nodes.len(),
        crate::graph::connects(nodes, limits, range_max, x, y),
        v.path_answer(nodes[x].uid@, nodes[y].uid@, r),
    ensures
        r.0 == costs[x]@[y],
        r.1 == seq![v.vertex_of_site[x], v.vertex_of_site[y]],
{
    let n = nodes.len() as int;
    assert(v.site_ids[x] == nodes[x].uid@);
    assert(v.site_ids[y] == nodes[y].uid@);
    lemma_vertex_of_site(v, x);
    lemma_vertex_of_site(v, y);
    let vx = v.vertex_of_site[x];
    let vy = v.vertex_of_site[y];
    crate::graph::lemma_edge_present(nodes, limits, costs, range_max, x, y);
    let e = Edge { from: x as usize, to: y as usize, cost: costs[x]@[y] };
    let k = choose|k: int| 0 <= k < v.edges.len() && v.edges[k] == e;
    assert(v.arcs[k] == (vx as int, vy as int, e.cost));
    assert(has_arc(v.arcs, vx as int, vy as int));
    let direct = seq![vx, vy];
    assert(is_walk(v.arcs, direct, vx as int, vy as int)) by {
        assert forall|i: int| 0 <= i < direct.len() - 1 implies has_arc(v.arcs, #[trigger] direct[i] as int, direct[i + 1] as int) by {
            assert(i == 0);
        }
    }
    assert(reachable(v.arcs, vx as int, vy as int));
    lemma_arc_weight_unique(v.arcs, k);
    assert(direct.drop_last() =~= seq![vx]);
    assert(walk_cost(v.arcs, direct.drop_last()) == 0);
    assert(direct[direct.len() - 2] == vx && direct.last() == vy);
    assert(arc_weight(v.arcs, vx as int, vy as int) == e.cost);
    assert(walk_cost(v.arcs, direct) == walk_cost(v.arcs, direct.drop_last()) + arc_weight(v.arcs, vx as int, vy as int));
    assert(walk_cost(v.arcs, direct) == costs[x]@[y]);
    assert(v.site_of_vertex[vx as int] == x);
    assert(v.site_of_vertex[vy as int] == y);
    let q = r.1;
    assert(x != y) by {
        if x == y {
            assert(nodes[x].uid@ == nodes[y].uid@);
        }
    }
    if q.len() == 1 {
        assert(q[0] == vx && q.last() == vy);
        assert(v.site_of_vertex[vx as int] == v.site_of_vertex[vy as int]);
    }
    if q.len() >= 3 {
        lemma_walk_lower_bound(v, nodes, limits, costs, range_max, q, vx as int, vy as int);
    }
    assert(q.len() == 2);
    assert(q =~= direct);
}

/// `c` is the least cost of a walk from `vf` to `vt`.
pub open spec fn is_cheapest_cost(arcs: Seq<(int, int, u64)>, vf: int, vt: int, c: int) -> bool {
    &&& exists|p: Seq<usize>| #[trigger] is_walk(arcs, p, vf, vt) && walk_cost(arcs, p) == c
    &&& forall|q: Seq<usize>| #[trigger] is_walk(arcs, q, vf, vt) ==> c <= walk_cost(arcs, q)
}

/// The cost of a cheapest path between two sites joined by one.
pub open spec fn route_cost(v: RouterView, from: Seq<char>, to: Seq<char>) -> int {
    choose|c: int| is_cheapest_cost(v.arcs, v.vertex_of(from), v.vertex_of(to), c)
}

/// Walks cost nothing negative.
pub proof fn lemma_walk_cost_nonneg(arcs: Seq<(int, int, u64)>, p: Seq<usize>)
    ensures
        walk_cost(arcs, p) >= 0,
    decreases p.len(),
{
    if p.len() > 1 {
        lemma_walk_cost_nonneg(arcs, p.drop_last());
        lemma_arc_weight_nonneg(arcs, p[p.len() - 2] as int, p.last() as int);
    }
}

proof fn lemma_arc_weight_nonneg(arcs: Seq<(int, int, u64)>, u: int, v: int)
    ensures
        arc_weight(arcs, u, v) >= 0,
    decreases arcs.len(),
{
    if arcs.len() > 0 {
        lemma_arc_weight_nonneg(arcs.drop_last(), u, v);
    }
}

/// Where some walk costs at most `k`, a least cost exists, and it is not
/// negative.
pub proof fn lemma_cheapest_exists(arcs: Seq<(int, int, u64)>, vf: int, vt: int, p: Seq<usize>, k: nat)
    requires
        is_walk(arcs, p, vf, vt),
        walk_cost(arcs, p) <= k,
    ensures
        exists|c: int| is_cheapest_cost(arcs, vf, vt, c) && c >= 0,
    decreases k,
{
    lemma_walk_cost_nonneg(arcs, p);
    if forall|q: Seq<usize>| #[trigger] is_walk(arcs, q, vf, vt) ==> walk_cost(arcs, p) <= walk_cost(arcs, q) {
        assert(is_cheapest_cost(arcs, vf, vt, walk_cost(arcs, p)));
    } else {
        let q = choose|q: Seq<usize>| #[trigger] is_walk(arcs, q, vf, vt) && !(walk_cost(arcs, p) <= walk_cost(arcs, q));
        lemma_walk_cost_nonneg(arcs, q);
        lemma_cheapest_exists(arcs, vf, vt, q, (k - 1) as nat);
    }
}

/// Between sites some walk joins, the cost of a cheapest path is the least
/// cost of a walk, and not negative.
pub proof fn lemma_route_cost(v: RouterView, from: Seq<char>, to: Seq<char>)
    requires
        reachable(v.arcs, v.vertex_of(from), v.vertex_of(to)),
    ensures
        is_cheapest_cost(v.arcs, v.vertex_of(from), v.vertex_of(to), route_cost(v, from, to)),
        route_cost(v, from, to) >= 0,
{
    let p = choose|p: Seq<usize>| #[trigger] is_walk(v.arcs, p, v.vertex_of(from), v.vertex_of(to));
    lemma_walk_cost_nonneg(v.arcs, p);
    lemma_cheapest_exists(v.arcs, v.vertex_of(from), v.vertex_of(to), p, walk_cost(v.arcs, p) as nat);
    let c = route_cost(v, from, to);
    let w = choose|c: int| is_cheapest_cost(v.arcs, v.vertex_of(from), v.vertex_of(to), c) && c >= 0;
    let pc = choose|p: Seq<usize>| #[trigger] is_walk(v.arcs, p, v.vertex_of(from), v.vertex_of(to)) && walk_cost(v.arcs, p) == c;
    let pw = choose|p: Seq<usize>| #[trigger] is_walk(v.arcs, p, v.vertex_of(from), v.vertex_of(to)) && walk_cost(v.arcs, p) == w;
    assert(c <= walk_cost(v.arcs, pw));
    assert(w <= walk_cost(v.arcs, pc));
}

/// Two answers to the same query have the same cost, and both find a path
/// or neither does; a path found costs [`route_cost`].
pub proof fn lemma_answer_unique(v: RouterView, from: Seq<char>, to: Seq<char>, r1: (i64, Seq<usize>), r2: (i64, Seq<usize>))
    requires
        v.path_answer(from, to, r1),
        v.path_answer(from, to, r2),
    ensures
        r1.0 == r2.0,
        r1.1.len() == 0 <==> r2.1.len() == 0,
        r1.1.len() > 0 ==> r1.0 == route_cost(v, from, to),
{
    if v.knows(from) && v.knows(to) {
        let vf = v.vertex_of(from);
        let vt = v.vertex_of(to);
        if r1.1.len() > 0 {
            assert(reachable(v.arcs, vf, vt));
        }
        if r2.1.len() > 0 {
            assert(reachable(v.arcs, vf, vt));
        }
        if r1.1.len() > 0 && r2.1.len() > 0 {
            assert(is_walk(v.arcs, r2.1, vf, vt));
            assert(is_walk(v.arcs, r1.1, vf, vt));
            assert(r1.0 <= r2.0);
            assert(r2.0 <= r1.0);
        }
        if r1.1.len() > 0 {
            lemma_route_cost(v, from, to);
            let c = route_cost(v, from, to);
            let pc = choose|p: Seq<usize>| #[trigger] is_walk(v.arcs, p, vf, vt) && walk_cost(v.arcs, p) == c;
            assert(is_walk(v.arcs, r1.1, vf, vt));
            assert(r1.0 <= c);
            assert(c <= r1.0);
        }
    }
}

} // verus!
