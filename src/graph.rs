//! Building the edge set of a range-constrained site graph.

use vstd::prelude::*;
use crate::edge::Edge;
use crate::node::Node;

verus! {

/// `t` is an `n` by `n` table.
pub open spec fn square_table(t: Seq<Vec<u64>>, n: int) -> bool {
    t.len() == n && forall|i: int| 0 <= i < n ==> #[trigger] t[i]@.len() == n
}

/// Sites `i` and `j` are distinct and within range of each other.
pub open spec fn connects(nodes: Seq<Node>, limits: Seq<Vec<u64>>, range_max: u64, i: int, j: int) -> bool {
    nodes[i].uid@ != nodes[j].uid@ && limits[i]@[j] <= range_max
}

/// The edges leaving site `i` towards the sites before position `j`, in order.
pub open spec fn row_edges(
    nodes: Seq<Node>,
    limits: Seq<Vec<u64>>,
    costs: Seq<Vec<u64>>,
    range_max: u64,
    i: int,
    j: int,
) -> Seq<Edge>
    decreases j,
{
    if j <= 0 {
        Seq::empty()
    } else {
        let prev = row_edges(nodes, limits, costs, range_max, i, j - 1);
        if connects(nodes, limits, range_max, i, j - 1) {
            prev.push(Edge { from: i as usize, to: (j - 1) as usize, cost: costs[i]@[j - 1] })
        } else {
            prev
        }
    }
}

/// The edges leaving the sites before position `i`, row after row.
pub open spec fn table_edges(
    nodes: Seq<Node>,
    limits: Seq<Vec<u64>>,
    costs: Seq<Vec<u64>>,
    range_max: u64,
    i: int,
) -> Seq<Edge>
    decreases i,
{
    if i <= 0 {
        Seq::empty()
    } else {
        table_edges(nodes, limits, costs, range_max, i - 1)
            + row_edges(nodes, limits, costs, range_max, i - 1, nodes.len() as int)
    }
}

/// `e` joins two distinct sites within range, weighted by its `costs` entry.
pub open spec fn edge_sound(nodes: Seq<Node>, limits: Seq<Vec<u64>>, costs: Seq<Vec<u64>>, range_max: u64, e: Edge) -> bool {
    &&& e.from < nodes.len()
    &&& e.to < nodes.len()
    &&& connects(nodes, limits, range_max, e.from as int, e.to as int)
    &&& e.cost == costs[e.from as int]@[e.to as int]
}

/// `a` comes strictly before `b` in row-major order.
pub open spec fn edge_before(a: Edge, b: Edge) -> bool {
    a.from < b.from || (a.from == b.from && a.to < b.to)
}

proof fn lemma_row_edges(nodes: Seq<Node>, limits: Seq<Vec<u64>>, costs: Seq<Vec<u64>>, range_max: u64, i: int, j: int)
    requires
        0 <= i < nodes.len(),
        j <= nodes.len(),
        nodes.len() <= usize::MAX,
    ensures
        ({
            let row = row_edges(nodes, limits, costs, range_max, i, j);
            &&& forall|k: int| 0 <= k < row.len() ==> edge_sound(nodes, limits, costs, range_max, #[trigger] row[k])
                && row[k].from == i && row[k].to < j
            &&& forall|k: int, l: int| 0 <= k < l < row.len() ==> (#[trigger] row[k]).to < (#[trigger] row[l]).to
        }),
    decreases j,
{
    if j > 0 {
        lemma_row_edges(nodes, limits, costs, range_max, i, j - 1);
        let prev = row_edges(nodes, limits, costs, range_max, i, j - 1);
        let row = row_edges(nodes, limits, costs, range_max, i, j);
        if connects(nodes, limits, range_max, i, j - 1) {
            assert forall|k: int| 0 <= k < row.len() implies edge_sound(nodes, limits, costs, range_max, #[trigger] row[k])
                && row[k].from == i && row[k].to < j by {
                if k < prev.len() {
                    assert(row[k] == prev[k]);
                }
            }
            assert forall|k: int, l: int| 0 <= k < l < row.len() implies (#[trigger] row[k]).to < (#[trigger] row[l]).to by {
                assert(row[k] == prev[k]);
                if l < prev.len() {
                    assert(row[l] == prev[l]);
                }
            }
        }
    }
}

/// Every edge of the first `i` rows is sound, and the edges come in strict
/// row-major order.
pub proof fn lemma_table_edges(nodes: Seq<Node>, limits: Seq<Vec<u64>>, costs: Seq<Vec<u64>>, range_max: u64, i: int)
    requires
        0 <= i <= nodes.len(),
        nodes.len() <= usize::MAX,
    ensures
        ({
            let t = table_edges(nodes, limits, costs, range_max, i);
            &&& forall|k: int| 0 <= k < t.len() ==> edge_sound(nodes, limits, costs, range_max, #[trigger] t[k])
                && t[k].from < i
            &&& forall|k: int, l: int| 0 <= k < l < t.len() ==> edge_before(#[trigger] t[k], #[trigger] t[l])
        }),
    decreases i,
{
    if i > 0 {
        lemma_table_edges(nodes, limits, costs, range_max, i - 1);
        lemma_row_edges(nodes, limits, costs, range_max, i - 1, nodes.len() as int);
        let a = table_edges(nodes, limits, costs, range_max, i - 1);
        let b = row_edges(nodes, limits, costs, range_max, i - 1, nodes.len() as int);
        let t = table_edges(nodes, limits, costs, range_max, i);
        assert(t == a + b);
        assert forall|k: int, l: int| 0 <= k < l < t.len() implies edge_before(#[trigger] t[k], #[trigger] t[l]) by {
            if l < a.len() {
            } else if k < a.len() {
                assert(t[l] == b[l - a.len()]);
            } else {
                assert(t[l] == b[l - a.len()]);
                assert(t[k] == b[k - a.len()]);
            }
        }
        assert forall|k: int| 0 <= k < t.len() implies edge_sound(nodes, limits, costs, range_max, #[trigger] t[k])
            && t[k].from < i by {
            if k >= a.len() {
                assert(t[k] == b[k - a.len()]);
            }
        }
    }
}

/// Builds the edges among `nodes`: one from `i` to `j` for every ordered pair
/// of distinct sites whose `limits` entry is at most `range_max`, weighted by
/// the `costs` entry, emitted row by row in the order of `nodes`.
pub fn build_edges(
    nodes: &[Node],
    range_max: u64,
    limits: &Vec<Vec<u64>>,
    costs: &Vec<Vec<u64>>,
) -> (r: Vec<Edge>)
    requires
        square_table(limits@, nodes@.len() as int),
        square_table(costs@, nodes@.len() as int),
    ensures
        r@ == table_edges(nodes@, limits@, costs@, range_max, nodes@.len() as int),
        forall|k: int| 0 <= k < r@.len() ==> edge_sound(nodes@, limits@, costs@, range_max, #[trigger] r@[k]),
        forall|k: int, l: int| 0 <= k < l < r@.len() ==> edge_before(#[trigger] r@[k], #[trigger] r@[l]),
{
    let n = nodes.len();
    let mut edges: Vec<Edge> = Vec::new();
    let mut i: usize = 0;
    while i < n
        invariant
            n == nodes@.len(),
            0 <= i <= n,
            square_table(limits@, n as int),
            square_table(costs@, n as int),
            edges@ == table_edges(nodes@, limits@, costs@, range_max, i as int),
        decreases n - i,
    {
        let mut j: usize = 0;
        let ghost before = edges@;
        while j < n
            invariant
                n == nodes@.len(),
                0 <= i < n,
                0 <= j <= n,
                square_table(limits@, n as int),
                square_table(costs@, n as int),
                before == table_edges(nodes@, limits@, costs@, range_max, i as int),
                edges@ == before + row_edges(nodes@, limits@, costs@, range_max, i as int, j as int),
            decreases n - j,
        {
            assert(limits@[i as int]@.len() == n);
            assert(costs@[i as int]@.len() == n);
            if nodes[i].uid != nodes[j].uid && limits[i][j] <= range_max {
                edges.push(Edge { from: i, to: j, cost: costs[i][j] });
            }
            j = j + 1;
            proof {
                assert(edges@ =~= before + row_edges(nodes@, limits@, costs@, range_max, i as int, j as int));
            }
        }
        i = i + 1;
    }
    proof {
        lemma_table_edges(nodes@, limits@, costs@, range_max, n as int);
    }
    edges
}

/// Every pair of distinct positions below `n` is within range.
pub open spec fn all_pairs_within(limits: Seq<Vec<u64>>, range_max: u64, n: int) -> bool {
    forall|i: int, j: int| 0 <= i < n && 0 <= j < n && i != j ==> #[trigger] limits[i]@[j] <= range_max
}

/// Sites at distinct positions have distinct ids.
pub open spec fn distinct_uids(nodes: Seq<Node>) -> bool {
    forall|i: int, j: int| 0 <= i < nodes.len() && 0 <= j < nodes.len() && i != j ==> #[trigger] nodes[i].uid@
        != #[trigger] nodes[j].uid@
}

proof fn lemma_row_count(nodes: Seq<Node>, limits: Seq<Vec<u64>>, costs: Seq<Vec<u64>>, range_max: u64, i: int, j: int)
    requires
        0 <= i < nodes.len(),
        0 <= j <= nodes.len(),
        distinct_uids(nodes),
    ensures
        ({
            let full = if i < j { j - 1 } else { j };
            &&& row_edges(nodes, limits, costs, range_max, i, j).len() <= full
            &&& (row_edges(nodes, limits, costs, range_max, i, j).len() == full <==> forall|k: int|
                0 <= k < j && k != i ==> #[trigger] limits[i]@[k] <= range_max)
        }),
    decreases j,
{
    if j > 0 {
        lemma_row_count(nodes, limits, costs, range_max, i, j - 1);
        if j - 1 != i {
            assert(nodes[i].uid@ != nodes[j - 1].uid@);
        }
        let full = if i < j { j - 1 } else { j };
        if row_edges(nodes, limits, costs, range_max, i, j).len() == full {
            assert forall|k: int| 0 <= k < j && k != i implies #[trigger] limits[i]@[k] <= range_max by {}
        }
    }
}

proof fn lemma_table_count(nodes: Seq<Node>, limits: Seq<Vec<u64>>, costs: Seq<Vec<u64>>, range_max: u64, i: int)
    requires
        0 <= i <= nodes.len(),
        distinct_uids(nodes),
    ensures
        table_edges(nodes, limits, costs, range_max, i).len() <= i * (nodes.len() - 1),
        table_edges(nodes, limits, costs, range_max, i).len() == i * (nodes.len() - 1) <==> forall|a: int, b: int|
            0 <= a < i && 0 <= b < nodes.len() && a != b ==> #[trigger] limits[a]@[b] <= range_max,
    decreases i,
{
    let n = nodes.len() as int;
    if i == 0 {
        assert(table_edges(nodes, limits, costs, range_max, i).len() == 0);
        assert(i * (n - 1) == 0) by (nonlinear_arith)
            requires i == 0;
    }
    if i > 0 {
        lemma_table_count(nodes, limits, costs, range_max, i - 1);
        lemma_row_count(nodes, limits, costs, range_max, i - 1, n);
        assert(i * (n - 1) == (i - 1) * (n - 1) + (n - 1)) by (nonlinear_arith);
        let t = table_edges(nodes, limits, costs, range_max, i);
        let a = table_edges(nodes, limits, costs, range_max, i - 1);
        let b = row_edges(nodes, limits, costs, range_max, i - 1, n);
        assert(t == a + b);
        assert(t.len() == a.len() + b.len());
        assert(a.len() <= (i - 1) * (n - 1));
        assert(b.len() <= n - 1);
        assert(t.len() <= i * (n - 1));
        if t.len() == i * (n - 1) {
            assert(a.len() == (i - 1) * (n - 1));
            assert(b.len() == n - 1);
            assert forall|x: int, y: int| 0 <= x < i && 0 <= y < n && x != y implies #[trigger] limits[x]@[y]
                <= range_max by {
                if x < i - 1 {
                } else {
                    assert(x == i - 1);
                }
            }
        }
        if forall|x: int, y: int| 0 <= x < i && 0 <= y < n && x != y ==> #[trigger] limits[x]@[y] <= range_max {
            assert forall|x: int, y: int| 0 <= x < i - 1 && 0 <= y < n && x != y implies #[trigger] limits[x]@[y]
                <= range_max by {}
            assert forall|k: int| 0 <= k < n && k != i - 1 implies #[trigger] limits[i - 1]@[k] <= range_max by {}
        }
    }
}

/// Every edge built joins two distinct sites within range and weighs its
/// entry of the cost table.
pub proof fn law_edges_sound(nodes: Seq<Node>, limits: Seq<Vec<u64>>, costs: Seq<Vec<u64>>, range_max: u64)
    requires
        nodes.len() <= usize::MAX,
    ensures
        forall|k: int| 0 <= k < table_edges(nodes, limits, costs, range_max, nodes.len() as int).len() ==> {
            let e = #[trigger] table_edges(nodes, limits, costs, range_max, nodes.len() as int)[k];
            &&& e.from < nodes.len() && e.to < nodes.len()
            &&& nodes[e.from as int].uid@ != nodes[e.to as int].uid@
            &&& limits[e.from as int]@[e.to as int] <= range_max
            &&& e.cost == costs[e.from as int]@[e.to as int]
        },
{
    lemma_table_edges(nodes, limits, costs, range_max, nodes.len() as int);
}

proof fn lemma_row_bound(nodes: Seq<Node>, limits: Seq<Vec<u64>>, costs: Seq<Vec<u64>>, range_max: u64, i: int, j: int)
    requires
        0 <= i < nodes.len(),
        0 <= j <= nodes.len(),
    ensures
        row_edges(nodes, limits, costs, range_max, i, j).len() <= if i < j { j - 1 } else { j },
    decreases j,
{
    if j > 0 {
        lemma_row_bound(nodes, limits, costs, range_max, i, j - 1);
    }
}

proof fn lemma_table_bound(nodes: Seq<Node>, limits: Seq<Vec<u64>>, costs: Seq<Vec<u64>>, range_max: u64, i: int)
    requires
        0 <= i <= nodes.len(),
    ensures
        table_edges(nodes, limits, costs, range_max, i).len() <= i * (nodes.len() - 1),
    decreases i,
{
    let n = nodes.len() as int;
    if i == 0 {
        assert(i * (n - 1) == 0) by (nonlinear_arith)
            requires i == 0;
    } else {
        lemma_table_bound(nodes, limits, costs, range_max, i - 1);
        lemma_row_bound(nodes, limits, costs, range_max, i - 1, n);
        assert(i * (n - 1) == (i - 1) * (n - 1) + (n - 1)) by (nonlinear_arith);
    }
}

/// A set of `n` sites has at most `n * (n - 1)` edges.
pub proof fn law_edge_bound(nodes: Seq<Node>, limits: Seq<Vec<u64>>, costs: Seq<Vec<u64>>, range_max: u64)
    ensures
        table_edges(nodes, limits, costs, range_max, nodes.len() as int).len() <= nodes.len() * (nodes.len() - 1),
{
    lemma_table_bound(nodes, limits, costs, range_max, nodes.len() as int);
}

/// A set of `n` sites with distinct ids has at most `n * (n - 1)` edges, and
/// exactly that many if and only if every pair of distinct sites is within
/// range.
pub proof fn law_edge_count(nodes: Seq<Node>, limits: Seq<Vec<u64>>, costs: Seq<Vec<u64>>, range_max: u64)
    requires
        distinct_uids(nodes),
    ensures
        table_edges(nodes, limits, costs, range_max, nodes.len() as int).len() <= nodes.len() * (nodes.len() - 1),
        table_edges(nodes, limits, costs, range_max, nodes.len() as int).len() == nodes.len() * (nodes.len() - 1)
            <==> all_pairs_within(limits, range_max, nodes.len() as int),
{
    lemma_table_count(nodes, limits, costs, range_max, nodes.len() as int);
}

/// Every pair of sites within range has its edge in the table.
pub proof fn lemma_edge_present(nodes: Seq<Node>, limits: Seq<Vec<u64>>, costs: Seq<Vec<u64>>, range_max: u64, i: int, j: int)
    requires
        nodes.len() <= usize::MAX,
        0 <= i < nodes.len(),
        0 <= j < nodes.len(),
        connects(nodes, limits, range_max, i, j),
    ensures
        table_edges(nodes, limits, costs, range_max, nodes.len() as int).contains(
            Edge { from: i as usize, to: j as usize, cost: costs[i]@[j] },
        ),
{
    let e = Edge { from: i as usize, to: j as usize, cost: costs[i]@[j] };
    lemma_row_has(nodes, limits, costs, range_max, i, j, nodes.len() as int);
    lemma_table_keeps(nodes, limits, costs, range_max, i, nodes.len() as int, e);
}

proof fn lemma_row_has(nodes: Seq<Node>, limits: Seq<Vec<u64>>, costs: Seq<Vec<u64>>, range_max: u64, i: int, j: int, m: int)
    requires
        0 <= j < m,
        connects(nodes, limits, range_max, i, j),
    ensures
        row_edges(nodes, limits, costs, range_max, i, m).contains(
            Edge { from: i as usize, to: j as usize, cost: costs[i]@[j] },
        ),
    decreases m,
{
    let e = Edge { from: i as usize, to: j as usize, cost: costs[i]@[j] };
    let row = row_edges(nodes, limits, costs, range_max, i, m);
    if j == m - 1 {
        assert(row.last() == e);
        assert(row[row.len() - 1] == e);
    } else {
        lemma_row_has(nodes, limits, costs, range_max, i, j, m - 1);
        let prev = row_edges(nodes, limits, costs, range_max, i, m - 1);
        let k = choose|k: int| 0 <= k < prev.len() && prev[k] == e;
        assert(row[k] == e);
    }
}

proof fn lemma_table_keeps(nodes: Seq<Node>, limits: Seq<Vec<u64>>, costs: Seq<Vec<u64>>, range_max: u64, i: int, t: int, e: Edge)
    requires
        0 <= i < t,
        row_edges(nodes, limits, costs, range_max, i, nodes.len() as int).contains(e),
    ensures
        table_edges(nodes, limits, costs, range_max, t).contains(e),
    decreases t,
{
    let a = table_edges(nodes, limits, costs, range_max, t - 1);
    let b = row_edges(nodes, limits, costs, range_max, t - 1, nodes.len() as int);
    let all = table_edges(nodes, limits, costs, range_max, t);
    assert(all == a + b);
    if i == t - 1 {
        let k = choose|k: int| 0 <= k < b.len() && b[k] == e;
        assert(all[a.len() + k] == e);
    } else {
        lemma_table_keeps(nodes, limits, costs, range_max, i, t - 1, e);
        let k = choose|k: int| 0 <= k < a.len() && a[k] == e;
        assert(all[k] == e);
    }
}

/// The sites before position `j` that site `i` connects to, in order.
pub open spec fn neighbours(nodes: Seq<Node>, limits: Seq<Vec<u64>>, range_max: u64, i: int, j: int) -> Seq<usize>
    decreases j,
{
    if j <= 0 {
        Seq::empty()
    } else {
        let prev = neighbours(nodes, limits, range_max, i, j - 1);
        if connects(nodes, limits, range_max, i, j - 1) { prev.push((j - 1) as usize) } else { prev }
    }
}

/// A directed graph of sites, as the list of the sites each one connects
/// to, by position in the site list.
pub struct Graph {
    pub routes: Vec<Vec<usize>>,
}

impl Graph {
    /// Connects every site to every other one whose `limits` entry is at
    /// most `range_max`.
    pub fn new(nodes: &[Node], range_max: u64, limits: &Vec<Vec<u64>>) -> (r: Graph)
        requires
            square_table(limits@, nodes@.len() as int),
        ensures
            r.routes@.len() == nodes@.len(),
            forall|i: int| 0 <= i < nodes@.len() ==> (#[trigger] r.routes@[i])@ == neighbours(nodes@, limits@, range_max, i, nodes@.len() as int),
    {
        build_graph(nodes, range_max, limits)
    }

    /// Runs a path-finding `algorithm` on the graph between two sites.
    pub fn shortest_path<F: Fn(&Graph, usize, usize) -> Vec<usize>>(&self, from: usize, to: usize, algorithm: F) -> (r: Vec<usize>)
        requires
            algorithm.requires((self, from, to)),
        ensures
            algorithm.ensures((self, from, to), r),
    {
        find_path(self, from, to, algorithm)
    }
}

/// See [`Graph::new`].
fn build_graph(nodes: &[Node], range_max: u64, limits: &Vec<Vec<u64>>) -> (r: Graph)
    requires
        square_table(limits@, nodes@.len() as int),
    ensures
        r.routes@.len() == nodes@.len(),
        forall|i: int| 0 <= i < nodes@.len() ==> (#[trigger] r.routes@[i])@ == neighbours(nodes@, limits@, range_max, i, nodes@.len() as int),
{
    let n = nodes.len();
    let mut routes: Vec<Vec<usize>> = Vec::new();
    let mut i: usize = 0;
    while i < n
        invariant
            n == nodes@.len(),
            0 <= i <= n,
            square_table(limits@, n as int),
            routes@.len() == i,
            forall|k: int| 0 <= k < i ==> (#[trigger] routes@[k])@ == neighbours(nodes@, limits@, range_max, k, n as int),
        decreases n - i,
    {
        let mut row: Vec<usize> = Vec::new();
        let mut j: usize = 0;
        while j < n
            invariant
                n == nodes@.len(),
                0 <= i < n,
                0 <= j <= n,
                square_table(limits@, n as int),
                row@ == neighbours(nodes@, limits@, range_max, i as int, j as int),
            decreases n - j,
        {
            assert(limits@[i as int]@.len() == n);
            if nodes[i].uid != nodes[j].uid && limits[i][j] <= range_max {
                row.push(j);
            }
            j = j + 1;
        }
        routes.push(row);
        i = i + 1;
    }
    Graph { routes }
}

/// See [`Graph::shortest_path`].
fn find_path<F: Fn(&Graph, usize, usize) -> Vec<usize>>(graph: &Graph, from: usize, to: usize, algorithm: F) -> (r: Vec<usize>)
    requires
        algorithm.requires((graph, from, to)),
    ensures
        algorithm.ensures((graph, from, to), r),
{
    algorithm(graph, from, to)
}

} // verus!
