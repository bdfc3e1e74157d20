use fleet_router::edge::Edge;
use fleet_router::graph::{build_edges, Graph};
use fleet_router::location::Location;
use fleet_router::node::Node;
use fleet_router::router::{Algorithm, Router};
use fleet_router::status::Status;
use rand::rngs::StdRng;
use rand::{Rng, SeedableRng};

const CAPACITY: usize = 500;

fn node(uid: &str, lat: f64, lon: f64) -> Node {
    Node {
        uid: uid.to_string(),
        location: Location {
            latitude: (lat * 1e6).round() as i64,
            longitude: (lon * 1e6).round() as i64,
            altitude_meters: 0,
        },
        forward_to: None,
        status: Status::Open,
    }
}

/// Great-circle distance in centimetres on a sphere of the mean Earth radius.
fn haversine_cm(a: &Location, b: &Location) -> u64 {
    let (la1, lo1) = ((a.latitude as f64 / 1e6).to_radians(), (a.longitude as f64 / 1e6).to_radians());
    let (la2, lo2) = ((b.latitude as f64 / 1e6).to_radians(), (b.longitude as f64 / 1e6).to_radians());
    let d = ((la2 - la1) / 2.0).sin().powi(2) + la1.cos() * la2.cos() * ((lo2 - lo1) / 2.0).sin().powi(2);
    (2.0 * 6_371_000.0 * 100.0 * d.sqrt().asin()).round() as u64
}

fn table(nodes: &[Node]) -> Vec<Vec<u64>> {
    nodes.iter().map(|a| nodes.iter().map(|b| haversine_cm(&a.location, &b.location)).collect()).collect()
}

fn sites_near_san_francisco(count: usize, seed: u64) -> Vec<Node> {
    let mut rng = StdRng::seed_from_u64(seed);
    (0..count)
        .map(|i| node(&format!("site-{}", i), 37.7749 + rng.gen_range(-0.08..0.08), -122.4194 + rng.gen_range(-0.1..0.1)))
        .collect()
}

fn four_sites(last: (f64, f64)) -> Vec<Node> {
    vec![
        node("1", 37.777843, -122.468207),
        node("2", 37.778339, -122.460395),
        node("3", 37.780596, -122.434904),
        node("4", last.0, last.1),
    ]
}

const KM: u64 = 100_000;

#[test]
fn test_correct_node_count() {
    let nodes = sites_near_san_francisco(CAPACITY, 1);
    let t = table(&nodes);
    let router = Router::new(&nodes, 10_000 * KM, &t, &t);
    assert_eq!(CAPACITY, router.get_node_count());
}

#[test]
fn test_shortest_path_disconnected_graph() {
    let nodes = sites_near_san_francisco(CAPACITY, 2);
    let t = table(&nodes);
    let router = Router::new(&nodes, 0, &t, &t);
    let (cost, path) = router.find_shortest_path(&nodes[0], &nodes[1], Algorithm::AStar);
    assert_eq!(cost, 0);
    assert_eq!(router.get_edge_count(), 0);
    assert_eq!(router.get_node_count(), CAPACITY);
    assert_eq!(path.len(), 0);
}

#[test]
fn test_shortest_path_has_path() {
    let nodes = four_sites((37.774397, -122.445366));
    let t = table(&nodes);
    let router = Router::new(&nodes, 100 * KM, &t, &t);
    assert_eq!(4, router.get_node_count());
    assert_eq!(router.get_node_count() * router.get_node_count() - 4, router.get_edge_count());
    let (cost, path) = router.find_shortest_path(&nodes[0], &nodes[2], Algorithm::AStar);
    assert_eq!(cost, haversine_cm(&nodes[0].location, &nodes[2].location) as i64);
    assert_eq!(path.len(), 2);
    assert_eq!(path, vec![router.get_node_index(&nodes[0]).unwrap(), router.get_node_index(&nodes[2]).unwrap()]);
}

#[test]
fn test_shortest_path_no_path() {
    let nodes = four_sites((40.738820, -73.990440));
    let t = table(&nodes);
    let router = Router::new(&nodes, 100 * KM, &t, &t);
    assert_eq!(4, router.get_node_count());
    assert_eq!((router.get_node_count() - 1) * (router.get_node_count() - 1) - 3, router.get_edge_count());
    let (cost, path) = router.find_shortest_path(&nodes[0], &nodes[3], Algorithm::AStar);
    assert_eq!(cost, 0);
    assert_eq!(path.len(), 0);
    assert_eq!(path, vec![]);
}

#[test]
fn test_invalid_node_shortest_path() {
    let nodes = four_sites((40.738820, -73.990440));
    let not_in_graph_node = node("5", 40.738820, -73.990440);
    let t = table(&nodes);
    let router = Router::new(&nodes, 10_000 * KM, &t, &t);
    let (cost, path) = router.find_shortest_path(&nodes[0], &not_in_graph_node, Algorithm::AStar);
    assert_eq!(cost, -1);
    assert_eq!(path.len(), 0);
}

#[test]
fn test_get_edges() {
    let nodes = four_sites((40.738820, -73.990440));
    let t = table(&nodes);
    let router = Router::new(&nodes, 10_000 * KM, &t, &t);
    let edges = router.get_edges();
    assert_eq!(edges.len(), 12);
    assert_eq!(nodes[edges[0].to].uid, "2");
    assert_eq!(nodes[edges[1].to].uid, "3");
}

#[test]
fn path_to_self_is_the_site_alone() {
    let nodes = four_sites((37.774397, -122.445366));
    let t = table(&nodes);
    let router = Router::new(&nodes, 100 * KM, &t, &t);
    let (cost, path) = router.find_shortest_path(&nodes[3], &nodes[3], Algorithm::Dijkstra);
    assert_eq!(cost, 0);
    assert_eq!(path, vec![router.get_node_index(&nodes[3]).unwrap()]);
}

#[test]
fn unknown_source_gives_sentinel() {
    let nodes = four_sites((37.774397, -122.445366));
    let t = table(&nodes);
    let router = Router::new(&nodes, 100 * KM, &t, &t);
    let stranger = node("stranger", 0.0, 0.0);
    assert_eq!(router.find_shortest_path(&stranger, &nodes[0], Algorithm::Dijkstra), (-1, vec![]));
    assert_eq!(router.get_node_index(&stranger), None);
}

#[test]
fn multi_hop_path_sums_its_edges() {
    // Sites on a line, 10 km apart; only neighbours are within range.
    let nodes = vec![node("a", 0.0, 0.0), node("b", 0.0, 0.1), node("c", 0.0, 0.2)];
    let t = vec![vec![0, 10 * KM, 20 * KM], vec![10 * KM, 0, 10 * KM], vec![20 * KM, 10 * KM, 0]];
    let router = Router::new(&nodes, 15 * KM, &t, &t);
    assert_eq!(router.get_edge_count(), 4);
    let (cost, path) = router.find_shortest_path(&nodes[0], &nodes[2], Algorithm::Dijkstra);
    assert_eq!(cost, (20 * KM) as i64);
    let expected: Vec<usize> = nodes.iter().map(|n| router.get_node_index(n).unwrap()).collect();
    assert_eq!(path, expected);
}

#[test]
fn vertices_are_numbered_in_first_sight_order() {
    // Site "x" is isolated and comes first in the list: it is numbered last.
    let nodes = vec![node("x", 0.0, 0.0), node("y", 1.0, 1.0), node("z", 1.0, 1.01)];
    let t = vec![vec![0, 900, 900], vec![900, 0, 1], vec![900, 1, 0]];
    let router = Router::new(&nodes, 10, &t, &t);
    assert_eq!(router.get_node_index(&nodes[1]), Some(0));
    assert_eq!(router.get_node_index(&nodes[2]), Some(1));
    assert_eq!(router.get_node_index(&nodes[0]), Some(2));
    assert_eq!(router.get_node_uid(2), Some("x".to_string()));
    assert_eq!(router.get_node_location(0), Some(nodes[1].location));
    assert_eq!(router.get_node_uid(3), None);
}

#[test]
fn edges_are_built_row_by_row_within_range() {
    let nodes = vec![node("a", 0.0, 0.0), node("b", 0.0, 0.1), node("c", 0.0, 0.2)];
    let limits = vec![vec![0, 5, 50], vec![5, 0, 5], vec![50, 5, 0]];
    let costs = vec![vec![0, 7, 70], vec![8, 0, 9], vec![80, 10, 0]];
    let edges = build_edges(&nodes, 5, &limits, &costs);
    assert_eq!(
        edges,
        vec![
            Edge { from: 0, to: 1, cost: 7 },
            Edge { from: 1, to: 0, cost: 8 },
            Edge { from: 1, to: 2, cost: 9 },
            Edge { from: 2, to: 1, cost: 10 },
        ]
    );
    // Every pair within range: n * (n - 1) edges.
    assert_eq!(build_edges(&nodes, 50, &limits, &costs).len(), 6);
}

#[test]
fn site_graph_lists_neighbours() {
    let nodes = vec![node("a", 0.0, 0.0), node("b", 0.0, 0.1), node("c", 0.0, 0.2)];
    let limits = vec![vec![0, 5, 50], vec![5, 0, 5], vec![50, 5, 0]];
    let graph = Graph::new(&nodes, 5, &limits);
    assert_eq!(graph.routes, vec![vec![1], vec![0, 2], vec![1]]);
    let path = graph.shortest_path(0, 2, |g: &Graph, from: usize, to: usize| {
        let mut p = vec![from];
        p.extend(g.routes[from].iter().copied().filter(|m| g.routes[*m].contains(&to)));
        p.push(to);
        p
    });
    assert_eq!(path, vec![0, 1, 2]);
}
