use fleet_router::calendar::Calendar;
use fleet_router::error::RouterError;
use fleet_router::feasibility::{Aircraft, FlightPlan, PortRecord, Timestamp, Vehicle};
use fleet_router::location::Location;
use fleet_router::node::Node;
use fleet_router::router::Algorithm;
use fleet_router::service::{get_nearest_vertiports, RouteQuery, RouterService, VertiportSite};
use fleet_router::status::Status;
use rand::rngs::StdRng;
use rand::{Rng, SeedableRng};

const T0: i64 = 1_700_000_000;
const TEN_KM: u64 = 1_000_000;

fn node(uid: &str, lat: f64, lon: f64) -> Node {
    Node {
        uid: uid.to_string(),
        location: Location {
            latitude: (lat * 1e6).round() as i64,
            longitude: (lon * 1e6).round() as i64,
            altitude_meters: 0,
        },
        forward_to: None,
        status: Status::Open,
    }
}

fn haversine_cm(a: &Location, b: &Location) -> u64 {
    let (la1, lo1) = ((a.latitude as f64 / 1e6).to_radians(), (a.longitude as f64 / 1e6).to_radians());
    let (la2, lo2) = ((b.latitude as f64 / 1e6).to_radians(), (b.longitude as f64 / 1e6).to_radians());
    let d = ((la2 - la1) / 2.0).sin().powi(2) + la1.cos() * la2.cos() * ((lo2 - lo1) / 2.0).sin().powi(2);
    (2.0 * 6_371_000.0 * 100.0 * d.sqrt().asin()).round() as u64
}

fn port(id: &str) -> PortRecord {
    PortRecord { id: id.to_string(), schedule: Calendar::parse("").unwrap() }
}

fn parked_at(id: &str, site: &str) -> Vehicle {
    Vehicle { id: id.to_string(), schedule: Calendar::parse("").unwrap(), last_vertiport_id: site.to_string() }
}

fn ts(seconds: i64) -> Option<Timestamp> {
    Some(Timestamp { seconds, nanos: 0 })
}

/// Two sites `A` and `B`, `distance` centimetres apart, with a router.
fn two_site_service(distance: u64) -> RouterService {
    let mut service = RouterService::new();
    service.set_nodes(vec![node("A", 37.0, -122.0), node("B", 37.09, -122.0)]).unwrap();
    let t = vec![vec![0, distance], vec![distance, 0]];
    service.init_router(&t, &t).unwrap();
    service
}

#[test]
fn search_emits_ordered_plans() {
    let service = two_site_service(TEN_KM);
    let plans = service
        .get_possible_flights(&port("A"), &port("B"), ts(T0), ts(T0 + 7200), &vec![parked_at("v1", "A")], &vec![])
        .unwrap();
    assert_eq!(plans.len(), 10);
    for (i, p) in plans.iter().enumerate() {
        assert_eq!(p.scheduled_departure.seconds, T0 + 300 * i as i64);
        assert_eq!(p.scheduled_arrival.seconds, T0 + 300 * i as i64 + 1800);
        assert_eq!(p.vehicle_id, "v1");
        assert_eq!(p.departure_vertiport_id, "A");
        assert_eq!(p.destination_vertiport_id, "B");
    }
}

#[test]
fn search_is_repeatable() {
    let service = two_site_service(TEN_KM);
    let vehicles = vec![parked_at("v1", "A")];
    let existing = vec![FlightPlan {
        vehicle_id: "v7".to_string(),
        departure_vertiport_id: "A".to_string(),
        destination_vertiport_id: "B".to_string(),
        scheduled_departure: T0 + 900,
        scheduled_arrival: T0 + 2700,
    }];
    let first = service.get_possible_flights(&port("A"), &port("B"), ts(T0), ts(T0 + 7200), &vehicles, &existing).unwrap();
    let second = service.get_possible_flights(&port("A"), &port("B"), ts(T0), ts(T0 + 7200), &vehicles, &existing).unwrap();
    let key = |v: &Vec<fleet_router::search::FlightPlanData>| {
        v.iter().map(|p| (p.vehicle_id.clone(), p.scheduled_departure.seconds, p.scheduled_arrival.seconds)).collect::<Vec<_>>()
    };
    assert_eq!(key(&first), key(&second));
    // The existing departure at T0 + 900 rules out departures from T0 to
    // T0 + 1200; its arrival at T0 + 2700 rules out departures from
    // T0 + 600 to T0 + 1800.
    let departures: Vec<i64> = first.iter().map(|p| p.scheduled_departure.seconds - T0).collect();
    assert_eq!(departures, vec![2100, 2400, 2700]);
}

#[test]
fn search_errors() {
    let vehicles = vec![parked_at("v1", "A")];
    let service = two_site_service(TEN_KM);
    let r = service.get_possible_flights(&port("A"), &port("B"), None, ts(T0 + 7200), &vehicles, &vec![]);
    assert_eq!(r.err(), Some(RouterError::InvalidArgument));
    let bad_nanos = Some(Timestamp { seconds: T0, nanos: -1 });
    let r = service.get_possible_flights(&port("A"), &port("B"), bad_nanos, ts(T0 + 7200), &vehicles, &vec![]);
    assert_eq!(r.err(), Some(RouterError::InvalidArgument));
    let r = RouterService::new().get_possible_flights(&port("A"), &port("B"), ts(T0), ts(T0 + 7200), &vehicles, &vec![]);
    assert_eq!(r.err(), Some(RouterError::NotReady));
    let r = service.get_possible_flights(&port("A"), &port("Z"), ts(T0), ts(T0 + 7200), &vehicles, &vec![]);
    assert_eq!(r.err(), Some(RouterError::NotFound));
    let far = two_site_service(100 * 100_000);
    let r = far.get_possible_flights(&port("A"), &port("B"), ts(T0), ts(T0 + 7200), &vehicles, &vec![]);
    assert_eq!(r.err(), Some(RouterError::Unroutable));
    let r = service.get_possible_flights(&port("A"), &port("B"), ts(T0), ts(T0 + 29 * 60), &vehicles, &vec![]);
    assert_eq!(r.err(), Some(RouterError::WindowTooSmall));
    let r = service.get_possible_flights(&port("A"), &port("B"), ts(T0), ts(T0 + 30 * 60), &vehicles, &vec![]);
    assert_eq!(r.unwrap().len(), 1);
    let r = service.get_possible_flights(&port("A"), &port("B"), ts(T0), ts(T0 + 7200), &vec![parked_at("v1", "B")], &vec![]);
    assert_eq!(r.err(), Some(RouterError::NoFeasibleSlot));
}

#[test]
fn initialization_is_one_shot() {
    let mut service = two_site_service(TEN_KM);
    assert!(service.is_router_initialized());
    assert_eq!(service.set_nodes(vec![]).err(), Some(RouterError::AlreadyInitialized));
    let t = vec![vec![0, 1], vec![1, 0]];
    assert_eq!(service.init_router(&t, &t).err(), Some(RouterError::AlreadyInitialized));
    let mut empty = RouterService::new();
    assert!(!empty.is_router_initialized());
    assert_eq!(empty.init_router(&t, &t).err(), Some(RouterError::NotReady));
    empty.set_nodes(vec![node("A", 0.0, 0.0), node("A", 1.0, 1.0)]).unwrap();
    assert_eq!(empty.init_router(&t, &t).err(), Some(RouterError::InvalidArgument));
}

#[test]
fn init_from_vertiports_checks_coordinates() {
    let t = vec![vec![0]];
    let mut service = RouterService::new();
    let bad = vec![VertiportSite { id: "p".to_string(), latitude: 91_000_000, longitude: 0 }];
    assert_eq!(service.init_router_from_vertiports(&bad, &t, &t).err(), Some(RouterError::InvalidArgument));
    let good = vec![VertiportSite { id: "p".to_string(), latitude: 37_000_000, longitude: -122_000_000 }];
    assert!(service.init_router_from_vertiports(&good, &t, &t).is_ok());
    assert_eq!(service.get_node_by_id(&"p".to_string()).unwrap().location.latitude, 37_000_000);
    assert_eq!(service.get_node_by_id(&"q".to_string()).err(), Some(RouterError::NotFound));
}

#[test]
fn nearest_sites_by_distance() {
    assert_eq!(get_nearest_vertiports(&vec![5, 3, 3, 9], &vec![1, 7, 0, 0]), (1, 2));
    assert_eq!(get_nearest_vertiports(&vec![4], &vec![4]), (0, 0));
}

#[test]
fn test_router() {
    let mut rng = StdRng::seed_from_u64(20);
    let nodes: Vec<Node> = (0..20)
        .map(|i| node(&format!("n{}", i), 37.7749 + rng.gen_range(-0.2..0.2), -122.4194 + rng.gen_range(-0.25..0.25)))
        .collect();
    let table: Vec<Vec<u64>> =
        nodes.iter().map(|a| nodes.iter().map(|b| haversine_cm(&a.location, &b.location)).collect()).collect();
    let src_location = Location { latitude: 37_521_230, longitude: -122_508_920, altitude_meters: 20 };
    let dst_location = Location { latitude: 37_810_320, longitude: -122_284_320, altitude_meters: 20 };
    let src_distances: Vec<u64> = nodes.iter().map(|n| haversine_cm(&src_location, &n.location)).collect();
    let dst_distances: Vec<u64> = nodes.iter().map(|n| haversine_cm(&dst_location, &n.location)).collect();
    let (src, dst) = get_nearest_vertiports(&src_distances, &dst_distances);
    let query = RouteQuery { aircraft: Aircraft::Cargo, from: nodes[src].uid.clone(), to: nodes[dst].uid.clone() };
    let mut service = RouterService::new();
    service.set_nodes(nodes).unwrap();
    let init_res = service.init_router(&table, &table);
    assert!(init_res.is_ok());
    let (route, cost) = service.get_route(&query).unwrap();
    assert!(route.len() > 0, "Route should not be empty");
    assert!(cost > 0, "Cost should be greater than 0");
}

#[test]
fn route_lists_locations() {
    let service = two_site_service(TEN_KM);
    let (route, cost) = service.get_route(&RouteQuery { aircraft: Aircraft::Cargo, from: "A".to_string(), to: "B".to_string() }).unwrap();
    assert_eq!(cost, TEN_KM as i64);
    assert_eq!(route.len(), 2);
    assert_eq!(route[1].latitude, 37_090_000);
    let unknown = service.get_route(&RouteQuery { aircraft: Aircraft::Cargo, from: "A".to_string(), to: "Q".to_string() }).unwrap();
    assert_eq!(unknown, (vec![], -1));
    assert_eq!(RouterService::new().get_route(&RouteQuery { aircraft: Aircraft::Cargo, from: "A".to_string(), to: "B".to_string() }).err(), Some(RouterError::NotReady));
}

#[test]
fn error_messages_are_distinct() {
    let all = [
        RouterError::NotReady,
        RouterError::AlreadyInitialized,
        RouterError::InvalidArgument,
        RouterError::NotFound,
        RouterError::Unroutable,
        RouterError::WindowTooSmall,
        RouterError::NoFeasibleSlot,
    ];
    for (i, a) in all.iter().enumerate() {
        for b in all.iter().skip(i + 1) {
            assert_ne!(a.message(), b.message());
        }
    }
}

#[test]
fn search_before_1970() {
    let service = two_site_service(TEN_KM);
    let early = -1_000_000_000;
    let plans = service
        .get_possible_flights(&port("A"), &port("B"), ts(early), ts(early + 7200), &vec![parked_at("v1", "A")], &vec![])
        .unwrap();
    assert_eq!(plans.len(), 10);
    assert_eq!(plans[9].scheduled_departure.seconds, early + 2700);
    let r = RouterService::new().get_possible_flights(&port("A"), &port("B"), ts(early), ts(early + 7200), &vec![], &vec![]);
    assert_eq!(r.err(), Some(RouterError::NotReady));
}

#[test]
fn search_block_drops_part_minute() {
    // 10.5 km: a 30.5 minute block, scheduled as 30 minutes; the window
    // must still hold the whole 30.5.
    let service = two_site_service(1_050_000);
    let plans = service
        .get_possible_flights(&port("A"), &port("B"), ts(T0), ts(T0 + 31 * 60), &vec![parked_at("v1", "A")], &vec![])
        .unwrap();
    assert_eq!(plans.len(), 1);
    assert_eq!(plans[0].scheduled_arrival.seconds, T0 + 30 * 60);
    // 1.5 km: arrival 21 minutes after departure.
    let short = two_site_service(150_000);
    let plans = short
        .get_possible_flights(&port("A"), &port("B"), ts(T0), ts(T0 + 3600), &vec![parked_at("v1", "A")], &vec![])
        .unwrap();
    assert_eq!(plans[0].scheduled_arrival.seconds, T0 + 21 * 60);
    let r = service.get_possible_flights(&port("A"), &port("B"), ts(T0), ts(T0 + 30 * 60), &vec![parked_at("v1", "A")], &vec![]);
    assert_eq!(r.err(), Some(RouterError::WindowTooSmall));
}

#[test]
fn init_from_vertiports_is_one_shot() {
    let t = vec![vec![0]];
    let site = vec![VertiportSite { id: "p".to_string(), latitude: 37_000_000, longitude: -122_000_000 }];
    let mut service = RouterService::new();
    assert!(service.init_router_from_vertiports(&site, &t, &t).is_ok());
    assert!(service.is_router_initialized());
    assert_eq!(service.init_router_from_vertiports(&site, &t, &t).err(), Some(RouterError::AlreadyInitialized));
    assert!(service.is_router_initialized());
}

#[test]
fn refused_tables_leave_sites_set_and_router_unset() {
    let bad = vec![vec![0, 1]];
    let site = vec![VertiportSite { id: "p".to_string(), latitude: 37_000_000, longitude: -122_000_000 }];
    let mut service = RouterService::new();
    assert_eq!(service.init_router_from_vertiports(&site, &bad, &bad).err(), Some(RouterError::InvalidArgument));
    assert!(!service.is_router_initialized());
    assert!(service.get_node_by_id(&"p".to_string()).is_ok());
    let t = vec![vec![0]];
    assert!(service.init_router(&t, &t).is_ok());
}

#[test]
fn node_lookup_finds_first_with_id() {
    let mut service = RouterService::new();
    service.set_nodes(vec![node("A", 1.0, 1.0), node("A", 2.0, 2.0)]).unwrap();
    assert_eq!(service.get_node_by_id(&"A".to_string()).unwrap().location.latitude, 1_000_000);
}

#[test]
fn algorithm_tags_agree() {
    let mut service = RouterService::new();
    let nodes = vec![node("a", 0.0, 0.0), node("b", 0.0, 0.1), node("c", 0.1, 0.0), node("d", 0.1, 0.1)];
    // Two equally cheap ways from a to d.
    let t = vec![vec![0, 5, 5, 100], vec![5, 0, 100, 5], vec![5, 100, 0, 5], vec![100, 5, 5, 0]];
    service.set_nodes(vec![node("a", 0.0, 0.0), node("b", 0.0, 0.1), node("c", 0.1, 0.0), node("d", 0.1, 0.1)]).unwrap();
    service.init_router(&t, &t).unwrap();
    let router = fleet_router::router::Router::new(&nodes, 7_500_000, &t, &t);
    let d = router.find_shortest_path(&nodes[0], &nodes[3], Algorithm::Dijkstra);
    let a = router.find_shortest_path(&nodes[0], &nodes[3], Algorithm::AStar);
    assert_eq!(d, a);
    assert_eq!(d.0, 10);
    let (locs, cost) = service.get_route(&RouteQuery { aircraft: Aircraft::Cargo, from: "a".to_string(), to: "d".to_string() }).unwrap();
    assert_eq!(cost, 10);
    let expected: Vec<Location> = d.1.iter().map(|v| nodes[*v].location).collect();
    assert_eq!(locs.len(), expected.len());
}
