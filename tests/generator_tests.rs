use fleet_router::generator::{generate_location, generate_nodes, generate_random_node};
use fleet_router::status::Status;

#[test]
fn test_valid_coordinates() {
    let location = generate_location();
    assert!(location.latitude >= -90_000_000);
    assert!(location.latitude <= 90_000_000);
    assert!(location.longitude >= -180_000_000);
    assert!(location.longitude <= 180_000_000);
    assert!(location.altitude_meters >= 0);
    assert!(location.altitude_meters <= 10000);
}

#[test]
fn test_generate_random_nodes() {
    let node = generate_nodes(100);
    assert_eq!(node.len(), 100);
}

#[test]
fn negative_capacity_generates_nothing() {
    assert_eq!(generate_nodes(-3).len(), 0);
    assert_eq!(generate_nodes(0).len(), 0);
}

#[test]
fn random_node_has_fresh_uuid() {
    let a = generate_random_node();
    let b = generate_random_node();
    assert_eq!(a.uid.len(), 36);
    assert_ne!(a.uid, b.uid);
    assert_eq!(a.status, Status::Open);
    assert!(a.forward_to.is_none());
}
