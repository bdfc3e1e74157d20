use fleet_router::location::Location;
use fleet_router::node::{AsNode, Node, Vertipad, Vertiport};
use fleet_router::status::Status;

fn node(uid: &str) -> Node {
    Node {
        uid: uid.to_string(),
        location: Location { longitude: -73_935_242, latitude: 40_730_610, altitude_meters: 0 },
        forward_to: None,
        status: Status::Open,
    }
}

fn pad(uid: &str, permission: &str) -> Vertipad {
    Vertipad {
        node: node(uid),
        size_square_meters: 100,
        permissions: vec![permission.to_string()],
        owner_port: None,
    }
}

#[test]
fn test_mutability() {
    let mut vertipad_1 = pad("vertipad_1", "medical");
    let vertipad_2 = pad("vertipad_2", "medical");
    let vertipad_3 = pad("vertipad_3", "medical");
    let mut vertiport = Vertiport { node: node("vertiport_1"), vertipads: vec![] };
    let vertipad_4 = pad("vertipad_4", "medical");
    vertiport.add_vertipad(&vertipad_1);
    vertiport.add_vertipad(&vertipad_2);
    vertiport.add_vertipad(&vertipad_3);
    vertiport.add_vertipad(&vertipad_4);

    assert_eq!(vertiport.vertipads.len(), 4);
    assert_eq!(vertiport.vertipads[0], "vertipad_1".to_string());
    assert_eq!(vertiport.vertipads[1], "vertipad_2".to_string());
    assert_eq!(vertiport.vertipads[2], "vertipad_3".to_string());
    assert_eq!(vertiport.vertipads[3], "vertipad_4".to_string());

    let new_pad_size = 200;
    vertipad_1.update_size_square_meters(new_pad_size);
    assert_eq!(vertipad_1.size_square_meters, new_pad_size);
}

#[test]
fn test_get_node_props_from_vertipad() {
    let vertipad = pad("vertipad_1", "public");
    assert_eq!(vertipad.get_uid(), "vertipad_1");
}

#[test]
fn vertiport_projects_onto_its_node() {
    let vertiport = Vertiport { node: node("vertiport_9"), vertipads: vec![] };
    assert_eq!(vertiport.as_node().uid, "vertiport_9");
    assert_eq!(vertiport.get_uid(), "vertiport_9");
    assert_eq!(vertiport.as_node().status, Status::Open);
}

#[test]
fn location_range_is_checked() {
    assert!(Location::new(90_000_000, -180_000_000, 0).is_some());
    assert!(Location::new(90_000_001, 0, 0).is_none());
    assert!(Location::new(0, 180_000_001, 0).is_none());
    assert!(Location::new(-90_000_001, 0, 0).is_none());
    let l = Location::new(37_774_900, -122_419_400, 5).unwrap();
    assert_eq!(l.latitude, 37_774_900);
    assert_eq!(l.altitude_meters, 5);
}
