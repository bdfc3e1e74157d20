use fleet_router::calendar::Calendar;
use fleet_router::feasibility::{
    estimate_flight_time_minutes, get_vehicle_scheduled_location, is_vehicle_available, is_vertiport_available,
    time_ranges_overlap, Aircraft, FlightPlan, PortRecord, Vehicle,
};

const T0: i64 = 1_700_000_000;

fn vehicle(id: &str, at: &str) -> Vehicle {
    Vehicle { id: id.to_string(), schedule: Calendar::always_available(), last_vertiport_id: at.to_string() }
}

fn port(id: &str) -> PortRecord {
    PortRecord { id: id.to_string(), schedule: Calendar::always_available() }
}

fn plan(vehicle: &str, from: &str, to: &str, dep: i64, arr: i64) -> FlightPlan {
    FlightPlan {
        vehicle_id: vehicle.to_string(),
        departure_vertiport_id: from.to_string(),
        destination_vertiport_id: to.to_string(),
        scheduled_departure: dep,
        scheduled_arrival: arr,
    }
}

#[test]
fn touching_ranges_do_not_overlap() {
    assert!(time_ranges_overlap(0, 10, 5, 15));
    assert!(!time_ranges_overlap(0, 10, 10, 20));
    assert!(!time_ranges_overlap(10, 20, 0, 10));
    assert!(time_ranges_overlap(0, 100, 10, 20));
}

#[test]
fn flight_time_is_loading_flight_and_unloading() {
    // 10 km at a kilometre a minute, plus 10 + 10 minutes.
    assert_eq!(estimate_flight_time_minutes(1_000_000, Aircraft::Cargo), 30);
    assert_eq!(estimate_flight_time_minutes(0, Aircraft::Cargo), 20);
    // A part minute of flight is dropped.
    assert_eq!(estimate_flight_time_minutes(1_000_001, Aircraft::Cargo), 30);
    assert_eq!(estimate_flight_time_minutes(1_099_999, Aircraft::Cargo), 30);
    assert_eq!(estimate_flight_time_minutes(150_000, Aircraft::Cargo), 21);
}

#[test]
fn vehicle_busy_with_overlapping_plan() {
    let v = vehicle("v1", "A");
    let plans = vec![plan("v1", "A", "B", T0 + 600, T0 + 1800), plan("v2", "A", "B", T0, T0 + 3600)];
    assert!(!is_vehicle_available(&v, T0, 30, &plans));
    assert!(is_vehicle_available(&v, T0 + 1800, 30, &plans));
    assert!(is_vehicle_available(&v, T0 - 600, 10, &plans));
}

#[test]
fn vehicle_schedule_is_consulted() {
    let mut v = vehicle("v1", "A");
    v.schedule = Calendar::parse("DTSTART:20231114T000000Z;DURATION:PT1H\nRRULE:FREQ=DAILY").unwrap();
    // 2023-11-14T22:13:20Z is T0; the daily hour from midnight is not near it.
    assert!(!is_vehicle_available(&v, T0, 30, &vec![]));
}

#[test]
fn departure_guard_band() {
    let p = port("A");
    let plans = vec![plan("v9", "A", "B", T0, T0 + 1800)];
    // Within one block (10 min) before or after the block [t, t + 10 min).
    assert!(!is_vertiport_available(&p, T0 - 1199, &plans, true));
    assert!(is_vertiport_available(&p, T0 - 1200, &plans, true));
    assert!(!is_vertiport_available(&p, T0 + 599, &plans, true));
    assert!(is_vertiport_available(&p, T0 + 600, &plans, true));
    // Arrivals at the site are another role.
    assert!(is_vertiport_available(&p, T0, &plans, false));
    assert!(is_vertiport_available(&port("C"), T0, &plans, true));
}

#[test]
fn arrival_guard_band() {
    let p = port("B");
    let plans = vec![plan("v9", "A", "B", T0, T0 + 1800)];
    assert!(!is_vertiport_available(&p, T0 + 1800, &plans, false));
    assert!(is_vertiport_available(&p, T0 + 2400, &plans, false));
    assert!(is_vertiport_available(&p, T0 + 1800, &plans, true));
}

#[test]
fn scheduled_location_follows_latest_plan() {
    let v = vehicle("v1", "HOME");
    let plans = vec![
        plan("v1", "HOME", "A", T0, T0 + 600),
        plan("v1", "A", "B", T0 + 1200, T0 + 3000),
        plan("v2", "X", "Y", T0 + 1500, T0 + 9000),
        plan("v1", "B", "C", T0 + 99_999, T0 + 100_000),
    ];
    assert_eq!(get_vehicle_scheduled_location(&v, T0 - 1, &plans), ("HOME".to_string(), 0));
    assert_eq!(get_vehicle_scheduled_location(&v, T0 + 300, &plans), ("A".to_string(), 5));
    assert_eq!(get_vehicle_scheduled_location(&v, T0 + 900, &plans), ("A".to_string(), 0));
    assert_eq!(get_vehicle_scheduled_location(&v, T0 + 1800, &plans), ("B".to_string(), 20));
    assert_eq!(get_vehicle_scheduled_location(&v, T0 + 5000, &plans), ("B".to_string(), 0));
}

#[test]
fn scheduled_location_ties_go_to_first_listed() {
    let v = vehicle("v1", "HOME");
    let plans = vec![plan("v1", "HOME", "A", T0, T0 + 600), plan("v1", "HOME", "B", T0, T0 + 600)];
    assert_eq!(get_vehicle_scheduled_location(&v, T0 + 700, &plans).0, "A");
}

#[test]
fn instants_before_1970_are_checked() {
    let v = vehicle("v1", "A");
    let early = -2_000_000_000;
    let plans = vec![plan("v1", "A", "B", early + 600, early + 1800)];
    assert!(!is_vehicle_available(&v, early, 30, &plans));
    assert!(is_vehicle_available(&v, early + 1800, 30, &plans));
    assert!(!is_vertiport_available(&port("A"), early + 300, &plans, true));
    assert!(is_vertiport_available(&port("A"), early + 1200, &plans, true));
}

#[test]
fn touching_plans_do_not_block_the_vehicle() {
    let v = vehicle("v1", "A");
    let plans = vec![plan("v1", "A", "B", T0 - 1800, T0), plan("v1", "B", "A", T0 + 1800, T0 + 3600)];
    assert!(is_vehicle_available(&v, T0, 30, &plans));
}
