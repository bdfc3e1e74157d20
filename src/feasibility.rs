//! Temporal feasibility: when sites and vehicles are free, and where a
//! vehicle will be.

use vstd::prelude::*;
use crate::calendar::{available, Calendar};

verus! {

/// Seconds a departure site is blocked for loading and take-off.
pub const LOADING_AND_TAKEOFF_SECS: i64 = 600;
/// Seconds an arrival site is blocked for landing and unloading.
pub const LANDING_AND_UNLOADING_SECS: i64 = 600;
/// Minutes a departure site is blocked for loading and take-off.
pub const LOADING_AND_TAKEOFF_TIME_MIN: u64 = 10;
/// Minutes an arrival site is blocked for landing and unloading.
pub const LANDING_AND_UNLOADING_TIME_MIN: u64 = 10;
/// Average speed of a cargo aircraft, in kilometres per hour.
pub const AVG_SPEED_KMH: u64 = 60;

/// The aircraft types served.
#[derive(Debug, Clone, Copy, PartialEq, Eq, Structural)]
pub enum Aircraft {
    /// Cargo aircraft.
    Cargo,
}

/// An instant: whole seconds since the Unix epoch and the nanoseconds past
/// them.
#[derive(Debug, Clone, Copy, PartialEq, Eq, Structural)]
pub struct Timestamp {
    pub seconds: i64,
    pub nanos: i32,
}

/// A vertiport as the planner sees it: its id and availability calendar.
pub struct PortRecord {
    pub id: String,
    pub schedule: Calendar,
}

/// A vehicle: its id, availability calendar and the vertiport it was last
/// parked at.
pub struct Vehicle {
    pub id: String,
    pub schedule: Calendar,
    pub last_vertiport_id: String,
}

/// An existing flight plan, as far as the planner reads it.
pub struct FlightPlan {
    pub vehicle_id: String,
    pub departure_vertiport_id: String,
    pub destination_vertiport_id: String,
    /// Scheduled departure, in seconds since the epoch.
    pub scheduled_departure: i64,
    /// Scheduled arrival, in seconds since the epoch.
    pub scheduled_arrival: i64,
}

/// The intervals `[start1, end1)` and `[start2, end2)` overlap; touching
/// intervals do not.
pub open spec fn overlaps(start1: int, end1: int, start2: int, end2: int) -> bool {
    start1 < end2 && start2 < end1
}

/// Whether two time ranges overlap (touching ranges do not). All values
/// are seconds since the epoch.
pub fn time_ranges_overlap(start1: i64, end1: i64, start2: i64, end2: i64) -> (r: bool)
    ensures
        r == overlaps(start1 as int, end1 as int, start2 as int, end2 as int),
{
    start1 < end2 && start2 < end1
}

/// No plan of vehicle `vid` overlaps `[from, to)`.
pub open spec fn vehicle_free(plans: Seq<FlightPlan>, vid: Seq<char>, from: int, to: int) -> bool {
    forall|k: int| 0 <= k < plans.len() && (#[trigger] plans[k]).vehicle_id@ == vid ==> !overlaps(
        plans[k].scheduled_departure as int,
        plans[k].scheduled_arrival as int,
        from,
        to,
    )
}

/// The vehicle's calendar covers `[from, to)` and none of its plans
/// overlaps it.
pub open spec fn vehicle_available(v: &Vehicle, from: int, to: int, plans: Seq<FlightPlan>) -> bool {
    available(v.schedule@, from, to) && vehicle_free(plans, v.id@, from, to)
}

/// Checks whether a vehicle is available from `date_from` for
/// `flight_duration_minutes`, take-off and landing included: by its
/// calendar, and by the existing plans, none of which may overlap.
pub fn is_vehicle_available(
    vehicle: &Vehicle,
    date_from: i64,
    flight_duration_minutes: i64,
    existing_flight_plans: &Vec<FlightPlan>,
) -> (r: bool)
    requires
        i64::MIN <= date_from + flight_duration_minutes * 60 <= i64::MAX,
    ensures
        r == vehicle_available(vehicle, date_from as int, date_from + flight_duration_minutes * 60, existing_flight_plans@),
{
    let date_to = (date_from as i128 + flight_duration_minutes as i128 * 60) as i64;
    if !vehicle.schedule.is_available_between(date_from, date_to) {
        return false;
    }
    let mut k: usize = 0;
    while k < existing_flight_plans.len()
        invariant
            0 <= k <= existing_flight_plans@.len(),
            date_to == date_from + flight_duration_minutes * 60,
            forall|j: int| 0 <= j < k && (#[trigger] existing_flight_plans@[j]).vehicle_id@ == vehicle.id@ ==> !overlaps(
                existing_flight_plans@[j].scheduled_departure as int,
                existing_flight_plans@[j].scheduled_arrival as int,
                date_from as int,
                date_to as int,
            ),
        decreases existing_flight_plans@.len() - k,
    {
        let p = &existing_flight_plans[k];
        if p.vehicle_id == vehicle.id && time_ranges_overlap(p.scheduled_departure, p.scheduled_arrival, date_from, date_to) {
            return false;
        }
        k = k + 1;
    }
    true
}

/// Seconds a site is blocked in its role.
pub open spec fn block_secs(is_departure: bool) -> int {
    if is_departure { LOADING_AND_TAKEOFF_SECS as int } else { LANDING_AND_UNLOADING_SECS as int }
}

/// The time a plan occupies a site in the role: its departure at the
/// departure site, its arrival at the arrival site.
pub open spec fn role_time(p: FlightPlan, is_departure: bool) -> int {
    if is_departure { p.scheduled_departure as int } else { p.scheduled_arrival as int }
}

/// The site of a plan in the role.
pub open spec fn role_site(p: FlightPlan, is_departure: bool) -> Seq<char> {
    if is_departure { p.departure_vertiport_id@ } else { p.destination_vertiport_id@ }
}

/// No plan uses site `id` in the role at a time within one block of the
/// block `[from, from + block)`: the guard band around the block.
pub open spec fn guard_band_clear(plans: Seq<FlightPlan>, id: Seq<char>, from: int, is_departure: bool) -> bool {
    let block = block_secs(is_departure);
    forall|k: int| 0 <= k < plans.len() && role_site(#[trigger] plans[k], is_departure) == id ==> !(from - block
        < role_time(plans[k], is_departure) < from + block + block)
}

/// The site's calendar covers its block from `from` and the guard band
/// around it is clear.
pub open spec fn port_available(port: &PortRecord, from: int, plans: Seq<FlightPlan>, is_departure: bool) -> bool {
    available(port.schedule@, from, from + block_secs(is_departure)) && guard_band_clear(plans, port.id@, from, is_departure)
}

/// Checks whether a vertiport can take a departure (or an arrival) whose
/// block starts at `date_from`: by its calendar over the block, and by the
/// existing plans, none of which may use it in the same role within one
/// block of the block.
pub fn is_vertiport_available(
    vertiport: &PortRecord,
    date_from: i64,
    existing_flight_plans: &Vec<FlightPlan>,
    is_departure_vertiport: bool,
) -> (r: bool)
    requires
        date_from <= i64::MAX - LOADING_AND_TAKEOFF_SECS,
    ensures
        r == port_available(vertiport, date_from as int, existing_flight_plans@, is_departure_vertiport),
{
    let block: i64 = if is_departure_vertiport { LOADING_AND_TAKEOFF_SECS } else { LANDING_AND_UNLOADING_SECS };
    let date_to = date_from + block;
    if !vertiport.schedule.is_available_between(date_from, date_to) {
        return false;
    }
    let mut k: usize = 0;
    while k < existing_flight_plans.len()
        invariant
            0 <= k <= existing_flight_plans@.len(),
            block == block_secs(is_departure_vertiport),
            date_to == date_from + block,
            date_from <= i64::MAX - LOADING_AND_TAKEOFF_SECS,
            forall|j: int| 0 <= j < k && role_site(#[trigger] existing_flight_plans@[j], is_departure_vertiport)
                == vertiport.id@ ==> !(date_from - block < role_time(existing_flight_plans@[j], is_departure_vertiport)
                < date_to + block),
        decreases existing_flight_plans@.len() - k,
    {
        let p = &existing_flight_plans[k];
        let conflict = if is_departure_vertiport {
            p.departure_vertiport_id == vertiport.id && p.scheduled_departure as i128 > date_from as i128 - block as i128
                && (p.scheduled_departure as i128) < date_to as i128 + block as i128
        } else {
            p.destination_vertiport_id == vertiport.id && p.scheduled_arrival as i128 > date_from as i128 - block as i128
                && (p.scheduled_arrival as i128) < date_to as i128 + block as i128
        };
        if conflict {
            return false;
        }
        k = k + 1;
    }
    true
}

/// Plan `p` is one of vehicle `vid`'s, departing no later than `t`.
pub open spec fn departed_by(p: FlightPlan, vid: Seq<char>, t: int) -> bool {
    p.vehicle_id@ == vid && p.scheduled_departure <= t
}

/// Plan `k` is the vehicle's latest departed by `t`, the first such in list
/// order among equal departures.
pub open spec fn latest_departed(plans: Seq<FlightPlan>, vid: Seq<char>, t: int, k: int) -> bool {
    &&& 0 <= k < plans.len()
    &&& departed_by(plans[k], vid, t)
    &&& forall|j: int| 0 <= j < plans.len() && departed_by(#[trigger] plans[j], vid, t) ==> plans[j].scheduled_departure
        <= plans[k].scheduled_departure
    &&& forall|j: int| 0 <= j < k && departed_by(#[trigger] plans[j], vid, t) ==> plans[j].scheduled_departure
        < plans[k].scheduled_departure
}

/// Whole minutes from `t` until `arrival`, none once it has passed, and at
/// most `u32::MAX`.
pub open spec fn minutes_until(arrival: int, t: int) -> int {
    if arrival <= t {
        0
    } else if (arrival - t) / 60 > u32::MAX {
        u32::MAX as int
    } else {
        (arrival - t) / 60
    }
}

/// Where vehicle `v` is at `t`: the destination of its latest plan
/// departed by then and the minutes until it lands there, or its last
/// vertiport and 0 when it has departed on no plan.
pub open spec fn location_at(v: &Vehicle, t: int, plans: Seq<FlightPlan>) -> (Seq<char>, int) {
    if exists|k: int| #[trigger] latest_departed(plans, v.id@, t, k) {
        let k = choose|k: int| #[trigger] latest_departed(plans, v.id@, t, k);
        (plans[k].destination_vertiport_id@, minutes_until(plans[k].scheduled_arrival as int, t))
    } else {
        (v.last_vertiport_id@, 0)
    }
}

/// At most one plan is the latest departed.
proof fn lemma_latest_unique(plans: Seq<FlightPlan>, vid: Seq<char>, t: int, k1: int, k2: int)
    requires
        latest_departed(plans, vid, t, k1),
        latest_departed(plans, vid, t, k2),
    ensures
        k1 == k2,
{
    if k1 < k2 {
        assert(departed_by(plans[k1], vid, t));
    } else if k2 < k1 {
        assert(departed_by(plans[k2], vid, t));
    }
}

/// Gets the vertiport a vehicle is at, or flying to, at `timestamp`, with
/// the minutes until it lands there (0: it is parked there).
pub fn get_vehicle_scheduled_location(vehicle: &Vehicle, timestamp: i64, existing_flight_plans: &Vec<FlightPlan>) -> (r: (String, u32))
    ensures
        (r.0@, r.1 as int) == location_at(vehicle, timestamp as int, existing_flight_plans@),
{
    let mut best: Option<usize> = None;
    let mut k: usize = 0;
    while k < existing_flight_plans.len()
        invariant
            0 <= k <= existing_flight_plans@.len(),
            match best {
                None => forall|j: int| 0 <= j < k ==> !#[trigger] departed_by(existing_flight_plans@[j], vehicle.id@, timestamp as int),
                Some(b) => b < k && latest_departed(existing_flight_plans@.subrange(0, k as int), vehicle.id@, timestamp as int, b as int),
            },
        decreases existing_flight_plans@.len() - k,
    {
        let p = &existing_flight_plans[k];
        let ghost plans = existing_flight_plans@;
        if p.vehicle_id == vehicle.id && p.scheduled_departure <= timestamp {
            match best {
                None => {
                    best = Some(k);
                },
                Some(b) => {
                    if p.scheduled_departure > existing_flight_plans[b].scheduled_departure {
                        best = Some(k);
                    }
                },
            }
        }
        proof {
            let pre = plans.subrange(0, k as int);
            let cur = plans.subrange(0, k as int + 1);
            assert forall|j: int| 0 <= j < k implies #[trigger] cur[j] == pre[j] by {}
            assert(cur[k as int] == plans[k as int]);
        }
        k = k + 1;
    }
    proof {
        assert(existing_flight_plans@.subrange(0, k as int) =~= existing_flight_plans@);
    }
    match best {
        None => {
            proof {
                if exists|k: int| #[trigger] latest_departed(existing_flight_plans@, vehicle.id@, timestamp as int, k) {
                    let k = choose|k: int| #[trigger] latest_departed(existing_flight_plans@, vehicle.id@, timestamp as int, k);
                    assert(departed_by(existing_flight_plans@[k], vehicle.id@, timestamp as int));
                }
            }
            (vehicle.last_vertiport_id.clone(), 0)
        },
        Some(b) => {
            let p = &existing_flight_plans[b];
            let minutes: u32 = if p.scheduled_arrival <= timestamp {
                0
            } else {
                let m: i128 = (p.scheduled_arrival as i128 - timestamp as i128) / 60;
                if m > u32::MAX as i128 { u32::MAX } else { m as u32 }
            };
            proof {
                assert(departed_by(existing_flight_plans@[b as int], vehicle.id@, timestamp as int));
                assert(latest_departed(existing_flight_plans@, vehicle.id@, timestamp as int, b as int));
                let k = choose|k: int| #[trigger] latest_departed(existing_flight_plans@, vehicle.id@, timestamp as int, k);
                lemma_latest_unique(existing_flight_plans@, vehicle.id@, timestamp as int, k, b as int);
            }
            (p.destination_vertiport_id.clone(), minutes)
        },
    }
}

/// Estimated block time of a flight of `distance_cm` centimetres, in whole
/// minutes, the part minute of flight dropped: loading and take-off, the
/// flight at the average speed (a kilometre a minute), landing and
/// unloading.
pub fn estimate_flight_time_minutes(distance_cm: u64, aircraft: Aircraft) -> (r: u64)
    ensures
        r == LOADING_AND_TAKEOFF_TIME_MIN + distance_cm / 100_000 + LANDING_AND_UNLOADING_TIME_MIN,
{
    match aircraft {
        Aircraft::Cargo => {
            let per_minute: u64 = AVG_SPEED_KMH * 100_000 / 60;
            assert(per_minute == 100_000);
            let flight: u64 = distance_cm / per_minute;
            LOADING_AND_TAKEOFF_TIME_MIN + flight + LANDING_AND_UNLOADING_TIME_MIN
        },
    }
}

} // verus!
