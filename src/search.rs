//! The flight-plan search over the candidate departures of a time window.

use vstd::prelude::*;
use crate::feasibility::{
    guard_band_clear,
    get_vehicle_scheduled_location, is_vehicle_available, is_vertiport_available, location_at, port_available,
    vehicle_available, FlightPlan, PortRecord, Timestamp, Vehicle, LANDING_AND_UNLOADING_SECS,
};

verus! {

/// Seconds between two candidate departures.
pub const FLIGHT_PLAN_GAP_SECS: i64 = 300;
/// Minutes between two candidate departures.
pub const FLIGHT_PLAN_GAP_MINUTES: i64 = 5;
/// Most flight plans a search returns.
pub const MAX_RETURNED_FLIGHT_PLANS: i64 = 10;

/// A draft flight plan.
pub struct FlightPlanData {
    pub vehicle_id: String,
    pub departure_vertiport_id: String,
    pub destination_vertiport_id: String,
    pub scheduled_departure: Timestamp,
    pub scheduled_arrival: Timestamp,
}

/// A draft flight plan as mathematical values.
pub struct DraftView {
    pub vehicle_id: Seq<char>,
    pub departure_vertiport_id: Seq<char>,
    pub destination_vertiport_id: Seq<char>,
    pub scheduled_departure: Timestamp,
    pub scheduled_arrival: Timestamp,
}

impl View for FlightPlanData {
    type V = DraftView;

    open spec fn view(&self) -> DraftView {
        DraftView {
            vehicle_id: self.vehicle_id@,
            departure_vertiport_id: self.departure_vertiport_id@,
            destination_vertiport_id: self.destination_vertiport_id@,
            scheduled_departure: self.scheduled_departure,
            scheduled_arrival: self.scheduled_arrival,
        }
    }
}

/// The views of a list of draft plans.
pub open spec fn draft_views(v: Seq<FlightPlanData>) -> Seq<DraftView> {
    v.map_values(|d: FlightPlanData| d@)
}

/// Builds a draft plan for a vehicle between two vertiports.
pub fn create_flight_plan_data(
    vehicle: &Vehicle,
    departure_vertiport: &PortRecord,
    arrival_vertiport: &PortRecord,
    departure_time: Timestamp,
    arrival_time: Timestamp,
) -> (r: FlightPlanData)
    ensures
        r@ == (DraftView {
            vehicle_id: vehicle.id@,
            departure_vertiport_id: departure_vertiport.id@,
            destination_vertiport_id: arrival_vertiport.id@,
            scheduled_departure: departure_time,
            scheduled_arrival: arrival_time,
        }),
{
    FlightPlanData {
        vehicle_id: vehicle.id.clone(),
        departure_vertiport_id: departure_vertiport.id.clone(),
        destination_vertiport_id: arrival_vertiport.id.clone(),
        scheduled_departure: departure_time,
        scheduled_arrival: arrival_time,
    }
}

/// Block time in whole minutes, rounded down, of a flight of `distance_cm`
/// centimetres, as the vehicle and the arrival are scheduled.
pub open spec fn block_minutes(distance_cm: int) -> int {
    20 + distance_cm / 100_000
}

/// The number of candidate departures in a window of `window_minutes` for
/// a flight of `distance_cm` centimetres, whose exact block is
/// `20 + distance_cm / 100000` minutes (before rounding): `None` when the block does not fit,
/// else one per gap the slack holds plus one, at most
/// [`MAX_RETURNED_FLIGHT_PLANS`].
pub open spec fn slot_count(window_minutes: int, distance_cm: int) -> Option<int> {
    let slack = window_minutes * 100_000 - 2_000_000 - distance_cm;
    if slack < 0 {
        None
    } else if slack / 500_000 + 1 > MAX_RETURNED_FLIGHT_PLANS {
        Some(MAX_RETURNED_FLIGHT_PLANS as int)
    } else {
        Some(slack / 500_000 + 1)
    }
}

/// Computes [`slot_count`].
pub fn flight_options(window_minutes: i64, distance_cm: i64) -> (r: Option<i64>)
    requires
        0 <= distance_cm <= 0x1_0000_0000_0000,
        -1 <= window_minutes,
    ensures
        match slot_count(window_minutes as int, distance_cm as int) {
            None => r is None,
            Some(n) => r == Some(n as i64),
        },
{
    let slack: i128 = window_minutes as i128 * 100_000 - 2_000_000 - distance_cm as i128;
    if slack < 0 {
        None
    } else if slack / 500_000 + 1 > MAX_RETURNED_FLIGHT_PLANS as i128 {
        Some(MAX_RETURNED_FLIGHT_PLANS)
    } else {
        Some((slack / 500_000 + 1) as i64)
    }
}

/// The departure of candidate `i`.
pub open spec fn slot_departure(earliest: Timestamp, i: int) -> int {
    earliest.seconds + i * FLIGHT_PLAN_GAP_SECS
}

/// Vehicle `v` is parked at the departure site at `t` and free for
/// `minutes` from then.
pub open spec fn vehicle_fits(v: Vehicle, depart_id: Seq<char>, t: int, minutes: int, plans: Seq<FlightPlan>) -> bool {
    location_at(&v, t, plans) == (depart_id, 0int) && vehicle_available(&v, t, t + minutes * 60, plans)
}

/// The first of the first `j` vehicles that fits.
pub open spec fn first_fit(vehicles: Seq<Vehicle>, j: int, depart_id: Seq<char>, t: int, minutes: int, plans: Seq<FlightPlan>) -> Option<int>
    decreases j,
{
    if j <= 0 {
        None
    } else {
        match first_fit(vehicles, j - 1, depart_id, t, minutes, plans) {
            Some(k) => Some(k),
            None => if vehicle_fits(vehicles[j - 1], depart_id, t, minutes, plans) {
                Some(j - 1)
            } else {
                None
            },
        }
    }
}

/// The draft plan of candidate `i`, if both sites are free at their ends of
/// the flight and a vehicle fits.
pub open spec fn slot_plan(
    depart: PortRecord,
    arrive: PortRecord,
    earliest: Timestamp,
    minutes: int,
    vehicles: Seq<Vehicle>,
    plans: Seq<FlightPlan>,
    i: int,
) -> Option<DraftView> {
    let t_d = slot_departure(earliest, i);
    let t_a = t_d + minutes * 60;
    if port_available(&depart, t_d, plans, true) && port_available(&arrive, t_a - LANDING_AND_UNLOADING_SECS, plans, false) {
        match first_fit(vehicles, vehicles.len() as int, depart.id@, t_d, minutes, plans) {
            Some(k) => Some(DraftView {
                vehicle_id: vehicles[k].id@,
                departure_vertiport_id: depart.id@,
                destination_vertiport_id: arrive.id@,
                scheduled_departure: Timestamp { seconds: t_d as i64, nanos: earliest.nanos },
                scheduled_arrival: Timestamp { seconds: t_a as i64, nanos: earliest.nanos },
            }),
            None => None,
        }
    } else {
        None
    }
}

/// The draft plans of the first `n` candidates, in order.
pub open spec fn planned(
    depart: PortRecord,
    arrive: PortRecord,
    earliest: Timestamp,
    minutes: int,
    vehicles: Seq<Vehicle>,
    plans: Seq<FlightPlan>,
    n: int,
) -> Seq<DraftView>
    decreases n,
{
    if n <= 0 {
        Seq::empty()
    } else {
        let prev = planned(depart, arrive, earliest, minutes, vehicles, plans, n - 1);
        match slot_plan(depart, arrive, earliest, minutes, vehicles, plans, n - 1) {
            Some(d) => prev.push(d),
            None => prev,
        }
    }
}

proof fn lemma_first_fit_stable(
    vehicles: Seq<Vehicle>,
    j1: int,
    j2: int,
    depart_id: Seq<char>,
    t: int,
    minutes: int,
    plans: Seq<FlightPlan>,
)
    requires
        j1 <= j2,
        first_fit(vehicles, j1, depart_id, t, minutes, plans) is Some,
    ensures
        first_fit(vehicles, j2, depart_id, t, minutes, plans) == first_fit(vehicles, j1, depart_id, t, minutes, plans),
    decreases j2 - j1,
{
    if j1 < j2 {
        lemma_first_fit_stable(vehicles, j1, j2 - 1, depart_id, t, minutes, plans);
    }
}

/// Evaluates the first `n_slots` candidates in order and returns the draft
/// plans of those that are feasible.
pub fn plan_flights(
    vertiport_depart: &PortRecord,
    vertiport_arrive: &PortRecord,
    earliest: Timestamp,
    minutes: i64,
    n_slots: i64,
    vehicles: &Vec<Vehicle>,
    existing_flight_plans: &Vec<FlightPlan>,
) -> (r: Vec<FlightPlanData>)
    requires
        0 <= n_slots <= MAX_RETURNED_FLIGHT_PLANS,
        20 <= minutes,
        n_slots > 0 ==> earliest.seconds + (n_slots - 1) * FLIGHT_PLAN_GAP_SECS + minutes * 60 <= i64::MAX,
    ensures
        draft_views(r@) == planned(*vertiport_depart, *vertiport_arrive, earliest, minutes as int, vehicles@,
            existing_flight_plans@, n_slots as int),
{
    let mut out: Vec<FlightPlanData> = Vec::new();
    let mut i: i64 = 0;
    while i < n_slots
        invariant
            0 <= i <= n_slots <= MAX_RETURNED_FLIGHT_PLANS,
            20 <= minutes,
            n_slots > 0 ==> earliest.seconds + (n_slots - 1) * FLIGHT_PLAN_GAP_SECS + minutes * 60 <= i64::MAX,
            draft_views(out@) == planned(*vertiport_depart, *vertiport_arrive, earliest, minutes as int, vehicles@,
                existing_flight_plans@, i as int),
        decreases n_slots - i,
    {
        let ghost before = draft_views(out@);
        proof {
            assert(i * FLIGHT_PLAN_GAP_SECS <= (n_slots - 1) * FLIGHT_PLAN_GAP_SECS) by (nonlinear_arith)
                requires i <= n_slots - 1;
            assert(0 <= i * FLIGHT_PLAN_GAP_SECS) by (nonlinear_arith)
                requires 0 <= i;
        }
        let departure = earliest.seconds + i * FLIGHT_PLAN_GAP_SECS;
        assert(departure + minutes * 60 <= earliest.seconds + (n_slots - 1) * FLIGHT_PLAN_GAP_SECS + minutes * 60);
        let arrival = (departure as i128 + minutes as i128 * 60) as i64;
        let depart_ok = is_vertiport_available(vertiport_depart, departure, existing_flight_plans, true);
        let arrive_ok = is_vertiport_available(vertiport_arrive, arrival - LANDING_AND_UNLOADING_SECS, existing_flight_plans, false);
        if depart_ok && arrive_ok {
            let mut found: Option<usize> = None;
            let mut j: usize = 0;
            while j < vehicles.len()
                invariant_except_break
                    found is None,
                    first_fit(vehicles@, j as int, vertiport_depart.id@, departure as int, minutes as int, existing_flight_plans@) is None,
                invariant
                    0 <= j <= vehicles@.len(),
                    departure + minutes * 60 <= i64::MAX,
                    20 <= minutes,
                ensures
                    found is None ==> first_fit(vehicles@, vehicles@.len() as int, vertiport_depart.id@, departure as int,
                        minutes as int, existing_flight_plans@) is None,
                    found matches Some(k) ==> k < vehicles@.len() && first_fit(vehicles@, vehicles@.len() as int,
                        vertiport_depart.id@, departure as int, minutes as int, existing_flight_plans@) == Some(k as int),
                decreases vehicles@.len() - j,
            {
                let vehicle = &vehicles[j];
                let (port, minutes_to_arrival) = get_vehicle_scheduled_location(vehicle, departure, existing_flight_plans);
                if port == vertiport_depart.id && minutes_to_arrival == 0 {
                    if is_vehicle_available(vehicle, departure, minutes, existing_flight_plans) {
                        found = Some(j);
                        proof {
                            assert(vehicle_fits(vehicles@[j as int], vertiport_depart.id@, departure as int, minutes as int, existing_flight_plans@));
                            assert(first_fit(vehicles@, j + 1, vertiport_depart.id@, departure as int, minutes as int, existing_flight_plans@) == Some(j as int));
                            lemma_first_fit_stable(vehicles@, j + 1, vehicles@.len() as int, vertiport_depart.id@, departure as int, minutes as int, existing_flight_plans@);
                        }
                        break;
                    }
                }
                j = j + 1;
            }
            match found {
                Some(k) => {
                    let d = create_flight_plan_data(
                        &vehicles[k],
                        vertiport_depart,
                        vertiport_arrive,
                        Timestamp { seconds: departure, nanos: earliest.nanos },
                        Timestamp { seconds: arrival, nanos: earliest.nanos },
                    );
                    out.push(d);
                    proof {
                        assert(draft_views(out@) =~= before.push(d@));
                    }
                },
                None => {},
            }
        }
        proof {
            let p = planned(*vertiport_depart, *vertiport_arrive, earliest, minutes as int, vehicles@, existing_flight_plans@, i + 1);
            assert(slot_departure(earliest, i as int) == departure);
        }
        i = i + 1;
    }
    out
}

/// The candidates of a window lie within the instants the planner handles.
pub open spec fn window_fits(earliest: Timestamp, minutes: int, n: int) -> bool {
    &&& 0 <= n <= MAX_RETURNED_FLIGHT_PLANS
    &&& 20 <= minutes
    &&& n > 0 ==> earliest.seconds + (n - 1) * FLIGHT_PLAN_GAP_SECS + minutes * 60 <= i64::MAX
}

/// Of the first `n` candidates no more plans come than candidates; their
/// departures lie on the grid of candidates, strictly increasing, and each
/// arrives one block after it departs; and no existing plan uses either
/// site in the same role within the guard band around its block.
pub proof fn law_planned(
    depart: PortRecord,
    arrive: PortRecord,
    earliest: Timestamp,
    minutes: int,
    vehicles: Seq<Vehicle>,
    plans: Seq<FlightPlan>,
    n: int,
)
    requires
        window_fits(earliest, minutes, n),
    ensures
        ({
            let p = planned(depart, arrive, earliest, minutes, vehicles, plans, n);
            &&& p.len() <= n
            &&& forall|k: int| 0 <= k < p.len() ==> exists|i: int| 0 <= i < n && (#[trigger] p[k]).scheduled_departure.seconds
                == slot_departure(earliest, i)
            &&& forall|a: int, b: int| 0 <= a < b < p.len() ==> (#[trigger] p[a]).scheduled_departure.seconds
                < (#[trigger] p[b]).scheduled_departure.seconds
            &&& forall|k: int| 0 <= k < p.len() ==> (#[trigger] p[k]).scheduled_arrival.seconds
                == p[k].scheduled_departure.seconds + minutes * 60
            &&& forall|k: int| 0 <= k < p.len() ==> guard_band_clear(plans, depart.id@, (#[trigger] p[k]).scheduled_departure.seconds as int, true)
                && guard_band_clear(plans, arrive.id@, p[k].scheduled_arrival.seconds - LANDING_AND_UNLOADING_SECS, false)
        }),
    decreases n,
{
    let p = planned(depart, arrive, earliest, minutes, vehicles, plans, n);
    if n > 0 {
        assert(window_fits(earliest, minutes, n - 1)) by {
            assert((n - 2) * FLIGHT_PLAN_GAP_SECS <= (n - 1) * FLIGHT_PLAN_GAP_SECS) by (nonlinear_arith)
                requires n >= 1;
        }
        law_planned(depart, arrive, earliest, minutes, vehicles, plans, n - 1);
        let prev = planned(depart, arrive, earliest, minutes, vehicles, plans, n - 1);
        assert(0 <= (n - 1) * FLIGHT_PLAN_GAP_SECS) by (nonlinear_arith)
            requires n >= 1;
        match slot_plan(depart, arrive, earliest, minutes, vehicles, plans, n - 1) {
            Some(d) => {
                assert(p == prev.push(d));
                let t = slot_departure(earliest, n - 1);
                assert(d.scheduled_departure.seconds == t);
                assert forall|k: int| 0 <= k < p.len() implies exists|i: int| 0 <= i < n && (#[trigger] p[k]).scheduled_departure.seconds
                    == slot_departure(earliest, i) by {
                    if k < prev.len() {
                        assert(p[k] == prev[k]);
                        let i = choose|i: int| 0 <= i < n - 1 && prev[k].scheduled_departure.seconds == slot_departure(earliest, i);
                        assert(0 <= i < n);
                    } else {
                        assert(p[k] == d);
                    }
                }
                assert forall|a: int, b: int| 0 <= a < b < p.len() implies (#[trigger] p[a]).scheduled_departure.seconds
                    < (#[trigger] p[b]).scheduled_departure.seconds by {
                    assert(p[a] == prev[a]);
                    if b < prev.len() {
                        assert(p[b] == prev[b]);
                    } else {
                        assert(p[b] == d);
                        let i = choose|i: int| 0 <= i < n - 1 && prev[a].scheduled_departure.seconds == slot_departure(earliest, i);
                        assert(i * FLIGHT_PLAN_GAP_SECS < (n - 1) * FLIGHT_PLAN_GAP_SECS) by (nonlinear_arith)
                            requires i < n - 1;
                    }
                }
                assert forall|k: int| 0 <= k < p.len() implies (#[trigger] p[k]).scheduled_arrival.seconds
                    == p[k].scheduled_departure.seconds + minutes * 60 && guard_band_clear(plans, depart.id@,
                    p[k].scheduled_departure.seconds as int, true) && guard_band_clear(plans, arrive.id@,
                    p[k].scheduled_arrival.seconds - LANDING_AND_UNLOADING_SECS, false) by {
                    if k < prev.len() {
                        assert(p[k] == prev[k]);
                    } else {
                        assert(p[k] == d);
                    }
                }
            },
            None => {
                assert(p == prev);
            },
        }
    }
}

} // verus!
