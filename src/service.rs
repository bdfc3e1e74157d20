//! The routing service: the active site set and its router, initialized
//! once, and the queries answered from them.

use vstd::prelude::*;
use crate::digraph::{reachable, MAX_ARC_WEIGHT, MAX_VERTICES};
use crate::error::RouterError;
use crate::feasibility::{guard_band_clear, LANDING_AND_UNLOADING_SECS, estimate_flight_time_minutes, Aircraft, FlightPlan, PortRecord, Timestamp, Vehicle};
use crate::graph::square_table;
use crate::location::Location;
use crate::node::Node;
use crate::router::{canonical_order, locations_of, ids_of, lemma_answer_unique, lemma_route_cost, route_cost, unique_ids, Algorithm, Router, RouterView};
use crate::search::{law_planned, slot_departure, window_fits, block_minutes, draft_views, flight_options, plan_flights, planned, slot_count, DraftView, FlightPlanData};
use crate::status::Status;

verus! {

/// Largest distance, in centimetres, a cargo aircraft flies in one hop.
pub const ARROW_CARGO_CONSTRAINT: u64 = 7_500_000;

/// A vertiport as the site catalogue supplies it: its id and position in
/// millionths of a degree.
pub struct VertiportSite {
    pub id: String,
    pub latitude: i64,
    pub longitude: i64,
}

/// A route request between two sites, given by id.
pub struct RouteQuery {
    pub aircraft: Aircraft,
    pub from: String,
    pub to: String,
}

/// The active site set and the router built from it. Each is set at most
/// once.
pub struct RouterService {
    nodes: Option<Vec<Node>>,
    router: Option<Router>,
}

/// What a service holds, as mathematical values.
pub struct ServiceView {
    pub nodes: Option<Seq<Node>>,
    pub router: Option<RouterView>,
}

impl View for RouterService {
    type V = ServiceView;

    closed spec fn view(&self) -> ServiceView {
        ServiceView {
            nodes: match self.nodes {
                Some(n) => Some(n@),
                None => None,
            },
            router: match self.router {
                Some(r) => Some(r@),
                None => None,
            },
        }
    }
}

impl ServiceView {
    /// A router is only ever built from the site set.
    pub open spec fn wf(self) -> bool {
        self.router matches Some(r) ==> {
            &&& self.nodes is Some
            &&& r.wf()
            &&& r.site_ids == ids_of(self.nodes->0)
        }
    }
}

/// The site set and the tables can make a router.
pub open spec fn tables_ok(ns: Seq<Node>, limits: Seq<Vec<u64>>, costs: Seq<Vec<u64>>) -> bool {
    &&& ns.len() <= MAX_VERTICES
    &&& unique_ids(ids_of(ns))
    &&& square_table(limits, ns.len() as int)
    &&& square_table(costs, ns.len() as int)
    &&& forall|i: int, j: int| 0 <= i < ns.len() && 0 <= j < ns.len() ==> #[trigger] costs[i]@[j] <= MAX_ARC_WEIGHT
}

/// `locs` and `c` are the locations along, and the cost of, the router's
/// answer to the query between the sites with ids `from` and `to`.
pub open spec fn route_result(v: RouterView, from: Seq<char>, to: Seq<char>, locs: Seq<Location>, c: i64) -> bool {
    let (c0, p) = v.route_answer(from, to);
    &&& c == c0
    &&& locs.len() == p.len()
    &&& forall|k: int| 0 <= k < p.len() ==> #[trigger] locs[k] == v.locations[v.site_of_vertex[p[k] as int] as int]
}

/// `v` is the router built by [`RouterService::init_router`] from the
/// site list `ns` and the tables.
pub open spec fn built_from(v: RouterView, ns: Seq<Node>, limits: Seq<Vec<u64>>, costs: Seq<Vec<u64>>) -> bool {
    &&& v.wf()
    &&& v.site_ids == ids_of(ns)
    &&& v.locations == locations_of(ns)
    &&& v.edges == crate::graph::table_edges(ns, limits, costs, ARROW_CARGO_CONSTRAINT, ns.len() as int)
    &&& v.site_of_vertex == canonical_order(v.edges, ns.len() as int)
}

/// The location of a catalogue vertiport: its coordinates at altitude 0.
pub open spec fn site_location(v: VertiportSite) -> Location {
    Location { latitude: v.latitude, longitude: v.longitude, altitude_meters: 0 }
}

/// Every catalogue vertiport has coordinates within range.
pub open spec fn sites_valid(vs: Seq<VertiportSite>) -> bool {
    forall|k: int| 0 <= k < vs.len() ==> site_location(#[trigger] vs[k]).wf()
}

/// The ids of the catalogue vertiports, in order.
pub open spec fn site_ids_of(vs: Seq<VertiportSite>) -> Seq<Seq<char>> {
    vs.map_values(|v: VertiportSite| v.id@)
}

/// `ns` are the catalogue vertiports as operating sites, in order.
pub open spec fn nodes_match(ns: Seq<Node>, vs: Seq<VertiportSite>) -> bool {
    &&& ns.len() == vs.len()
    &&& forall|k: int| 0 <= k < ns.len() ==> {
        &&& (#[trigger] ns[k]).uid@ == vs[k].id@
        &&& ns[k].location == site_location(vs[k])
        &&& ns[k].forward_to is None
        &&& ns[k].status == Status::Open
    }
}

/// The catalogue and the tables can make a router.
pub open spec fn site_tables_ok(vs: Seq<VertiportSite>, limits: Seq<Vec<u64>>, costs: Seq<Vec<u64>>) -> bool {
    &&& vs.len() <= MAX_VERTICES
    &&& unique_ids(site_ids_of(vs))
    &&& square_table(limits, vs.len() as int)
    &&& square_table(costs, vs.len() as int)
    &&& forall|i: int, j: int| 0 <= i < vs.len() && 0 <= j < vs.len() ==> #[trigger] costs[i]@[j] <= MAX_ARC_WEIGHT
}

/// The nanoseconds of an instant lie within its second.
pub open spec fn nanos_ok(t: Timestamp) -> bool {
    0 <= t.nanos < 1_000_000_000
}

/// The whole minutes from `e` to `l`; -1 when `l` comes first.
pub open spec fn window_minutes(e: Timestamp, l: Timestamp) -> int {
    if l.seconds < e.seconds { -1 } else { (l.seconds - e.seconds) / 60 }
}

/// The outcome a search owes: the first failure in order (a missing
/// instant, no router, an unknown site, no route, a window too small for
/// one block, nanoseconds out of range in the earliest departure, no
/// feasible candidate), else the draft plans of the feasible candidates in
/// order.
pub open spec fn search_outcome(
    sv: ServiceView,
    depart: PortRecord,
    arrive: PortRecord,
    earliest: Option<Timestamp>,
    latest: Option<Timestamp>,
    vehicles: Seq<Vehicle>,
    plans: Seq<FlightPlan>,
    r: Result<Seq<DraftView>, RouterError>,
) -> bool {
    if earliest is None || latest is None {
        r == Err::<Seq<DraftView>, RouterError>(RouterError::InvalidArgument)
    } else if sv.router is None {
        r == Err::<Seq<DraftView>, RouterError>(RouterError::NotReady)
    } else {
        let v = sv.router->0;
        if !v.knows(depart.id@) || !v.knows(arrive.id@) {
            r == Err::<Seq<DraftView>, RouterError>(RouterError::NotFound)
        } else if !reachable(v.arcs, v.vertex_of(depart.id@), v.vertex_of(arrive.id@)) {
            r == Err::<Seq<DraftView>, RouterError>(RouterError::Unroutable)
        } else {
            let c = route_cost(v, depart.id@, arrive.id@);
            match slot_count(window_minutes(earliest->0, latest->0), c) {
                None => r == Err::<Seq<DraftView>, RouterError>(RouterError::WindowTooSmall),
                Some(n) => if !nanos_ok(earliest->0) {
                    r == Err::<Seq<DraftView>, RouterError>(RouterError::InvalidArgument)
                } else {
                    let p = planned(depart, arrive, earliest->0, block_minutes(c), vehicles, plans, n);
                    if p.len() == 0 {
                        r == Err::<Seq<DraftView>, RouterError>(RouterError::NoFeasibleSlot)
                    } else {
                        r == Ok::<Seq<DraftView>, RouterError>(p)
                    }
                },
            }
        }
    }
}

/// A search result with its plans as views.
pub open spec fn outcome_view(r: Result<Vec<FlightPlanData>, RouterError>) -> Result<Seq<DraftView>, RouterError> {
    match r {
        Ok(v) => Ok(draft_views(v@)),
        Err(e) => Err(e),
    }
}

/// Whether the ids of the sites are distinct.
fn ids_distinct(nodes: &Vec<Node>) -> (r: bool)
    ensures
        r == unique_ids(ids_of(nodes@)),
{
    let n = nodes.len();
    let mut i: usize = 0;
    while i < n
        invariant
            n == nodes@.len(),
            0 <= i <= n,
            forall|a: int, b: int| 0 <= a < i && a < b < n ==> #[trigger] ids_of(nodes@)[a] != #[trigger] ids_of(nodes@)[b],
        decreases n - i,
    {
        let mut j: usize = i + 1;
        while j < n
            invariant
                n == nodes@.len(),
                0 <= i < n,
                i + 1 <= j <= n,
                forall|a: int, b: int| 0 <= a < i && a < b < n ==> #[trigger] ids_of(nodes@)[a] != #[trigger] ids_of(nodes@)[b],
                forall|b: int| i < b < j ==> ids_of(nodes@)[i as int] != #[trigger] ids_of(nodes@)[b],
            decreases n - j,
        {
            if nodes[i].uid == nodes[j].uid {
                proof {
                    assert(ids_of(nodes@)[i as int] == ids_of(nodes@)[j as int]);
                }
                return false;
            }
            j = j + 1;
        }
        i = i + 1;
    }
    true
}

/// Whether both tables are `n` by `n` and every cost is at most
/// [`MAX_ARC_WEIGHT`].
fn tables_valid(n: usize, limits: &Vec<Vec<u64>>, costs: &Vec<Vec<u64>>) -> (r: bool)
    ensures
        r == (square_table(limits@, n as int) && square_table(costs@, n as int) && forall|i: int, j: int|
            0 <= i < n && 0 <= j < n ==> #[trigger] costs@[i]@[j] <= MAX_ARC_WEIGHT),
{
    if limits.len() != n || costs.len() != n {
        return false;
    }
    let mut i: usize = 0;
    while i < n
        invariant
            n == limits@.len() && n == costs@.len(),
            0 <= i <= n,
            forall|k: int| 0 <= k < i ==> #[trigger] limits@[k]@.len() == n && costs@[k]@.len() == n,
            forall|a: int, b: int| 0 <= a < i && 0 <= b < n ==> #[trigger] costs@[a]@[b] <= MAX_ARC_WEIGHT,
        decreases n - i,
    {
        if limits[i].len() != n || costs[i].len() != n {
            return false;
        }
        let mut j: usize = 0;
        while j < n
            invariant
                n == limits@.len() && n == costs@.len(),
                0 <= i < n,
                costs@[i as int]@.len() == n,
                limits@[i as int]@.len() == n,
                forall|k: int| 0 <= k < i ==> #[trigger] limits@[k]@.len() == n && costs@[k]@.len() == n,
                forall|a: int, b: int| 0 <= a < i && 0 <= b < n ==> #[trigger] costs@[a]@[b] <= MAX_ARC_WEIGHT,
                0 <= j <= n,
                forall|b: int| 0 <= b < j ==> #[trigger] costs@[i as int]@[b] <= MAX_ARC_WEIGHT,
            decreases n - j,
        {
            if costs[i][j] > MAX_ARC_WEIGHT {
                return false;
            }
            j = j + 1;
        }
        proof {
            assert forall|k: int| 0 <= k < i + 1 implies #[trigger] limits@[k]@.len() == n && costs@[k]@.len() == n by {
                if k == i {
                    assert(limits@[i as int]@.len() == n);
                    assert(costs@[i as int]@.len() == n);
                }
            }
            assert forall|a: int, b: int| 0 <= a < i + 1 && 0 <= b < n implies #[trigger] costs@[a]@[b] <= MAX_ARC_WEIGHT by {
                if a == i {
                    assert(costs@[i as int]@[b] <= MAX_ARC_WEIGHT);
                }
            }
        }
        i = i + 1;
    }
    proof {
        assert(square_table(limits@, n as int));
        assert forall|k: int| 0 <= k < n implies #[trigger] costs@[k]@.len() == n by {
            assert(limits@[k]@.len() == n && costs@[k]@.len() == n);
        }
        assert(square_table(costs@, n as int));
    }
    true
}

impl RouterService {
    #[verifier::type_invariant]
    spec fn inv(&self) -> bool {
        self@.wf()
    }

    /// A service with no site set and no router.
    pub fn new() -> (r: RouterService)
        ensures
            r@.nodes is None,
            r@.router is None,
    {
        RouterService { nodes: None, router: None }
    }

    /// Sets the active site set, once.
    pub fn set_nodes(&mut self, nodes: Vec<Node>) -> (r: Result<(), RouterError>)
        ensures
            old(self)@.nodes is Some ==> r == Err::<(), RouterError>(RouterError::AlreadyInitialized) && final(self)@ == old(self)@,
            old(self)@.nodes is None ==> r is Ok && final(self)@.nodes == Some(nodes@) && final(self)@.router
                == old(self)@.router,
    {
        proof {
            use_type_invariant(&*self);
        }
        if self.nodes.is_some() {
            return Err(RouterError::AlreadyInitialized);
        }
        self.nodes = Some(nodes);
        Ok(())
    }

    /// Whether the router has been built.
    pub fn is_router_initialized(&self) -> (r: bool)
        ensures
            r == self@.router is Some,
    {
        self.router.is_some()
    }

    /// Builds the router for cargo aircraft from the site set, once: sites
    /// within [`ARROW_CARGO_CONSTRAINT`] of each other by `limits` are
    /// joined, weighted by `costs`.
    pub fn init_router(&mut self, limits: &Vec<Vec<u64>>, costs: &Vec<Vec<u64>>) -> (r: Result<(), RouterError>)
        ensures
            old(self)@.nodes is None ==> r == Err::<(), RouterError>(RouterError::NotReady),
            old(self)@.nodes is Some && old(self)@.router is Some ==> r == Err::<(), RouterError>(RouterError::AlreadyInitialized),
            old(self)@.nodes is Some && old(self)@.router is None && !tables_ok(old(self)@.nodes->0, limits@, costs@)
                ==> r == Err::<(), RouterError>(RouterError::InvalidArgument),
            old(self)@.nodes is Some && old(self)@.router is None && tables_ok(old(self)@.nodes->0, limits@, costs@)
                ==> r is Ok && final(self)@.router is Some && built_from(final(self)@.router->0, old(self)@.nodes->0, limits@,
                costs@),
            r is Err ==> final(self)@ == old(self)@,
            final(self)@.nodes == old(self)@.nodes,
    {
        proof {
            use_type_invariant(&*self);
        }
        let nodes = match &self.nodes {
            None => {
                return Err(RouterError::NotReady);
            },
            Some(ns) => ns,
        };
        if self.router.is_some() {
            return Err(RouterError::AlreadyInitialized);
        }
        if nodes.len() > MAX_VERTICES || !ids_distinct(nodes) || !tables_valid(nodes.len(), limits, costs) {
            return Err(RouterError::InvalidArgument);
        }
        let router = Router::new(nodes.as_slice(), ARROW_CARGO_CONSTRAINT, limits, costs);
        self.router = Some(router);
        Ok(())
    }

    /// Sets the site set from the vertiport catalogue (each an operating
    /// site at altitude 0) and builds the router, once.
    pub fn init_router_from_vertiports(
        &mut self,
        vertiports: &Vec<VertiportSite>,
        limits: &Vec<Vec<u64>>,
        costs: &Vec<Vec<u64>>,
    ) -> (r: Result<(), RouterError>)
        ensures
            old(self)@.nodes is Some ==> r == Err::<(), RouterError>(RouterError::AlreadyInitialized) && final(self)@ == old(self)@,
            old(self)@.nodes is None && !sites_valid(vertiports@) ==> r == Err::<(), RouterError>(RouterError::InvalidArgument)
                && final(self)@ == old(self)@,
            old(self)@.nodes is None && sites_valid(vertiports@) ==> final(self)@.nodes is Some && nodes_match(
                final(self)@.nodes->0, vertiports@),
            old(self)@.nodes is None && sites_valid(vertiports@) && !site_tables_ok(vertiports@, limits@, costs@) ==> r
                == Err::<(), RouterError>(RouterError::InvalidArgument) && final(self)@.router is None,
            old(self)@.nodes is None && sites_valid(vertiports@) && site_tables_ok(vertiports@, limits@, costs@) ==> r is Ok
                && final(self)@.router is Some && built_from(final(self)@.router->0, final(self)@.nodes->0, limits@, costs@),
    {
        proof {
            use_type_invariant(&*self);
        }
        if self.nodes.is_some() {
            return Err(RouterError::AlreadyInitialized);
        }
        let mut nodes: Vec<Node> = Vec::new();
        let mut k: usize = 0;
        while k < vertiports.len()
            invariant
                self@ == old(self)@,
                old(self)@.nodes is None,
                0 <= k <= vertiports@.len(),
                nodes@.len() == k,
                forall|j: int| 0 <= j < k ==> {
                    &&& (#[trigger] nodes@[j]).uid@ == vertiports@[j].id@
                    &&& nodes@[j].location == site_location(vertiports@[j])
                    &&& nodes@[j].forward_to is None
                    &&& nodes@[j].status == Status::Open
                },
                forall|j: int| 0 <= j < k ==> site_location(#[trigger] vertiports@[j]).wf(),
            decreases vertiports@.len() - k,
        {
            let v = &vertiports[k];
            let location = match Location::new(v.latitude, v.longitude, 0) {
                Some(l) => l,
                None => {
                    proof {
                        assert(!site_location(vertiports@[k as int]).wf());
                    }
                    return Err(RouterError::InvalidArgument);
                },
            };
            nodes.push(Node { uid: v.id.clone(), location, forward_to: None, status: Status::Open });
            k = k + 1;
        }
        proof {
            assert(ids_of(nodes@) =~= site_ids_of(vertiports@));
            assert(nodes_match(nodes@, vertiports@));
        }
        let _ = self.set_nodes(nodes);
        self.init_router(limits, costs)
    }

    /// The site with this id.
    pub fn get_node_by_id(&self, id: &String) -> (r: Result<&Node, RouterError>)
        ensures
            self@.nodes is None ==> r == Err::<&Node, RouterError>(RouterError::NotReady),
            self@.nodes matches Some(ns) ==> match r {
                Ok(n) => exists|k: int| 0 <= k < ns.len() && ns[k] == *n && n.uid@ == id@ && forall|j: int|
                    0 <= j < k ==> (#[trigger] ns[j]).uid@ != id@,
                Err(e) => e == RouterError::NotFound && forall|k: int| 0 <= k < ns.len() ==> (#[trigger] ns[k]).uid@ != id@,
            },
    {
        let nodes = match &self.nodes {
            None => {
                return Err(RouterError::NotReady);
            },
            Some(ns) => ns,
        };
        proof {
            assert(self@.nodes == Some(nodes@));
        }
        let mut k: usize = 0;
        while k < nodes.len()
            invariant
                self@.nodes == Some(nodes@),
                0 <= k <= nodes@.len(),
                forall|j: int| 0 <= j < k ==> (#[trigger] nodes@[j]).uid@ != id@,
            decreases nodes@.len() - k,
        {
            if nodes[k].uid == *id {
                let found = &nodes[k];
                proof {
                    assert(nodes@[k as int] == *found);
                }
                return Ok(found);
            }
            k = k + 1;
        }
        Err(RouterError::NotFound)
    }

    /// The route between two sites: the locations of its vertices and its
    /// cost, as [`Router::find_shortest_path`] answers (with the cost -1
    /// and no locations when a site is unknown).
    pub fn get_route(&self, req: &RouteQuery) -> (r: Result<(Vec<Location>, i64), RouterError>)
        ensures
            self@.router is None ==> r == Err::<(Vec<Location>, i64), RouterError>(RouterError::NotReady),
            self@.router is Some ==> r is Ok && route_result(self@.router->0, req.from@, req.to@, r->Ok_0.0@, r->Ok_0.1),
    {
        proof {
            use_type_invariant(self);
        }
        let router = match &self.router {
            None => {
                return Err(RouterError::NotReady);
            },
            Some(r) => r,
        };
        proof {
            assert(self@.router == Some(router@));
        }
        let (cost, path) = router.find_route(&req.from, &req.to, Algorithm::Dijkstra);
        let mut locations: Vec<Location> = Vec::new();
        let mut k: usize = 0;
        while k < path.len()
            invariant
                router@.wf(),
                router@.path_answer(req.from@, req.to@, (cost, path@)),
                0 <= k <= path@.len(),
                locations@.len() == k,
                forall|j: int| 0 <= j < k ==> #[trigger] locations@[j] == router@.locations[router@.site_of_vertex[path@[j] as int] as int],
            decreases path@.len() - k,
        {
            proof {
                lemma_path_in_range(router@, req.from@, req.to@, (cost, path@), k as int);
            }
            let location = match router.get_node_location(path[k]) {
                Some(l) => l,
                None => {
                    return Err(RouterError::NotFound);
                },
            };
            locations.push(location);
            k = k + 1;
        }
        proof {
            assert(router@.path_answer(req.from@, req.to@, (cost, path@)));
            assert(locations@.len() == path@.len());
            assert(forall|j: int| 0 <= j < path@.len() ==> #[trigger] locations@[j] == router@.locations[router@.site_of_vertex[path@[j] as int] as int]);
            let v = self@.router->0;
            assert(v == router@);
            assert(route_result(v, req.from@, req.to@, locations@, cost));
        }
        Ok((locations, cost))
    }

    /// Searches the window from `earliest_departure_time` to
    /// `latest_arrival_time` for flights from `vertiport_depart` to
    /// `vertiport_arrive`: one candidate departure every
    /// [`crate::search::FLIGHT_PLAN_GAP_MINUTES`], at most
    /// [`crate::search::MAX_RETURNED_FLIGHT_PLANS`] of them, each kept
    /// when both vertiports are free at their ends of the flight and some
    /// vehicle parked at the departure is free for the whole block.
    pub fn get_possible_flights(
        &self,
        vertiport_depart: &PortRecord,
        vertiport_arrive: &PortRecord,
        earliest_departure_time: Option<Timestamp>,
        latest_arrival_time: Option<Timestamp>,
        vehicles: &Vec<Vehicle>,
        existing_flight_plans: &Vec<FlightPlan>,
    ) -> (r: Result<Vec<FlightPlanData>, RouterError>)
        ensures
            search_outcome(self@, *vertiport_depart, *vertiport_arrive, earliest_departure_time, latest_arrival_time,
                vehicles@, existing_flight_plans@, outcome_view(r)),
    {
        proof {
            use_type_invariant(self);
        }
        let (earliest, latest) = match (earliest_departure_time, latest_arrival_time) {
            (Some(e), Some(l)) => (e, l),
            _ => {
                return Err(RouterError::InvalidArgument);
            },
        };
        let router = match &self.router {
            None => {
                return Err(RouterError::NotReady);
            },
            Some(r) => r,
        };
        if router.vertex_index(&vertiport_depart.id).is_none() || router.vertex_index(&vertiport_arrive.id).is_none() {
            return Err(RouterError::NotFound);
        }
        let (cost, path) = router.find_route(&vertiport_depart.id, &vertiport_arrive.id, Algorithm::Dijkstra);
        if path.len() == 0 {
            return Err(RouterError::Unroutable);
        }
        proof {
            lemma_answer_unique(router@, vertiport_depart.id@, vertiport_arrive.id@, (cost, path@), (cost, path@));
        }
        let window: i64 = if latest.seconds < earliest.seconds {
            -1
        } else {
            ((latest.seconds as i128 - earliest.seconds as i128) / 60) as i64
        };
        let n_slots = match flight_options(window, cost) {
            None => {
                return Err(RouterError::WindowTooSmall);
            },
            Some(n) => n,
        };
        if earliest.nanos < 0 || earliest.nanos >= 1_000_000_000 {
            return Err(RouterError::InvalidArgument);
        }
        let minutes = estimate_flight_time_minutes(cost as u64, Aircraft::Cargo) as i64;
        proof {
            lemma_slots_fit(earliest.seconds as int, latest.seconds as int, window as int, cost as int, n_slots as int, minutes as int);
        }
        let drafts = plan_flights(vertiport_depart, vertiport_arrive, earliest, minutes, n_slots, vehicles, existing_flight_plans);
        if drafts.len() == 0 {
            return Err(RouterError::NoFeasibleSlot);
        }
        Ok(drafts)
    }
}

/// The vertices of a path found lie in the graph.
proof fn lemma_path_in_range(v: RouterView, from: Seq<char>, to: Seq<char>, r: (i64, Seq<usize>), k: int)
    requires
        v.wf(),
        v.path_answer(from, to, r),
        0 <= k < r.1.len(),
    ensures
        r.1[k] < v.len(),
{
    let vf = v.vertex_of(from);
    let i = v.site_ids.index_of(from);
    assert(v.vertex_of_site[i] < v.len());
    if k > 0 {
        assert(crate::digraph::has_arc(v.arcs, r.1[k - 1] as int, r.1[(k - 1) + 1] as int));
        let a = choose|a: int| 0 <= a < v.arcs.len() && (#[trigger] v.arcs[a]).0 == r.1[k - 1] as int && v.arcs[a].1 == r.1[k] as int;
        assert(crate::digraph::arcs_within(v.arcs, v.len()));
        assert(v.arcs[a].1 < v.len());
    }
}

/// The candidates of a window end by its latest instant.
proof fn lemma_slots_fit(e: int, l: int, w: int, c: int, n: int, minutes: int)
    requires
        e <= l,
        w == (l - e) / 60,
        0 <= c,
        slot_count(w, c) == Some(n),
        minutes == 20 + c / 100_000,
    ensures
        1 <= n <= 10,
        e + (n - 1) * 300 + minutes * 60 <= l,
{
    let slack = w * 100_000 - 2_000_000 - c;
    assert(n - 1 <= slack / 500_000);
    assert((n - 1) * 500_000 <= slack) by (nonlinear_arith)
        requires n - 1 <= slack / 500_000, slack >= 0;
    let k = w - 20 - 5 * (n - 1);
    assert(c + 99_999 < 100_000 * (k + 1)) by (nonlinear_arith)
        requires (n - 1) * 500_000 <= slack, slack == w * 100_000 - 2_000_000 - c, k == w - 20 - 5 * (n - 1);
    assert(k >= 0) by (nonlinear_arith)
        requires c >= 0, c + 99_999 < 100_000 * (k + 1);
    assert(c / 100_000 <= k) by (nonlinear_arith)
        requires c + 99_999 < 100_000 * (k + 1), c >= 0, k >= 0;
    assert(w * 60 <= l - e) by (nonlinear_arith)
        requires w == (l - e) / 60, l - e >= 0;
}

/// Position `i` holds the least distance, and no earlier position does.
pub open spec fn first_nearest(d: Seq<u64>, i: int) -> bool {
    &&& 0 <= i < d.len()
    &&& forall|k: int| 0 <= k < d.len() ==> d[i] <= #[trigger] d[k]
    &&& forall|k: int| 0 <= k < i ==> d[i] < #[trigger] d[k]
}

/// The position of the first nearest site to a source and to a
/// destination, given the distance of each site from each of them. The two
/// may be the same site.
pub fn get_nearest_vertiports(src_distances: &Vec<u64>, dst_distances: &Vec<u64>) -> (r: (usize, usize))
    requires
        src_distances@.len() > 0,
        dst_distances@.len() > 0,
    ensures
        first_nearest(src_distances@, r.0 as int),
        first_nearest(dst_distances@, r.1 as int),
{
    (nearest(src_distances), nearest(dst_distances))
}

fn nearest(d: &Vec<u64>) -> (r: usize)
    requires
        d@.len() > 0,
    ensures
        first_nearest(d@, r as int),
{
    let mut best: usize = 0;
    let mut k: usize = 1;
    while k < d.len()
        invariant
            1 <= k <= d@.len(),
            best < k,
            forall|j: int| 0 <= j < k ==> d@[best as int] <= #[trigger] d@[j],
            forall|j: int| 0 <= j < best ==> d@[best as int] < #[trigger] d@[j],
        decreases d@.len() - k,
    {
        if d[k] < d[best] {
            best = k;
        }
        k = k + 1;
    }
    best
}

/// Running a search twice on the same inputs gives the same outcome.
pub proof fn law_search_deterministic(
    sv: ServiceView,
    depart: PortRecord,
    arrive: PortRecord,
    earliest: Option<Timestamp>,
    latest: Option<Timestamp>,
    vehicles: Seq<Vehicle>,
    plans: Seq<FlightPlan>,
    r1: Result<Seq<DraftView>, RouterError>,
    r2: Result<Seq<DraftView>, RouterError>,
)
    requires
        search_outcome(sv, depart, arrive, earliest, latest, vehicles, plans, r1),
        search_outcome(sv, depart, arrive, earliest, latest, vehicles, plans, r2),
    ensures
        r1 == r2,
{
}

/// The plans a search returns are at most [`crate::search::MAX_RETURNED_FLIGHT_PLANS`];
/// they depart a whole number of gaps after the earliest departure, in
/// strictly increasing order; and no existing plan uses the departure
/// (arrival) vertiport for a departure (arrival) within the guard band
/// around a returned plan's block there.
pub proof fn law_search_plans(
    sv: ServiceView,
    depart: PortRecord,
    arrive: PortRecord,
    earliest: Option<Timestamp>,
    latest: Option<Timestamp>,
    vehicles: Seq<Vehicle>,
    plans: Seq<FlightPlan>,
    p: Seq<DraftView>,
)
    requires
        sv.wf(),
        search_outcome(sv, depart, arrive, earliest, latest, vehicles, plans, Ok(p)),
    ensures
        p.len() <= crate::search::MAX_RETURNED_FLIGHT_PLANS,
        forall|k: int| 0 <= k < p.len() ==> exists|i: int| 0 <= i < crate::search::MAX_RETURNED_FLIGHT_PLANS
            && (#[trigger] p[k]).scheduled_departure.seconds == slot_departure(earliest->0, i),
        forall|a: int, b: int| 0 <= a < b < p.len() ==> (#[trigger] p[a]).scheduled_departure.seconds
            < (#[trigger] p[b]).scheduled_departure.seconds,
        forall|k: int| 0 <= k < p.len() ==> guard_band_clear(plans, depart.id@, (#[trigger] p[k]).scheduled_departure.seconds as int, true)
            && guard_band_clear(plans, arrive.id@, p[k].scheduled_arrival.seconds - LANDING_AND_UNLOADING_SECS, false),
{
    let v = sv.router->0;
    let e = earliest->0;
    let l = latest->0;
    lemma_route_cost(v, depart.id@, arrive.id@);
    let c = route_cost(v, depart.id@, arrive.id@);
    let w = window_minutes(e, l);
    let n = slot_count(w, c)->0;
    let minutes = block_minutes(c);
    if l.seconds < e.seconds {
        assert(slot_count(w, c) is None);
    }
    lemma_slots_fit(e.seconds as int, l.seconds as int, w, c, n, minutes);
    assert(window_fits(e, minutes, n));
    law_planned(depart, arrive, e, minutes, vehicles, plans, n);
    assert forall|k: int| 0 <= k < p.len() implies exists|i: int| 0 <= i < crate::search::MAX_RETURNED_FLIGHT_PLANS
        && (#[trigger] p[k]).scheduled_departure.seconds == slot_departure(e, i) by {
        let i = choose|i: int| 0 <= i < n && p[k].scheduled_departure.seconds == slot_departure(e, i);
    }
}

} // verus!
