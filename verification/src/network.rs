//! The time-expanded network: service trips, maintenance slots and the start
//! and end node of every depot, with the relation of which node a vehicle can
//! serve after which.

use vstd::prelude::*;
use std::sync::Arc;
use crate::base_types::{DepotIdx, Idx, Location, NodeIdx, PassengerCount, VehicleCount, VehicleTypeIdx};
use crate::config::Config;
use crate::depot::Depot;
use crate::distance::Distance;
use crate::locations::Locations;
use crate::time::{time_after, time_le, time_rank, DateTime, Duration};

verus! {

/// A timetabled passenger trip.
pub struct ServiceTrip {
    pub origin: Location,
    pub destination: Location,
    pub departure: DateTime,
    pub arrival: DateTime,
    pub distance: Distance,
    pub demand: PassengerCount,
    pub name: String,
}

impl ServiceTrip {
    pub fn new(
        origin: Location,
        destination: Location,
        departure: DateTime,
        arrival: DateTime,
        distance: Distance,
        demand: PassengerCount,
        name: String,
    ) -> (t: ServiceTrip)
        ensures
            t.origin == origin,
            t.destination == destination,
            t.departure == departure,
            t.arrival == arrival,
            t.distance == distance,
            t.demand == demand,
            t.name@ == name@,
    {
        ServiceTrip { origin, destination, departure, arrival, distance, demand, name }
    }
}

/// A slot in which a vehicle can be maintained at a station.
#[derive(Debug, Clone, Copy, PartialEq, Eq, Structural)]
pub struct MaintenanceSlot {
    pub location: Location,
    pub start: DateTime,
    pub end: DateTime,
    /// The metres that a vehicle may run on the strength of this slot.
    pub distance_budget: crate::base_types::Meter,
}

/// Why a network cannot be built from what was given.
#[derive(Debug, Clone, Copy, PartialEq, Eq, Structural)]
pub enum InvalidInput {
    /// More depots, trips or slots than an index can number.
    TooManyNodes,
    /// The depot at this position carries another id, or lies at no known station.
    BadDepot(usize),
    /// The trip at this position starts or ends at no known station, or does
    /// not arrive after it departs.
    BadServiceTrip(usize),
    /// The slot at this position lies at no known station, or does not end
    /// after it starts.
    BadMaintenanceSlot(usize),
    /// Two stations in use have no dead-head trip between them.
    MissingDeadHeadTrip,
}

pub open spec fn known_station(locs: Locations, l: Location) -> bool {
    l is Station && locs.spec_stations().contains(l->Station_0.0)
}

pub open spec fn depot_ok(locs: Locations, depots: Seq<Depot>, i: int) -> bool {
    depots[i].spec_depot_id().0 == i && known_station(locs, depots[i].spec_location())
}

pub open spec fn service_ok(locs: Locations, services: Seq<ServiceTrip>, i: int) -> bool {
    &&& known_station(locs, services[i].origin)
    &&& known_station(locs, services[i].destination)
    &&& time_rank(services[i].departure) < time_rank(services[i].arrival)
}

pub open spec fn slot_ok(locs: Locations, slots: Seq<MaintenanceSlot>, i: int) -> bool {
    &&& known_station(locs, slots[i].location)
    &&& time_rank(slots[i].start) < time_rank(slots[i].end)
}

/// Whether some depot, trip or slot lies at station `s`.
pub open spec fn station_in_use(
    depots: Seq<Depot>,
    services: Seq<ServiceTrip>,
    slots: Seq<MaintenanceSlot>,
    s: Idx,
) -> bool {
    let l = Location::Station(crate::base_types::LocationIdx(s));
    ||| exists|i: int| 0 <= i < depots.len() && (#[trigger] depots[i]).spec_location() == l
    ||| exists|i: int|
        0 <= i < services.len() && ((#[trigger] services[i]).origin == l
            || services[i].destination == l)
    ||| exists|i: int| 0 <= i < slots.len() && (#[trigger] slots[i]).location == l
}

/// Whether the table holds a dead-head trip between every two stations in use.
pub open spec fn stations_connected(
    locs: Locations,
    depots: Seq<Depot>,
    services: Seq<ServiceTrip>,
    slots: Seq<MaintenanceSlot>,
) -> bool {
    forall|a: Idx, b: Idx|
        station_in_use(depots, services, slots, a) && station_in_use(depots, services, slots, b)
            ==> #[trigger] locs.has_entry(a, b)
}

/// The first fault of what a network is to be built from, if it has one.
pub open spec fn input_fault(
    locs: Locations,
    depots: Seq<Depot>,
    services: Seq<ServiceTrip>,
    slots: Seq<MaintenanceSlot>,
) -> Option<InvalidInput> {
    if depots.len() > 0x10000 || services.len() > 0x10000 || slots.len() > 0x10000 {
        Some(InvalidInput::TooManyNodes)
    } else if exists|i: int| 0 <= i < depots.len() && !depot_ok(locs, depots, i) {
        let i = choose|i: int|
            0 <= i < depots.len() && !depot_ok(locs, depots, i) && forall|j: int|
                0 <= j < i ==> depot_ok(locs, depots, j);
        Some(InvalidInput::BadDepot(i as usize))
    } else if exists|i: int| 0 <= i < services.len() && !service_ok(locs, services, i) {
        let i = choose|i: int|
            0 <= i < services.len() && !service_ok(locs, services, i) && forall|j: int|
                0 <= j < i ==> service_ok(locs, services, j);
        Some(InvalidInput::BadServiceTrip(i as usize))
    } else if exists|i: int| 0 <= i < slots.len() && !slot_ok(locs, slots, i) {
        let i = choose|i: int|
            0 <= i < slots.len() && !slot_ok(locs, slots, i) && forall|j: int|
                0 <= j < i ==> slot_ok(locs, slots, j);
        Some(InvalidInput::BadMaintenanceSlot(i as usize))
    } else if !stations_connected(locs, depots, services, slots) {
        Some(InvalidInput::MissingDeadHeadTrip)
    } else {
        None
    }
}

pub struct Network {
    depots: Vec<Depot>,
    service_trips: Vec<ServiceTrip>,
    maintenance_slots: Vec<MaintenanceSlot>,
    config: Arc<Config>,
    locations: Arc<Locations>,
}

impl Network {
    pub closed spec fn spec_depots(&self) -> Seq<Depot> {
        self.depots@
    }

    pub closed spec fn spec_services(&self) -> Seq<ServiceTrip> {
        self.service_trips@
    }

    pub closed spec fn spec_slots(&self) -> Seq<MaintenanceSlot> {
        self.maintenance_slots@
    }

    pub closed spec fn spec_config(&self) -> Config {
        *self.config
    }

    pub closed spec fn spec_locations(&self) -> Locations {
        *self.locations
    }

    /// Whether `node` is a node of this network.
    pub open spec fn contains(&self, node: NodeIdx) -> bool {
        match node {
            NodeIdx::StartDepot(i) => i < self.spec_depots().len(),
            NodeIdx::EndDepot(i) => i < self.spec_depots().len(),
            NodeIdx::Service(i) => i < self.spec_services().len(),
            NodeIdx::Maintenance(i) => i < self.spec_slots().len(),
        }
    }

    /// Whether `node` is a node that vehicles cover: a trip or a slot.
    pub open spec fn coverable(&self, node: NodeIdx) -> bool {
        self.contains(node) && !node.is_depot()
    }

    pub open spec fn spec_start_location(&self, node: NodeIdx) -> Location {
        match node {
            NodeIdx::StartDepot(i) => self.spec_depots()[i as int].spec_location(),
            NodeIdx::EndDepot(i) => self.spec_depots()[i as int].spec_location(),
            NodeIdx::Service(i) => self.spec_services()[i as int].origin,
            NodeIdx::Maintenance(i) => self.spec_slots()[i as int].location,
        }
    }

    pub open spec fn spec_end_location(&self, node: NodeIdx) -> Location {
        match node {
            NodeIdx::StartDepot(i) => self.spec_depots()[i as int].spec_location(),
            NodeIdx::EndDepot(i) => self.spec_depots()[i as int].spec_location(),
            NodeIdx::Service(i) => self.spec_services()[i as int].destination,
            NodeIdx::Maintenance(i) => self.spec_slots()[i as int].location,
        }
    }

    /// When a node starts. A start depot lies before all time, an end depot
    /// after it.
    pub open spec fn spec_start_time(&self, node: NodeIdx) -> DateTime {
        match node {
            NodeIdx::StartDepot(_) => DateTime::Earliest,
            NodeIdx::EndDepot(_) => DateTime::Latest,
            NodeIdx::Service(i) => self.spec_services()[i as int].departure,
            NodeIdx::Maintenance(i) => self.spec_slots()[i as int].start,
        }
    }

    pub open spec fn spec_end_time(&self, node: NodeIdx) -> DateTime {
        match node {
            NodeIdx::StartDepot(_) => DateTime::Earliest,
            NodeIdx::EndDepot(_) => DateTime::Latest,
            NodeIdx::Service(i) => self.spec_services()[i as int].arrival,
            NodeIdx::Maintenance(i) => self.spec_slots()[i as int].end,
        }
    }

    /// The passengers that want to travel on a node: none but on a trip.
    pub open spec fn spec_demand(&self, node: NodeIdx) -> PassengerCount {
        match node {
            NodeIdx::Service(i) => self.spec_services()[i as int].demand,
            _ => 0,
        }
    }

    /// The distance a vehicle travels while it covers a node.
    pub open spec fn spec_travel_distance(&self, node: NodeIdx) -> Distance {
        match node {
            NodeIdx::Service(i) => self.spec_services()[i as int].distance,
            _ => Distance::Distance(0),
        }
    }

    /// The metres that a node lets a vehicle run before it is due for
    /// maintenance: none but for a maintenance slot.
    pub open spec fn spec_distance_budget(&self, node: NodeIdx) -> crate::base_types::Meter {
        match node {
            NodeIdx::Maintenance(i) => self.spec_slots()[i as int].distance_budget,
            _ => 0,
        }
    }

    /// The distance a vehicle runs empty between two nodes that it covers
    /// one after the other.
    pub open spec fn spec_dead_head_distance(&self, a: NodeIdx, b: NodeIdx) -> Distance {
        self.spec_locations().spec_distance(self.spec_end_location(a), self.spec_start_location(b))
    }

    /// The least time between the end of `a` and the start of `b` for one
    /// vehicle: the shunting time where they meet at one station (none at a
    /// depot), the travel time and the time to set out where they do not.
    pub open spec fn spec_minimal_duration(&self, a: NodeIdx, b: NodeIdx) -> Duration {
        let from = self.spec_end_location(a);
        let to = self.spec_start_location(b);
        if from == to {
            if a.is_depot() || b.is_depot() {
                Duration::Length(0)
            } else {
                self.spec_config().shunting_minimal_duration
            }
        } else {
            crate::time::duration_sum(
                self.spec_locations().spec_travel_time(from, to),
                self.spec_config().shunting_dead_head_trip_duration,
            )
        }
    }

    /// Whether a vehicle that has covered `a` can cover `b` next: nothing is
    /// covered before a start depot or after an end depot, and otherwise the
    /// vehicle must be able to be there in time.
    pub open spec fn reaches(&self, a: NodeIdx, b: NodeIdx) -> bool {
        &&& !(a is EndDepot)
        &&& !(b is StartDepot)
        &&& time_le(
            time_after(self.spec_end_time(a), self.spec_minimal_duration(a, b)),
            self.spec_start_time(b),
        )
    }

    /// The depot that a depot node belongs to.
    pub open spec fn spec_depot_of(&self, node: NodeIdx) -> DepotIdx {
        DepotIdx(node.idx())
    }

    /// How many vehicles of a type may start at a depot.
    pub open spec fn spec_capacity_of(&self, depot: DepotIdx, vehicle_type: VehicleTypeIdx) -> VehicleCount {
        if depot.0 < self.spec_depots().len() {
            self.spec_depots()[depot.0 as int].spec_capacity_for(vehicle_type)
        } else {
            0
        }
    }

    pub open spec fn wf(&self) -> bool {
        &&& input_fault(
            self.spec_locations(),
            self.spec_depots(),
            self.spec_services(),
            self.spec_slots(),
        ) is None
    }

    /// Every two nodes have their dead-head trip in the table.
    pub proof fn lemma_trips_known(&self, a: NodeIdx, b: NodeIdx)
        requires
            self.wf(),
            self.contains(a),
            self.contains(b),
        ensures
            self.spec_locations().has_trip(self.spec_end_location(a), self.spec_start_location(b)),
            self.spec_end_location(a) is Station,
            self.spec_start_location(b) is Station,
    {
        let locs = self.spec_locations();
        let d = self.spec_depots();
        let s = self.spec_services();
        let m = self.spec_slots();
        self.lemma_node_wf(a);
        self.lemma_node_wf(b);
        let x = self.spec_end_location(a)->Station_0.0;
        let y = self.spec_start_location(b)->Station_0.0;
        assert(station_in_use(d, s, m, x)) by {
            match a {
                NodeIdx::StartDepot(i) => {
                    assert(d[i as int].spec_location() == self.spec_end_location(a));
                },
                NodeIdx::EndDepot(i) => {
                    assert(d[i as int].spec_location() == self.spec_end_location(a));
                },
                NodeIdx::Service(i) => {
                    assert(s[i as int].destination == self.spec_end_location(a));
                },
                NodeIdx::Maintenance(i) => {
                    assert(m[i as int].location == self.spec_end_location(a));
                },
            }
        }
        assert(station_in_use(d, s, m, y)) by {
            match b {
                NodeIdx::StartDepot(i) => {
                    assert(d[i as int].spec_location() == self.spec_start_location(b));
                },
                NodeIdx::EndDepot(i) => {
                    assert(d[i as int].spec_location() == self.spec_start_location(b));
                },
                NodeIdx::Service(i) => {
                    assert(s[i as int].origin == self.spec_start_location(b));
                },
                NodeIdx::Maintenance(i) => {
                    assert(m[i as int].location == self.spec_start_location(b));
                },
            }
        }
        assert(locs.has_entry(x, y));
    }

    /// A node of a valid network lies at known stations, and a trip or slot
    /// ends after it starts.
    pub proof fn lemma_node_wf(&self, n: NodeIdx)
        requires
            self.wf(),
            self.contains(n),
        ensures
            known_station(self.spec_locations(), self.spec_start_location(n)),
            known_station(self.spec_locations(), self.spec_end_location(n)),
            n.is_depot() ==> self.spec_start_time(n) == self.spec_end_time(n),
            !n.is_depot() ==> time_rank(self.spec_start_time(n)) < time_rank(self.spec_end_time(n)),
            n is StartDepot || n is EndDepot ==> self.spec_depots()[n.idx() as int].spec_depot_id()
                == self.spec_depot_of(n),
    {
        let locs = self.spec_locations();
        match n {
            NodeIdx::StartDepot(i) => {
                assert(depot_ok(locs, self.spec_depots(), i as int));
            },
            NodeIdx::EndDepot(i) => {
                assert(depot_ok(locs, self.spec_depots(), i as int));
            },
            NodeIdx::Service(i) => {
                assert(service_ok(locs, self.spec_services(), i as int));
            },
            NodeIdx::Maintenance(i) => {
                assert(slot_ok(locs, self.spec_slots(), i as int));
            },
        }
    }

    /// Every node but a start depot is reached from every start depot, and
    /// every node but an end depot reaches every end depot.
    pub proof fn lemma_depots_connect(&self, a: NodeIdx, b: NodeIdx)
        ensures
            a is StartDepot ==> (self.reaches(a, b) <==> !(b is StartDepot)),
            b is EndDepot ==> (self.reaches(a, b) <==> !(a is EndDepot)),
    {
    }

    /// What reaches lies earlier: if `a` reaches `b`, then `a` ends no later
    /// than `b` starts.
    pub proof fn lemma_reach_in_time(&self, a: NodeIdx, b: NodeIdx)
        requires
            self.reaches(a, b),
        ensures
            time_le(self.spec_end_time(a), self.spec_start_time(b)),
            !(a is EndDepot),
            !(b is StartDepot),
    {
        crate::time::lemma_time_after_is_later(
            self.spec_end_time(a),
            self.spec_minimal_duration(a, b),
        );
    }
}


impl Network {
    /// Builds the network, or says what is wrong with its parts.
    pub fn new(
        depots: Vec<Depot>,
        service_trips: Vec<ServiceTrip>,
        maintenance_slots: Vec<MaintenanceSlot>,
        config: Arc<Config>,
        locations: Arc<Locations>,
    ) -> (r: Result<Network, InvalidInput>)
        ensures
            match r {
                Ok(nw) => {
                    &&& nw.wf()
                    &&& nw.spec_depots() == depots@
                    &&& nw.spec_services() == service_trips@
                    &&& nw.spec_slots() == maintenance_slots@
                    &&& nw.spec_config() == *config
                    &&& nw.spec_locations() == *locations
                },
                Err(e) => input_fault(*locations, depots@, service_trips@, maintenance_slots@)
                    == Some(e),
            },
    {
        let ghost d = depots@;
        let ghost s = service_trips@;
        let ghost m = maintenance_slots@;
        if depots.len() > 0x10000 || service_trips.len() > 0x10000 || maintenance_slots.len()
            > 0x10000 {
            return Err(InvalidInput::TooManyNodes);
        }
        let mut in_use: Vec<bool> = Vec::new();
        let mut k: usize = 0;
        while k < 0x10000
            invariant
                k <= 0x10000,
                in_use@.len() == k,
                forall|j: int| 0 <= j < k ==> !in_use@[j],
            decreases 0x10000 - k,
        {
            in_use.push(false);
            k += 1;
        }
        let mut i: usize = 0;
        while i < depots.len()
            invariant
                i <= depots.len(),
                d.len() <= 0x10000,
                s.len() <= 0x10000,
                m.len() <= 0x10000,
                d == depots@,
                s == service_trips@,
                m == maintenance_slots@,
                in_use@.len() == 0x10000,
                forall|j: int| 0 <= j < i ==> depot_ok((*locations), d, j),
                forall|x: Idx|
                    #![trigger in_use@[x as int]]
                    in_use@[x as int] == station_in_use(
                        d.subrange(0, i as int),
                        Seq::empty(),
                        Seq::empty(),
                        x,
                    ),
            decreases depots.len() - i,
        {
            let ghost before = in_use@;
            let ok = depots[i].depot_id().0 as usize == i && match depots[i].location() {
                Location::Station(st) => locations.is_station(st),
                Location::Nowhere => false,
            };
            if !ok {
                proof {
                    assert(!depot_ok((*locations), d, i as int));
                    let w = choose|w: int|
                        0 <= w < d.len() && !depot_ok((*locations), d, w) && forall|j: int|
                            0 <= j < w ==> depot_ok((*locations), d, j);
                    assert(w == i as int);
                }
                return Err(InvalidInput::BadDepot(i));
            }
            let st = depots[i].location().as_station();
            in_use.set(st.0 as usize, true);
            proof {
                let d0 = d.subrange(0, i as int);
                let d1 = d.subrange(0, i + 1);
                let e1 = Seq::<ServiceTrip>::empty();
                let e2 = Seq::<MaintenanceSlot>::empty();
                assert forall|x: Idx| #![trigger in_use@[x as int]]
                    in_use@[x as int] == station_in_use(d1, e1, e2, x) by {
                    let l = Location::Station(crate::base_types::LocationIdx(x));
                    if station_in_use(d0, e1, e2, x) {
                        let w = choose|w: int| 0 <= w < d0.len() && (#[trigger] d0[w]).spec_location() == l;
                        assert(d1[w].spec_location() == l);
                    }
                    if x == st.0 {
                        assert(d1[i as int].spec_location() == l);
                    }
                    if station_in_use(d1, e1, e2, x) {
                        let w = choose|w: int| 0 <= w < d1.len() && (#[trigger] d1[w]).spec_location() == l;
                        if w < i {
                            assert(d0[w].spec_location() == l);
                        }
                    }
                }
            }
            i += 1;
        }
        assert(d.subrange(0, d.len() as int) =~= d);
        let mut i: usize = 0;
        while i < service_trips.len()
            invariant
                i <= service_trips.len(),
                d.len() <= 0x10000,
                s.len() <= 0x10000,
                m.len() <= 0x10000,
                d == depots@,
                s == service_trips@,
                m == maintenance_slots@,
                forall|j: int| 0 <= j < d.len() ==> depot_ok((*locations), d, j),
                in_use@.len() == 0x10000,
                forall|j: int| 0 <= j < i ==> service_ok((*locations), s, j),
                forall|x: Idx|
                    #![trigger in_use@[x as int]]
                    in_use@[x as int] == station_in_use(
                        d,
                        s.subrange(0, i as int),
                        Seq::empty(),
                        x,
                    ),
            decreases service_trips.len() - i,
        {
            let t = &service_trips[i];
            let ok = match (t.origin, t.destination) {
                (Location::Station(a), Location::Station(b)) => locations.is_station(a)
                    && locations.is_station(b) && t.departure.lt(t.arrival),
                _ => false,
            };
            if !ok {
                proof {
                    assert(!service_ok((*locations), s, i as int));
                    let w = choose|w: int|
                        0 <= w < s.len() && !service_ok((*locations), s, w) && forall|j: int|
                            0 <= j < w ==> service_ok((*locations), s, j);
                    assert(w == i as int);
                }
                return Err(InvalidInput::BadServiceTrip(i));
            }
            let a = t.origin.as_station();
            let b = t.destination.as_station();
            in_use.set(a.0 as usize, true);
            in_use.set(b.0 as usize, true);
            proof {
                let s0 = s.subrange(0, i as int);
                let s1 = s.subrange(0, i + 1);
                let e2 = Seq::<MaintenanceSlot>::empty();
                assert forall|x: Idx| #![trigger in_use@[x as int]]
                    in_use@[x as int] == station_in_use(d, s1, e2, x) by {
                    let l = Location::Station(crate::base_types::LocationIdx(x));
                    if exists|w: int| 0 <= w < s0.len() && ((#[trigger] s0[w]).origin == l || s0[w].destination == l) {
                        let w = choose|w: int| 0 <= w < s0.len() && ((#[trigger] s0[w]).origin == l || s0[w].destination == l);
                        assert(s1[w].origin == l || s1[w].destination == l);
                    }
                    if x == a.0 || x == b.0 {
                        assert(s1[i as int].origin == l || s1[i as int].destination == l);
                    }
                    if exists|w: int| 0 <= w < s1.len() && ((#[trigger] s1[w]).origin == l || s1[w].destination == l) {
                        let w = choose|w: int| 0 <= w < s1.len() && ((#[trigger] s1[w]).origin == l || s1[w].destination == l);
                        if w < i {
                            assert(s0[w].origin == l || s0[w].destination == l);
                        }
                    }
                }
            }
            i += 1;
        }
        assert(s.subrange(0, s.len() as int) =~= s);
        let mut i: usize = 0;
        while i < maintenance_slots.len()
            invariant
                i <= maintenance_slots.len(),
                d.len() <= 0x10000,
                s.len() <= 0x10000,
                m.len() <= 0x10000,
                d == depots@,
                s == service_trips@,
                m == maintenance_slots@,
                forall|j: int| 0 <= j < d.len() ==> depot_ok((*locations), d, j),
                forall|j: int| 0 <= j < s.len() ==> service_ok((*locations), s, j),
                in_use@.len() == 0x10000,
                forall|j: int| 0 <= j < i ==> slot_ok((*locations), m, j),
                forall|x: Idx|
                    #![trigger in_use@[x as int]]
                    in_use@[x as int] == station_in_use(d, s, m.subrange(0, i as int), x),
            decreases maintenance_slots.len() - i,
        {
            let t = &maintenance_slots[i];
            let ok = match t.location {
                Location::Station(a) => locations.is_station(a) && t.start.lt(t.end),
                _ => false,
            };
            if !ok {
                proof {
                    assert(!slot_ok((*locations), m, i as int));
                    let w = choose|w: int|
                        0 <= w < m.len() && !slot_ok((*locations), m, w) && forall|j: int|
                            0 <= j < w ==> slot_ok((*locations), m, j);
                    assert(w == i as int);
                }
                return Err(InvalidInput::BadMaintenanceSlot(i));
            }
            let a = t.location.as_station();
            in_use.set(a.0 as usize, true);
            proof {
                let m0 = m.subrange(0, i as int);
                let m1 = m.subrange(0, i + 1);
                assert forall|x: Idx| #![trigger in_use@[x as int]]
                    in_use@[x as int] == station_in_use(d, s, m1, x) by {
                    let l = Location::Station(crate::base_types::LocationIdx(x));
                    if exists|w: int| 0 <= w < m0.len() && (#[trigger] m0[w]).location == l {
                        let w = choose|w: int| 0 <= w < m0.len() && (#[trigger] m0[w]).location == l;
                        assert(m1[w].location == l);
                    }
                    if x == a.0 {
                        assert(m1[i as int].location == l);
                    }
                    if exists|w: int| 0 <= w < m1.len() && (#[trigger] m1[w]).location == l {
                        let w = choose|w: int| 0 <= w < m1.len() && (#[trigger] m1[w]).location == l;
                        if w < i {
                            assert(m0[w].location == l);
                        }
                    }
                }
            }
            i += 1;
        }
        assert(m.subrange(0, m.len() as int) =~= m);
        let mut a: usize = 0;
        while a < 0x10000
            invariant
                a <= 0x10000,
                in_use@.len() == 0x10000,
                d.len() <= 0x10000,
                s.len() <= 0x10000,
                m.len() <= 0x10000,
                d == depots@,
                s == service_trips@,
                m == maintenance_slots@,
                forall|j: int| 0 <= j < d.len() ==> depot_ok((*locations), d, j),
                forall|j: int| 0 <= j < s.len() ==> service_ok((*locations), s, j),
                forall|j: int| 0 <= j < m.len() ==> slot_ok((*locations), m, j),
                forall|x: Idx|
                    #![trigger in_use@[x as int]]
                    #![trigger station_in_use(d, s, m, x)]
                    in_use@[x as int] == station_in_use(d, s, m, x),
                forall|x: Idx, y: Idx|
                    x < a && in_use@[x as int] && in_use@[y as int] ==> #[trigger] (*locations).has_entry(
                        x,
                        y,
                    ),
            decreases 0x10000 - a,
        {
            if in_use[a] {
                let mut b: usize = 0;
                while b < 0x10000
                    invariant
                        b <= 0x10000,
                        a < 0x10000,
                        in_use@.len() == 0x10000,
                        in_use@[a as int],
                        d.len() <= 0x10000,
                        s.len() <= 0x10000,
                        m.len() <= 0x10000,
                        d == depots@,
                        s == service_trips@,
                        m == maintenance_slots@,
                        forall|j: int| 0 <= j < d.len() ==> depot_ok((*locations), d, j),
                        forall|j: int| 0 <= j < s.len() ==> service_ok((*locations), s, j),
                        forall|j: int| 0 <= j < m.len() ==> slot_ok((*locations), m, j),
                        forall|x: Idx|
                            #![trigger in_use@[x as int]]
                            #![trigger station_in_use(d, s, m, x)]
                            in_use@[x as int] == station_in_use(d, s, m, x),
                        forall|x: Idx, y: Idx|
                            x < a && in_use@[x as int] && in_use@[y as int] ==> #[trigger] (
                            *locations).has_entry(x, y),
                        forall|y: Idx|
                            y < b && in_use@[y as int] ==> #[trigger] (*locations).has_entry(a as Idx, y),
                    decreases 0x10000 - b,
                {
                    if in_use[b] {
                        let la = Location::Station(crate::base_types::LocationIdx(a as Idx));
                        let lb = Location::Station(crate::base_types::LocationIdx(b as Idx));
                        if !locations.knows(la, lb) {
                            proof {
                                assert(in_use@[(a as Idx) as int]);
                                assert(in_use@[(b as Idx) as int]);
                                assert(station_in_use(d, s, m, a as Idx));
                                assert(station_in_use(d, s, m, b as Idx));
                                assert(!(*locations).has_entry(a as Idx, b as Idx));
                            }
                            return Err(InvalidInput::MissingDeadHeadTrip);
                        }
                    }
                    b += 1;
                }
            }
            proof {
                assert forall|x: Idx, y: Idx|
                    x < a + 1 && in_use@[x as int] && in_use@[y as int] implies #[trigger] (
                    *locations).has_entry(x, y) by {
                    if x == a {
                        assert(x == a as Idx);
                        assert((*locations).has_entry(a as Idx, y));
                    }
                }
            }
            a += 1;
        }
        proof {
            assert forall|x: Idx, y: Idx|
                station_in_use(d, s, m, x) && station_in_use(d, s, m, y) implies #[trigger] (*locations).has_entry(x, y) by {
                assert(in_use@[x as int]);
                assert(in_use@[y as int]);
            }
        }
        Ok(Network { depots, service_trips, maintenance_slots, config, locations })
    }

    /// The number of nodes.
    pub fn size(&self) -> (n: usize)
        requires
            self.wf(),
        ensures
            n == 2 * self.spec_depots().len() + self.spec_services().len()
                + self.spec_slots().len(),
    {
        2 * self.depots.len() + self.service_trips.len() + self.maintenance_slots.len()
    }

    pub fn number_of_depots(&self) -> (n: usize)
        ensures
            n == self.spec_depots().len(),
    {
        self.depots.len()
    }

    pub fn number_of_service_nodes(&self) -> (n: usize)
        ensures
            n == self.spec_services().len(),
    {
        self.service_trips.len()
    }

    pub fn number_of_maintenance_nodes(&self) -> (n: usize)
        ensures
            n == self.spec_slots().len(),
    {
        self.maintenance_slots.len()
    }

    pub fn config(&self) -> (c: &Config)
        ensures
            *c == self.spec_config(),
    {
        &self.config
    }

    pub fn locations(&self) -> (l: &Locations)
        ensures
            *l == self.spec_locations(),
    {
        &self.locations
    }

    /// Whether `node` is a node of this network.
    pub fn has_node(&self, node: NodeIdx) -> (b: bool)
        ensures
            b == self.contains(node),
    {
        match node {
            NodeIdx::StartDepot(i) => (i as usize) < self.depots.len(),
            NodeIdx::EndDepot(i) => (i as usize) < self.depots.len(),
            NodeIdx::Service(i) => (i as usize) < self.service_trips.len(),
            NodeIdx::Maintenance(i) => (i as usize) < self.maintenance_slots.len(),
        }
    }

    pub fn start_location(&self, node: NodeIdx) -> (l: Location)
        requires
            self.contains(node),
        ensures
            l == self.spec_start_location(node),
    {
        match node {
            NodeIdx::StartDepot(i) => self.depots[i as usize].location(),
            NodeIdx::EndDepot(i) => self.depots[i as usize].location(),
            NodeIdx::Service(i) => self.service_trips[i as usize].origin,
            NodeIdx::Maintenance(i) => self.maintenance_slots[i as usize].location,
        }
    }

    pub fn end_location(&self, node: NodeIdx) -> (l: Location)
        requires
            self.contains(node),
        ensures
            l == self.spec_end_location(node),
    {
        match node {
            NodeIdx::StartDepot(i) => self.depots[i as usize].location(),
            NodeIdx::EndDepot(i) => self.depots[i as usize].location(),
            NodeIdx::Service(i) => self.service_trips[i as usize].destination,
            NodeIdx::Maintenance(i) => self.maintenance_slots[i as usize].location,
        }
    }

    pub fn start_time(&self, node: NodeIdx) -> (t: DateTime)
        requires
            self.contains(node),
        ensures
            t == self.spec_start_time(node),
    {
        match node {
            NodeIdx::StartDepot(_) => DateTime::Earliest,
            NodeIdx::EndDepot(_) => DateTime::Latest,
            NodeIdx::Service(i) => self.service_trips[i as usize].departure,
            NodeIdx::Maintenance(i) => self.maintenance_slots[i as usize].start,
        }
    }

    pub fn end_time(&self, node: NodeIdx) -> (t: DateTime)
        requires
            self.contains(node),
        ensures
            t == self.spec_end_time(node),
    {
        match node {
            NodeIdx::StartDepot(_) => DateTime::Earliest,
            NodeIdx::EndDepot(_) => DateTime::Latest,
            NodeIdx::Service(i) => self.service_trips[i as usize].arrival,
            NodeIdx::Maintenance(i) => self.maintenance_slots[i as usize].end,
        }
    }

    pub fn demand(&self, node: NodeIdx) -> (p: PassengerCount)
        requires
            self.contains(node),
        ensures
            p == self.spec_demand(node),
    {
        match node {
            NodeIdx::Service(i) => self.service_trips[i as usize].demand,
            _ => 0,
        }
    }

    pub fn travel_distance(&self, node: NodeIdx) -> (d: Distance)
        requires
            self.contains(node),
        ensures
            d == self.spec_travel_distance(node),
    {
        match node {
            NodeIdx::Service(i) => self.service_trips[i as usize].distance,
            _ => Distance::Distance(0),
        }
    }

    pub fn distance_budget(&self, node: NodeIdx) -> (m: crate::base_types::Meter)
        requires
            self.contains(node),
        ensures
            m == self.spec_distance_budget(node),
    {
        match node {
            NodeIdx::Maintenance(i) => self.maintenance_slots[i as usize].distance_budget,
            _ => 0,
        }
    }

    /// The name of a trip.
    pub fn name_of(&self, node: NodeIdx) -> (r: Option<&String>)
        requires
            self.contains(node),
        ensures
            r.is_some() == (node is Service),
            r.is_some() ==> r.unwrap()@ == self.spec_services()[node.idx() as int].name@,
    {
        match node {
            NodeIdx::Service(i) => Some(&self.service_trips[i as usize].name),
            _ => None,
        }
    }

    pub fn dead_head_distance_between(&self, a: NodeIdx, b: NodeIdx) -> (d: Distance)
        requires
            self.wf(),
            self.contains(a),
            self.contains(b),
        ensures
            d == self.spec_dead_head_distance(a, b),
    {
        proof {
            self.lemma_trips_known(a, b);
        }
        self.locations.distance(self.end_location(a), self.start_location(b))
    }

    pub fn minimal_duration_between_nodes(&self, a: NodeIdx, b: NodeIdx) -> (d: Duration)
        requires
            self.wf(),
            self.contains(a),
            self.contains(b),
        ensures
            d == self.spec_minimal_duration(a, b),
    {
        proof {
            self.lemma_trips_known(a, b);
        }
        let from = self.end_location(a);
        let to = self.start_location(b);
        if from == to {
            if a.is_depot() || b.is_depot() {
                Duration::Length(0)
            } else {
                self.config.shunting_minimal_duration
            }
        } else {
            self.locations.travel_time(from, to).plus(self.config.shunting_dead_head_trip_duration)
        }
    }

    pub fn can_reach(&self, a: NodeIdx, b: NodeIdx) -> (r: bool)
        requires
            self.wf(),
            self.contains(a),
            self.contains(b),
        ensures
            r == self.reaches(a, b),
    {
        match (a, b) {
            (NodeIdx::EndDepot(_), _) => false,
            (_, NodeIdx::StartDepot(_)) => false,
            _ => {
                let d = self.minimal_duration_between_nodes(a, b);
                self.end_time(a).plus(d).le(self.start_time(b))
            },
        }
    }

    /// The depot that a depot node belongs to.
    pub fn get_depot_id(&self, node: NodeIdx) -> (d: DepotIdx)
        requires
            node.is_depot(),
        ensures
            d == self.spec_depot_of(node),
    {
        DepotIdx(node.idx())
    }

    /// The start node of a depot.
    pub fn get_start_depot_node(&self, depot: DepotIdx) -> (n: NodeIdx)
        ensures
            n == NodeIdx::StartDepot(depot.0),
    {
        NodeIdx::StartDepot(depot.0)
    }

    /// The end node of a depot.
    pub fn get_end_depot_node(&self, depot: DepotIdx) -> (n: NodeIdx)
        ensures
            n == NodeIdx::EndDepot(depot.0),
    {
        NodeIdx::EndDepot(depot.0)
    }

    pub fn capacity_of(&self, depot: DepotIdx, vehicle_type: VehicleTypeIdx) -> (c: VehicleCount)
        ensures
            c == self.spec_capacity_of(depot, vehicle_type),
    {
        if (depot.0 as usize) < self.depots.len() {
            self.depots[depot.0 as usize].capacity_for(vehicle_type)
        } else {
            0
        }
    }

    /// All trips, by index.
    pub fn service_nodes(&self) -> (r: Vec<NodeIdx>)
        requires
            self.wf(),
        ensures
            r@.len() == self.spec_services().len(),
            forall|i: int| 0 <= i < r@.len() ==> r@[i] == NodeIdx::Service(i as Idx),
    {
        let mut r: Vec<NodeIdx> = Vec::new();
        let mut i: usize = 0;
        while i < self.service_trips.len()
            invariant
                i <= self.service_trips.len() <= 0x10000,
                r@.len() == i,
                forall|j: int| 0 <= j < i ==> r@[j] == NodeIdx::Service(j as Idx),
            decreases self.service_trips.len() - i,
        {
            r.push(NodeIdx::Service(i as Idx));
            i += 1;
        }
        r
    }

    /// All slots, by index.
    pub fn maintenance_nodes(&self) -> (r: Vec<NodeIdx>)
        requires
            self.wf(),
        ensures
            r@.len() == self.spec_slots().len(),
            forall|i: int| 0 <= i < r@.len() ==> r@[i] == NodeIdx::Maintenance(i as Idx),
    {
        let mut r: Vec<NodeIdx> = Vec::new();
        let mut i: usize = 0;
        while i < self.maintenance_slots.len()
            invariant
                i <= self.maintenance_slots.len() <= 0x10000,
                r@.len() == i,
                forall|j: int| 0 <= j < i ==> r@[j] == NodeIdx::Maintenance(j as Idx),
            decreases self.maintenance_slots.len() - i,
        {
            r.push(NodeIdx::Maintenance(i as Idx));
            i += 1;
        }
        r
    }

    /// All nodes that vehicles cover: the trips, then the slots.
    pub fn coverable_nodes(&self) -> (r: Vec<NodeIdx>)
        requires
            self.wf(),
        ensures
            r@ == Seq::new(
                self.spec_services().len(),
                |i: int| NodeIdx::Service(i as Idx),
            ) + Seq::new(self.spec_slots().len(), |i: int| NodeIdx::Maintenance(i as Idx)),
            forall|n: NodeIdx| self.coverable(n) <==> r@.contains(n),
    {
        let mut r = self.service_nodes();
        let mut m = self.maintenance_nodes();
        let ghost a = r@;
        let ghost b = m@;
        r.append(&mut m);
        proof {
            let sa = Seq::new(self.spec_services().len(), |i: int| NodeIdx::Service(i as Idx));
            let sb = Seq::new(self.spec_slots().len(), |i: int| NodeIdx::Maintenance(i as Idx));
            assert(a =~= sa);
            assert(b =~= sb);
            assert forall|n: NodeIdx| self.coverable(n) <==> r@.contains(n) by {
                if self.coverable(n) {
                    match n {
                        NodeIdx::Service(i) => {
                            assert(r@[i as int] == n);
                        },
                        NodeIdx::Maintenance(i) => {
                            assert(r@[a.len() + i] == n);
                        },
                        _ => {},
                    }
                }
                if r@.contains(n) {
                    let w = choose|w: int| 0 <= w < r@.len() && r@[w] == n;
                    if w < a.len() {
                        assert(r@[w] == a[w]);
                    } else {
                        assert(r@[w] == b[w - a.len()]);
                    }
                }
            }
        }
        r
    }
}

} // verus!
