//! What can be asked of a schedule.

use vstd::prelude::*;
use crate::base_types::{DepotIdx, Idx, NodeIdx, PassengerCount, VehicleCount, VehicleIdx, VehicleTypeIdx};
use crate::distance::{distance_sum, Distance};
use crate::network::Network;
use crate::path::Path;
use crate::persistent::{formation_map_get, id_set_len, tour_map_get, tour_map_len, usage_map_get, vehicle_map_get, vehicle_map_len};
use crate::schedule::model::{node_key, schedule_ok, ScheduleModel};
use crate::schedule::{node_key_of, Schedule, ScheduleError};
use crate::base_types::lemma_id_set_small;
use crate::segment::Segment;
use crate::tour::{dead_head_distance_of, displaced, service_distance, Tour, TourModel};
use crate::chain::covers_something;
use crate::train_formation::{clip, lemma_sums_not_negative, seats_sum, TrainFormation, Vehicle};
use crate::vehicle_types::VehicleTypes;

verus! {

/// How many more vehicles of a type start at a depot than end there.
pub open spec fn balance(m: ScheduleModel, d: Idx, t: Idx) -> int {
    m.spawned[(d, t)].len() - m.despawned[(d, t)].len()
}

pub open spec fn abs(x: int) -> int {
    if x < 0 {
        -x
    } else {
        x
    }
}

/// The sum of the absolute balances of one depot over the first `n` of the
/// given types.
pub open spec fn depot_violation(m: ScheduleModel, d: Idx, types: Seq<VehicleTypeIdx>, n: int) -> int
    decreases n,
{
    if n <= 0 {
        0
    } else {
        depot_violation(m, d, types, n - 1) + abs(balance(m, d, types[n - 1].0))
    }
}

/// The sum of the absolute balances of the first `depots` depots over the
/// given types.
pub open spec fn balance_violation(m: ScheduleModel, depots: int, types: Seq<VehicleTypeIdx>) -> int
    decreases depots,
{
    if depots <= 0 {
        0
    } else {
        balance_violation(m, depots - 1, types) + depot_violation(
            m,
            (depots - 1) as Idx,
            types,
            types.len() as int,
        )
    }
}

/// The passengers of a trip that find no seat.
pub open spec fn unserved_at(m: ScheduleModel, nw: &Network, n: NodeIdx) -> int {
    let missing = nw.spec_demand(n) - seats_sum(m.formations[n]);
    if missing > 0 {
        missing
    } else {
        0
    }
}

/// The passengers of the first `n` trips that find no seat.
pub open spec fn unserved(m: ScheduleModel, nw: &Network, n: int) -> int
    decreases n,
{
    if n <= 0 {
        0
    } else {
        unserved(m, nw, n - 1) + unserved_at(m, nw, NodeIdx::Service((n - 1) as Idx))
    }
}

/// The distance that the first `n` vehicles of the schedule run empty.
pub open spec fn dead_head_total(m: ScheduleModel, nw: &Network, n: int) -> Distance
    decreases n,
{
    if n <= 0 {
        Distance::Distance(0)
    } else {
        distance_sum(
            dead_head_total(m, nw, n - 1),
            dead_head_distance_of(nw, m.tours[m.vehicle_ids[n - 1].idx()].nodes),
        )
    }
}

/// What one vehicle adds to the seat distance: the metres of its tour times
/// its seats, and the largest count for a tour of infinite length.
pub open spec fn seat_distance_of(m: ScheduleModel, nw: &Network, k: Idx) -> int {
    match distance_sum(
        service_distance(nw, m.tours[k].nodes),
        dead_head_distance_of(nw, m.tours[k].nodes),
    ) {
        Distance::Distance(d) => d * m.vehicles[k].seats,
        Distance::Infinity => u64::MAX as int,
    }
}

/// The seat distance of the first `n` vehicles of the schedule.
pub open spec fn seat_distance(m: ScheduleModel, nw: &Network, n: int) -> int
    decreases n,
{
    if n <= 0 {
        0
    } else {
        seat_distance(m, nw, n - 1) + seat_distance_of(m, nw, m.vehicle_ids[n - 1].idx())
    }
}

/// A count cut off at the largest that 64 bits hold.
pub open spec fn clip64(x: int) -> u64 {
    if x >= u64::MAX {
        u64::MAX
    } else if x <= 0 {
        0
    } else {
        x as u64
    }
}

/// A list of ids in rising order is no longer than there are numbers.
pub proof fn lemma_few_ids(ids: Seq<VehicleIdx>, i: int)
    requires
        forall|a: int, b: int|
            #![trigger ids[a], ids[b]]
            0 <= a < b < ids.len() ==> ids[a].idx() < ids[b].idx(),
        0 <= i < ids.len(),
    ensures
        i <= ids[i].idx(),
        ids.len() <= 0x10000,
    decreases i,
{
    if i > 0 {
        lemma_few_ids(ids, i - 1);
        assert(ids[i - 1].idx() < ids[i].idx());
    }
    if ids.len() > 0x10000 {
        lemma_few_ids_at(ids, 0x10000);
    }
}

proof fn lemma_few_ids_at(ids: Seq<VehicleIdx>, i: int)
    requires
        forall|a: int, b: int|
            #![trigger ids[a], ids[b]]
            0 <= a < b < ids.len() ==> ids[a].idx() < ids[b].idx(),
        0 <= i < ids.len(),
    ensures
        i <= ids[i].idx(),
    decreases i,
{
    if i > 0 {
        lemma_few_ids_at(ids, i - 1);
        assert(ids[i - 1].idx() < ids[i].idx());
    }
}

/// No passenger is without a seat exactly if every trip has seats for all
/// its passengers.
pub proof fn lemma_unserved_zero(m: ScheduleModel, nw: &Network, n: int)
    requires
        0 <= n <= 0x10000,
    ensures
        unserved(m, nw, n) >= 0,
        unserved(m, nw, n) == 0 <==> forall|i: int|
            0 <= i < n ==> seats_sum(m.formations[NodeIdx::Service(i as Idx)]) >= #[trigger] nw.spec_demand(NodeIdx::Service(i as Idx)),
    decreases n,
{
    if n > 0 {
        lemma_unserved_zero(m, nw, n - 1);
        let last = NodeIdx::Service((n - 1) as Idx);
        if unserved(m, nw, n) == 0 {
            assert forall|i: int| 0 <= i < n implies seats_sum(
                m.formations[NodeIdx::Service(i as Idx)],
            ) >= #[trigger] nw.spec_demand(NodeIdx::Service(i as Idx)) by {
                if i == n - 1 {
                    assert(unserved_at(m, nw, last) == 0);
                }
            }
        } else {
            if unserved(m, nw, n - 1) == 0 {
                assert(unserved_at(m, nw, last) > 0);
                assert(seats_sum(m.formations[NodeIdx::Service((n - 1) as Idx)]) < nw.spec_demand(
                    NodeIdx::Service((n - 1) as Idx),
                ));
            }
        }
    }
}

impl Schedule {
    pub fn get_network(&self) -> (nw: &Network)
        ensures
            *nw == self.spec_network(),
    {
        &self.network
    }

    pub fn get_vehicle_types(&self) -> (vt: &VehicleTypes)
        ensures
            *vt == self.spec_vehicle_types(),
    {
        &self.vehicle_types
    }

    /// The number that the next vehicle or dummy gets, or the greatest
    /// number if none is left.
    pub fn counter(&self) -> (r: u16)
        ensures
            r == if self@.counter <= 0xffff {
                self@.counter
            } else {
                0xffff
            },
    {
        if self.vehicle_counter > 0xffff {
            0xffff
        } else {
            self.vehicle_counter as u16
        }
    }

    pub fn number_of_vehicles(&self) -> (n: usize)
        ensures
            n == self@.vehicles.dom().len(),
    {
        vehicle_map_len(&self.vehicles)
    }

    /// The ids of the real vehicles in rising order.
    pub fn vehicles_iter(&self) -> (r: &Vec<VehicleIdx>)
        ensures
            r@ == self@.vehicle_ids,
    {
        &self.vehicle_ids_sorted
    }

    pub open spec fn spec_is_vehicle(&self, vehicle: VehicleIdx) -> bool {
        vehicle is Vehicle && self@.vehicles.contains_key(vehicle.idx())
    }

    pub open spec fn spec_is_dummy(&self, vehicle: VehicleIdx) -> bool {
        vehicle is Dummy && self@.dummy_tours.contains_key(vehicle.idx())
    }

    pub fn is_vehicle(&self, vehicle: VehicleIdx) -> (b: bool)
        ensures
            b == self.spec_is_vehicle(vehicle),
    {
        match vehicle {
            VehicleIdx::Vehicle(k) => vehicle_map_get(&self.vehicles, k).is_some(),
            VehicleIdx::Dummy(_) => false,
        }
    }

    pub fn get_vehicle(&self, vehicle: VehicleIdx) -> (r: Result<Vehicle, ScheduleError>)
        ensures
            match r {
                Ok(v) => self.spec_is_vehicle(vehicle) && v == self@.vehicles[vehicle.idx()],
                Err(e) => !self.spec_is_vehicle(vehicle) && e == ScheduleError::NotAVehicle(vehicle),
            },
    {
        match vehicle {
            VehicleIdx::Vehicle(k) => match vehicle_map_get(&self.vehicles, k) {
                Some(v) => Ok(v),
                None => Err(ScheduleError::NotAVehicle(vehicle)),
            },
            VehicleIdx::Dummy(_) => Err(ScheduleError::NotAVehicle(vehicle)),
        }
    }

    /// The type of a real vehicle of the schedule.
    pub fn vehicle_type_of(&self, vehicle: VehicleIdx) -> (t: VehicleTypeIdx)
        requires
            self.spec_is_vehicle(vehicle),
        ensures
            t == self@.vehicles[vehicle.idx()].type_id,
    {
        match self.get_vehicle(vehicle) {
            Ok(v) => v.type_id,
            Err(_) => VehicleTypeIdx(0),
        }
    }

    pub fn is_dummy(&self, vehicle: VehicleIdx) -> (b: bool)
        ensures
            b == self.spec_is_dummy(vehicle),
    {
        match vehicle {
            VehicleIdx::Dummy(k) => tour_map_get(&self.dummy_tours, k).is_some(),
            VehicleIdx::Vehicle(_) => false,
        }
    }

    pub fn is_vehicle_or_dummy(&self, vehicle: VehicleIdx) -> (b: bool)
        ensures
            b == (self.spec_is_vehicle(vehicle) || self.spec_is_dummy(vehicle)),
    {
        self.is_vehicle(vehicle) || self.is_dummy(vehicle)
    }

    pub fn number_of_dummy_tours(&self) -> (n: usize)
        ensures
            n == self@.dummy_tours.dom().len(),
    {
        tour_map_len(&self.dummy_tours)
    }

    /// The ids of the dummies in rising order.
    pub fn dummy_iter(&self) -> (r: &Vec<VehicleIdx>)
        ensures
            r@ == self@.dummy_ids,
    {
        &self.dummy_ids_sorted
    }

    /// The tour of a vehicle or of a dummy.
    pub fn tour_of(&self, vehicle: VehicleIdx) -> (r: Result<&Tour, ScheduleError>)
        ensures
            match r {
                Ok(t) => match vehicle {
                    VehicleIdx::Vehicle(k) => self@.tours.contains_key(k) && t@ == self@.tours[k],
                    VehicleIdx::Dummy(k) => self@.dummy_tours.contains_key(k) && t@
                        == self@.dummy_tours[k],
                },
                Err(e) => e == ScheduleError::UnknownVehicle(vehicle) && match vehicle {
                    VehicleIdx::Vehicle(k) => !self@.tours.contains_key(k),
                    VehicleIdx::Dummy(k) => !self@.dummy_tours.contains_key(k),
                },
            },
    {
        let found = match vehicle {
            VehicleIdx::Vehicle(k) => tour_map_get(&self.tours, k),
            VehicleIdx::Dummy(k) => tour_map_get(&self.dummy_tours, k),
        };
        match found {
            Some(t) => Ok(t),
            None => Err(ScheduleError::UnknownVehicle(vehicle)),
        }
    }

    /// The train formation of a trip or slot.
    pub fn train_formation_of(&self, node: NodeIdx) -> (f: &TrainFormation)
        requires
            self.wf(),
            self.spec_network().coverable(node),
        ensures
            f@ == self@.formations[node],
    {
        assert(self@.formations.contains_key(node));
        formation_map_get(&self.train_formations, node_key_of(node)).unwrap()
    }

    /// How many vehicles of a type start at a depot.
    pub fn number_of_vehicles_of_same_type_spawned_at(&self, depot: DepotIdx, vehicle_type: VehicleTypeIdx) -> (n:
        VehicleCount)
        requires
            self.wf(),
        ensures
            n == self@.spawned[(depot.0, vehicle_type.0)].len(),
    {
        proof {
            assert(self@.spawned[(depot.0, vehicle_type.0)].finite());
            lemma_id_set_small(self@.spawned[(depot.0, vehicle_type.0)]);
        }
        match usage_map_get(&self.depot_usage, (depot.0, vehicle_type.0)) {
            Some(u) => id_set_len(&u.spawned) as VehicleCount,
            None => 0,
        }
    }

    /// How many vehicles of a type end at a depot.
    pub fn number_of_vehicles_of_same_type_despawned_at(&self, depot: DepotIdx, vehicle_type: VehicleTypeIdx) -> (n:
        VehicleCount)
        requires
            self.wf(),
        ensures
            n == self@.despawned[(depot.0, vehicle_type.0)].len(),
    {
        proof {
            assert(self@.despawned[(depot.0, vehicle_type.0)].finite());
            lemma_id_set_small(self@.despawned[(depot.0, vehicle_type.0)]);
        }
        match usage_map_get(&self.depot_usage, (depot.0, vehicle_type.0)) {
            Some(u) => id_set_len(&u.despawned) as VehicleCount,
            None => 0,
        }
    }

    /// How many more vehicles of a type start at a depot than end there.
    pub fn depot_balance(&self, depot: DepotIdx, vehicle_type: VehicleTypeIdx) -> (b: i32)
        requires
            self.wf(),
        ensures
            b == balance(self@, depot.0, vehicle_type.0),
            -0x10000 <= b <= 0x10000,
    {
        let a = self.number_of_vehicles_of_same_type_spawned_at(depot, vehicle_type);
        let b = self.number_of_vehicles_of_same_type_despawned_at(depot, vehicle_type);
        proof {
            lemma_id_set_small(self@.spawned[(depot.0, vehicle_type.0)]);
            lemma_id_set_small(self@.despawned[(depot.0, vehicle_type.0)]);
        }
        a as i32 - b as i32
    }

    /// The sum, over all depots and all types of the pool, of how far the
    /// number of vehicles that start there is from the number that end there.
    pub fn total_depot_balance_violation(&self) -> (v: u64)
        requires
            self.wf(),
        ensures
            v == balance_violation(
                self@,
                self.spec_network().spec_depots().len() as int,
                self.spec_vehicle_types().ids(),
            ),
    {
        let depots = self.network.number_of_depots();
        let types = self.vehicle_types.iter();
        let ghost m = self@;
        proof {
            assert(depots <= 0x10000) by {
                assert(self.spec_network().wf());
            }
            self.spec_vehicle_types().lemma_few_types();
        }
        let mut total: u64 = 0;
        let mut d: usize = 0;
        while d < depots
            invariant
                self.wf(),
                m == self@,
                d <= depots <= 0x10000,
                types@ == self.spec_vehicle_types().ids(),
                types@.len() <= 0x10000,
                total == balance_violation(m, d as int, types@),
                total <= d * types@.len() * 0x10000,
            decreases depots - d,
        {
            let mut sum: u64 = 0;
            let mut i: usize = 0;
            while i < types.len()
                invariant
                    self.wf(),
                    m == self@,
                    d < depots <= 0x10000,
                    i <= types@.len() <= 0x10000,
                    sum == depot_violation(m, d as Idx, types@, i as int),
                    sum <= i * 0x10000,
                decreases types.len() - i,
            {
                let b = self.depot_balance(DepotIdx(d as Idx), types[i]);
                let a: u64 = if b < 0 {
                    (-b) as u64
                } else {
                    b as u64
                };
                sum = sum + a;
                i += 1;
            }
            proof {
                assert(d * types@.len() * 0x10000 + types@.len() * 0x10000 == (d + 1) * types@.len()
                    * 0x10000) by (nonlinear_arith);
                assert((d + 1) * types@.len() * 0x10000 <= 0x10000 * 0x10000 * 0x10000) by (nonlinear_arith)
                    requires
                        0 <= d + 1 <= 0x10000,
                        0 <= types@.len() <= 0x10000,
                ;
                assert(sum <= types@.len() * 0x10000);
            }
            total = total + sum;
            d += 1;
        }
        total
    }

    /// Whether one more vehicle of a type can start at a depot.
    pub fn can_depot_spawn_vehicle(&self, start_depot: NodeIdx, vehicle_type_id: VehicleTypeIdx) -> (b: bool)
        requires
            self.wf(),
            start_depot.is_depot(),
        ensures
            b == (self@.spawned[(start_depot.idx(), vehicle_type_id.0)].len()
                < self.spec_network().spec_capacity_of(
                DepotIdx(start_depot.idx()),
                vehicle_type_id,
            )),
    {
        let depot = self.network.get_depot_id(start_depot);
        let capacity = self.network.capacity_of(depot, vehicle_type_id);
        let used = self.number_of_vehicles_of_same_type_spawned_at(depot, vehicle_type_id);
        used < capacity
    }

    /// Whether one more vehicle of the type starting at the depot would
    /// bring the depot's balance closer to zero.
    pub fn reduces_spawning_at_depot_violation(&self, vehicle_type: VehicleTypeIdx, depot: DepotIdx) -> (b: bool)
        requires
            self.wf(),
        ensures
            b == (balance(self@, depot.0, vehicle_type.0) < 0),
    {
        self.depot_balance(depot, vehicle_type) < 0
    }

    /// Whether one more vehicle of the type ending at the depot would bring
    /// the depot's balance closer to zero.
    pub fn reduces_despawning_at_depot_violation(&self, vehicle_type: VehicleTypeIdx, depot: DepotIdx) -> (b:
        bool)
        requires
            self.wf(),
        ensures
            b == (balance(self@, depot.0, vehicle_type.0) > 0),
    {
        self.depot_balance(depot, vehicle_type) > 0
    }

    /// Whether a trip has seats for all its passengers.
    pub fn is_fully_covered(&self, service_trip: NodeIdx) -> (b: bool)
        requires
            self.wf(),
            self.spec_network().coverable(service_trip),
        ensures
            b == (seats_sum(self@.formations[service_trip]) >= self.spec_network().spec_demand(
                service_trip,
            )),
    {
        proof {
            lemma_sums_not_negative(self@.formations[service_trip]);
        }
        self.train_formation_of(service_trip).seats() >= self.network.demand(service_trip)
    }

    /// The passengers of all trips that find no seat. There is none exactly
    /// if every trip has seats for all its passengers.
    pub fn number_of_unserved_passengers(&self) -> (p: u64)
        requires
            self.wf(),
        ensures
            p == unserved(self@, &self.spec_network(), self.spec_network().spec_services().len() as int),
            p == 0 <==> forall|i: int|
                0 <= i < self.spec_network().spec_services().len() ==> seats_sum(
                    self@.formations[NodeIdx::Service(i as Idx)],
                ) >= #[trigger] self.spec_network().spec_demand(NodeIdx::Service(i as Idx)),
    {
        let n = self.network.number_of_service_nodes();
        let ghost m = self@;
        let ghost nw = self.spec_network();
        proof {
            assert(nw.wf());
            lemma_unserved_zero(m, &nw, n as int);
        }
        let mut total: u64 = 0;
        let mut i: usize = 0;
        while i < n
            invariant
                self.wf(),
                m == self@,
                nw == self.spec_network(),
                i <= n <= 0x10000,
                n == nw.spec_services().len(),
                total == unserved(m, &nw, i as int),
                total <= i * 0x1_0000_0000,
            decreases n - i,
        {
            let node = NodeIdx::Service(i as Idx);
            let demand = self.network.demand(node);
            let served = self.train_formation_of(node).seats();
            proof {
                lemma_sums_not_negative(m.formations[node]);
            }
            let missing: u64 = if served > demand {
                0
            } else {
                (demand - served) as u64
            };
            assert(missing == unserved_at(m, &nw, node));
            total = total + missing;
            i += 1;
        }
        total
    }

    /// The distance that all vehicles together run empty.
    pub fn total_dead_head_distance(&self) -> (d: Distance)
        requires
            self.wf(),
        ensures
            d == dead_head_total(self@, &self.spec_network(), self@.vehicle_ids.len() as int),
    {
        let ghost m = self@;
        let ghost nw = self.spec_network();
        let mut total = Distance::Distance(0);
        let mut i: usize = 0;
        while i < self.vehicle_ids_sorted.len()
            invariant
                self.wf(),
                m == self@,
                nw == self.spec_network(),
                i <= self.vehicle_ids_sorted@.len(),
                total == dead_head_total(m, &nw, i as int),
            decreases self.vehicle_ids_sorted.len() - i,
        {
            let id = self.vehicle_ids_sorted[i];
            assert(m.vehicle_ids[i as int] == id);
            assert(m.vehicles.dom().contains(id.idx()));
            assert(m.vehicles.contains_key(id.idx()));
            assert(m.tours.contains_key(id.idx()));
            let tour = tour_map_get(&self.tours, id.idx()).unwrap();
            total = total.plus(tour.dead_head_distance(&self.network));
            i += 1;
        }
        total
    }

    /// The seats of every vehicle times the metres of its tour, summed up
    /// and cut off at the largest count.
    pub fn seat_distance_traveled(&self) -> (d: u64)
        requires
            self.wf(),
        ensures
            d == clip64(seat_distance(self@, &self.spec_network(), self@.vehicle_ids.len() as int)),
    {
        let ghost m = self@;
        let ghost nw = self.spec_network();
        let n = self.vehicle_ids_sorted.len();
        proof {
            if n > 0 {
                lemma_few_ids(m.vehicle_ids, 0);
            }
        }
        let mut total: u128 = 0;
        let mut i: usize = 0;
        while i < n
            invariant
                self.wf(),
                m == self@,
                nw == self.spec_network(),
                i <= n <= 0x10000,
                n == self.vehicle_ids_sorted@.len(),
                total == seat_distance(m, &nw, i as int),
                total <= i * 0x1_0000_0000_0000_0000_0000_0000,
            decreases n - i,
        {
            let id = self.vehicle_ids_sorted[i];
            assert(m.vehicle_ids[i as int] == id);
            assert(m.vehicles.dom().contains(id.idx()));
            assert(m.vehicles.contains_key(id.idx()));
            assert(m.tours.contains_key(id.idx()));
            let tour = tour_map_get(&self.tours, id.idx()).unwrap();
            let vehicle = vehicle_map_get(&self.vehicles, id.idx()).unwrap();
            let term: u128 = match tour.total_distance(&self.network) {
                Distance::Distance(d) => {
                    assert(0 <= d * vehicle.seats <= 0x1_0000_0000_0000_0000 * 0x1_0000_0000) by (nonlinear_arith)
                        requires
                            0 <= d <= 0x1_0000_0000_0000_0000,
                            0 <= vehicle.seats <= 0x1_0000_0000,
                    ;
                    d as u128 * vehicle.seats as u128
                },
                Distance::Infinity => u64::MAX as u128,
            };
            assert(term == seat_distance_of(m, &nw, id.idx()));
            assert((i + 1) * 0x1_0000_0000_0000_0000_0000_0000 <= 0x10000
                * 0x1_0000_0000_0000_0000_0000_0000) by (nonlinear_arith)
                requires
                    i + 1 <= 0x10000,
            ;
            total = total + term;
            i += 1;
        }
        if total >= u64::MAX as u128 {
            u64::MAX
        } else {
            total as u64
        }
    }

    /// The nodes of a receiver's tour that would give way to the stretch
    /// that a segment names in another tour.
    pub fn conflict(&self, segment: Segment, receiver: VehicleIdx) -> (r: Result<Option<Path>, ScheduleError>)
        requires
            self.wf(),
            self.spec_network().contains(segment.start()),
            self.spec_network().contains(segment.end()),
        ensures
            match r {
                Ok(p) => {
                    let nodes = match receiver {
                        VehicleIdx::Vehicle(k) => self@.tours[k].nodes,
                        VehicleIdx::Dummy(k) => self@.dummy_tours[k].nodes,
                    };
                    let gone = displaced(&self.spec_network(), nodes, segment.start(), segment.end());
                    &&& (self.spec_is_vehicle(receiver) || self.spec_is_dummy(receiver))
                    &&& p.is_some() == covers_something(gone)
                    &&& p matches Some(path) ==> path@ == gone
                },
                Err(e) => e == ScheduleError::UnknownVehicle(receiver) && !self.spec_is_vehicle(
                    receiver,
                ) && !self.spec_is_dummy(receiver),
            },
    {
        match self.tour_of(receiver) {
            Err(e) => {
                proof {
                    self.lemma_same_keys();
                }
                Err(e)
            },
            Ok(t) => {
                proof {
                    self.lemma_same_keys();
                }
                Ok(t.conflict(segment, &self.network))
            },
        }
    }

    /// No depot of a consistent schedule has let more vehicles of a type
    /// start than it has room for.
    pub proof fn lemma_capacity_respected(&self, depot: DepotIdx, vehicle_type: VehicleTypeIdx)
        requires
            self.wf(),
        ensures
            self@.spawned[(depot.0, vehicle_type.0)].len() <= self.spec_network().spec_capacity_of(
                depot,
                vehicle_type,
            ),
    {
    }

    /// Every trip of a consistent schedule has seats for all its passengers,
    /// or some passenger is without a seat.
    pub proof fn lemma_seats_or_unserved(&self, i: int)
        requires
            self.wf(),
            0 <= i < self.spec_network().spec_services().len(),
        ensures
            seats_sum(self@.formations[NodeIdx::Service(i as Idx)]) >= self.spec_network().spec_demand(
                NodeIdx::Service(i as Idx),
            ) || unserved(
                self@,
                &self.spec_network(),
                self.spec_network().spec_services().len() as int,
            ) > 0,
    {
        lemma_unserved_zero(
            self@,
            &self.spec_network(),
            self.spec_network().spec_services().len() as int,
        );
    }

    /// The vehicles are the keys of the tours.
    pub proof fn lemma_same_keys(&self)
        requires
            self.wf(),
        ensures
            forall|k: Idx| self@.vehicles.contains_key(k) <==> self@.tours.contains_key(k),
    {
    }
}

} // verus!
