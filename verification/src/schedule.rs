//! A schedule: the vehicles in use, the tour of each, the train formation of
//! every trip and slot, and which vehicles start and end at which depot. A
//! schedule is a snapshot: what changes it gives a new schedule and leaves
//! the old one as it was.

use vstd::prelude::*;
use std::sync::Arc;
use crate::base_types::{DepotIdx, Idx, NodeIdx, PassengerCount, VehicleCount, VehicleIdx, VehicleTypeIdx};
use crate::chain::{is_chain, TourError};
use crate::config::Config;
use crate::network::Network;
use crate::persistent::{formation_map_clone, tour_map_clone, usage_map_clone, vehicle_map_clone, formation_entries, formation_map_get, formation_map_new, formation_map_update, id_set_contains, id_set_len, tour_entries, tour_map_get, tour_map_len, tour_map_new, usage_entries, usage_map_get, usage_map_new, vehicle_entries, vehicle_map_get, vehicle_map_len, vehicle_map_new, DepotUse, DepotUseModel};
use crate::tour::{is_dummy_tour, is_vehicle_tour, Tour, TourModel};
use crate::train_formation::{clip, has_id, ids_distinct, seats_sum, TrainFormation, Vehicle};
use crate::vehicle_types::VehicleTypes;

use self::model::{despawned_by_key, formations_by_node, lemma_node_key_injective, node_key, schedule_ok, spawned_by_key, ScheduleModel};

pub mod add_path;
pub mod consistency;
pub mod depots;
pub mod fit;
pub mod fleet;
pub mod formation_laws;
pub mod model;
pub mod modifications;
pub mod neighborhood;
pub mod parts;
pub mod queries;
pub mod reassign;
pub mod reassign_model;
pub mod steps;
pub mod transfer;

verus! {

pub struct Schedule {
    /// The real vehicles, by the number of their id.
    vehicles: im::HashMap<Idx, Vehicle>,
    /// The tour of each real vehicle.
    tours: im::HashMap<Idx, Tour>,
    /// The train formation of every trip and slot, by the key of the node.
    /// A node that no vehicle covers has the empty formation.
    train_formations: im::HashMap<u32, TrainFormation>,
    /// By depot and vehicle type: the vehicles of the type that start at the
    /// depot, and those that end there.
    depot_usage: im::HashMap<(Idx, Idx), DepotUse>,
    /// The tours of the dummies: trips and slots that wait for a vehicle.
    dummy_tours: im::HashMap<Idx, Tour>,
    /// The number that the next vehicle or dummy gets.
    vehicle_counter: usize,
    vehicle_ids_sorted: Vec<VehicleIdx>,
    dummy_ids_sorted: Vec<VehicleIdx>,
    config: Arc<Config>,
    vehicle_types: Arc<VehicleTypes>,
    network: Arc<Network>,
}

impl View for Schedule {
    type V = ScheduleModel;

    closed spec fn view(&self) -> ScheduleModel {
        ScheduleModel {
            vehicles: vehicle_entries(self.vehicles),
            tours: tour_entries(self.tours),
            dummy_tours: tour_entries(self.dummy_tours),
            formations: formations_by_node(formation_entries(self.train_formations)),
            spawned: spawned_by_key(usage_entries(self.depot_usage)),
            despawned: despawned_by_key(usage_entries(self.depot_usage)),
            vehicle_ids: self.vehicle_ids_sorted@,
            dummy_ids: self.dummy_ids_sorted@,
            counter: self.vehicle_counter as nat,
        }
    }
}

/// Why a schedule cannot be changed as asked.
#[derive(Debug, Clone, Copy, PartialEq, Eq, Structural)]
pub enum ScheduleError {
    /// A tour would not be feasible.
    TourInfeasible(TourError),
    /// No depot has room for one more vehicle of the type.
    NoCapacity(VehicleTypeIdx),
    /// The pool has no such vehicle type.
    UnknownVehicleType(VehicleTypeIdx),
    /// The id is not the id of a real vehicle of the schedule.
    NotAVehicle(VehicleIdx),
    /// The id is not the id of a dummy of the schedule.
    NotADummy(VehicleIdx),
    /// The id is neither the id of a vehicle nor of a dummy of the schedule.
    UnknownVehicle(VehicleIdx),
    /// A vehicle cannot hand a segment over to itself.
    SameVehicle(VehicleIdx),
    /// The receiver has nodes that would have to give way.
    Conflict,
    /// All numbers for vehicles and dummies are used up.
    OutOfIds,
    /// Vehicles of the type have no seats: they serve no passenger.
    NoSeats(VehicleTypeIdx),
}

/// The key under which the formation of a node is kept.
pub fn node_key_of(n: NodeIdx) -> (k: u32)
    ensures
        k == node_key(n),
{
    match n {
        NodeIdx::StartDepot(i) => i as u32,
        NodeIdx::Service(i) => 0x10000 + i as u32,
        NodeIdx::Maintenance(i) => 0x20000 + i as u32,
        NodeIdx::EndDepot(i) => 0x30000 + i as u32,
    }
}

impl Schedule {
    /// The schedule without vehicles: every trip and slot has the empty
    /// formation.
    pub fn empty(vehicle_types: Arc<VehicleTypes>, network: Arc<Network>, config: Arc<Config>) -> (s:
        Schedule)
        requires
            network.wf(),
            vehicle_types.wf(),
        ensures
            s.wf(),
            s.spec_network() == *network,
            s.spec_vehicle_types() == *vehicle_types,
            s.spec_config() == *config,
            s@.vehicles == Map::<Idx, Vehicle>::empty(),
            s@.tours == Map::<Idx, TourModel>::empty(),
            s@.dummy_tours == Map::<Idx, TourModel>::empty(),
            forall|n: NodeIdx| network.coverable(n) ==> #[trigger] s@.formations[n] == Seq::<Vehicle>::empty(),
            forall|k: (Idx, Idx)| #[trigger] s@.spawned[k] == Set::<Idx>::empty(),
            forall|k: (Idx, Idx)| #[trigger] s@.despawned[k] == Set::<Idx>::empty(),
            s@.vehicle_ids == Seq::<VehicleIdx>::empty(),
            s@.dummy_ids == Seq::<VehicleIdx>::empty(),
            s@.counter == 0,
    {
        let nodes = network.coverable_nodes();
        let mut train_formations = formation_map_new();
        let mut i: usize = 0;
        while i < nodes.len()
            invariant
                i <= nodes.len(),
                forall|n: NodeIdx|
                    formation_entries(train_formations).contains_key(#[trigger] node_key(n)) <==> exists|
                        j: int,
                    | 0 <= j < i && nodes@[j] == n,
                forall|n: NodeIdx|
                    formation_entries(train_formations).contains_key(#[trigger] node_key(n))
                        ==> formation_entries(train_formations)[node_key(n)] == Seq::<Vehicle>::empty(),
            decreases nodes.len() - i,
        {
            let ghost before = formation_entries(train_formations);
            let n = nodes[i];
            train_formations =
            formation_map_update(&train_formations, node_key_of(n), TrainFormation::empty());
            proof {
                assert forall|x: NodeIdx|
                    formation_entries(train_formations).contains_key(#[trigger] node_key(x)) <==> exists|
                        j: int,
                    | 0 <= j < i + 1 && nodes@[j] == x by {
                    lemma_node_key_injective(x, n);
                    if before.contains_key(node_key(x)) {
                        let j = choose|j: int| 0 <= j < i && nodes@[j] == x;
                        assert(0 <= j < i + 1 && nodes@[j] == x);
                    }
                    if x == n {
                        assert(nodes@[i as int] == x);
                    }
                }
            }
            i += 1;
        }
        let s = Schedule {
            vehicles: vehicle_map_new(),
            tours: tour_map_new(),
            train_formations,
            depot_usage: usage_map_new(),
            dummy_tours: tour_map_new(),
            vehicle_counter: 0,
            vehicle_ids_sorted: Vec::new(),
            dummy_ids_sorted: Vec::new(),
            config,
            vehicle_types,
            network,
        };
        proof {
            let m = s@;
            assert forall|n: NodeIdx| #[trigger] m.formations.contains_key(n) <==> network.coverable(n) by {
                if network.coverable(n) {
                    assert(nodes@.contains(n));
                    let j = choose|j: int| 0 <= j < nodes@.len() && nodes@[j] == n;
                }
                if m.formations.contains_key(n) {
                    let j = choose|j: int| 0 <= j < nodes@.len() && nodes@[j] == n;
                    assert(nodes@.contains(n));
                }
            }
            assert forall|n: NodeIdx, k: Idx| network.coverable(n) implies (#[trigger] has_id(
                m.formations[n],
                VehicleIdx::Vehicle(k),
            ) <==> (m.tours.contains_key(k) && m.tours[k].nodes.contains(n))) by {
                assert(m.formations[n] == Seq::<Vehicle>::empty());
            }
            assert(m.vehicle_ids.len() == 0);
            assert(m.dummy_ids.len() == 0);
        }
        s
    }

    pub closed spec fn spec_network(&self) -> Network {
        *self.network
    }

    pub closed spec fn spec_vehicle_types(&self) -> VehicleTypes {
        *self.vehicle_types
    }

    pub closed spec fn spec_config(&self) -> Config {
        *self.config
    }

    /// Whether the schedule is consistent: its parts agree with each other
    /// and with the network.
    pub open spec fn wf(&self) -> bool {
        &&& self.spec_network().wf()
        &&& self.spec_vehicle_types().wf()
        &&& schedule_ok(self@, &self.spec_network(), &self.spec_vehicle_types())
    }
}

impl Clone for Schedule {
    /// A schedule with the same vehicles, tours and formations, of the same
    /// network, pool of types and configuration.
    fn clone(&self) -> (r: Schedule)
        ensures
            r@ == self@,
            r.spec_network() == self.spec_network(),
            r.spec_vehicle_types() == self.spec_vehicle_types(),
            r.spec_config() == self.spec_config(),
            self.wf() ==> r.wf(),
    {
        Schedule {
            vehicles: vehicle_map_clone(&self.vehicles),
            tours: tour_map_clone(&self.tours),
            train_formations: formation_map_clone(&self.train_formations),
            depot_usage: usage_map_clone(&self.depot_usage),
            dummy_tours: tour_map_clone(&self.dummy_tours),
            vehicle_counter: self.vehicle_counter,
            vehicle_ids_sorted: crate::schedule::modifications::copy_ids(&self.vehicle_ids_sorted),
            dummy_ids_sorted: crate::schedule::modifications::copy_ids(&self.dummy_ids_sorted),
            config: self.config.clone(),
            vehicle_types: self.vehicle_types.clone(),
            network: self.network.clone(),
        }
    }
}

} // verus!
