//! What a schedule is to the contracts, and what makes it consistent.

use vstd::prelude::*;
use crate::base_types::{DepotIdx, Idx, NodeIdx, VehicleIdx, VehicleTypeIdx};
use crate::network::Network;
use crate::persistent::DepotUseModel;
use crate::tour::{is_dummy_tour, is_vehicle_tour, TourModel};
use crate::train_formation::{has_id, ids_distinct, Vehicle};
use crate::vehicle_types::VehicleTypes;

verus! {

/// A schedule as the contracts see it.
pub struct ScheduleModel {
    /// The real vehicles, by the number of their id.
    pub vehicles: Map<Idx, Vehicle>,
    /// The tour of each real vehicle.
    pub tours: Map<Idx, TourModel>,
    /// The tour of each dummy.
    pub dummy_tours: Map<Idx, TourModel>,
    /// The train formation of each trip and slot.
    pub formations: Map<NodeIdx, Seq<Vehicle>>,
    /// For every depot and vehicle type, the vehicles of that type that
    /// start at the depot. The map is total: where no such vehicle is, the
    /// set is empty.
    pub spawned: Map<(Idx, Idx), Set<Idx>>,
    /// For every depot and vehicle type, the vehicles that end at the depot.
    pub despawned: Map<(Idx, Idx), Set<Idx>>,
    /// The ids of the real vehicles in rising order.
    pub vehicle_ids: Seq<VehicleIdx>,
    /// The ids of the dummies in rising order.
    pub dummy_ids: Seq<VehicleIdx>,
    /// The number that the next vehicle or dummy gets.
    pub counter: nat,
}

/// The key under which the formation of a node is kept.
pub open spec fn node_key(n: NodeIdx) -> u32 {
    match n {
        NodeIdx::StartDepot(i) => i as u32,
        NodeIdx::Service(i) => (0x10000 + i) as u32,
        NodeIdx::Maintenance(i) => (0x20000 + i) as u32,
        NodeIdx::EndDepot(i) => (0x30000 + i) as u32,
    }
}

/// Two nodes with one key are one node.
pub proof fn lemma_node_key_injective(a: NodeIdx, b: NodeIdx)
    ensures
        node_key(a) == node_key(b) ==> a == b,
{
}

pub open spec fn formations_by_node(entries: Map<u32, Seq<Vehicle>>) -> Map<NodeIdx, Seq<Vehicle>> {
    Map::new(|n: NodeIdx| entries.contains_key(node_key(n)), |n: NodeIdx| entries[node_key(n)])
}

pub open spec fn spawned_by_key(entries: Map<(Idx, Idx), DepotUseModel>) -> Map<(Idx, Idx), Set<Idx>> {
    Map::total(
        |k: (Idx, Idx)|
            if entries.contains_key(k) {
                entries[k].spawned
            } else {
                Set::empty()
            },
    )
}

pub open spec fn despawned_by_key(entries: Map<(Idx, Idx), DepotUseModel>) -> Map<
    (Idx, Idx),
    Set<Idx>,
> {
    Map::total(
        |k: (Idx, Idx)|
            if entries.contains_key(k) {
                entries[k].despawned
            } else {
                Set::empty()
            },
    )
}

/// Every vehicle has a tour, carries its own id, and is of a type of the
/// pool, with the seats and the capacity of that type.
pub open spec fn vehicles_ok(m: ScheduleModel, vt: &VehicleTypes) -> bool {
    forall|k: Idx| #[trigger]
        m.vehicles.contains_key(k) ==> {
            &&& m.tours.contains_key(k)
            &&& m.vehicles[k].id == VehicleIdx::Vehicle(k)
            &&& vt.types().contains_key(m.vehicles[k].type_id.0)
            &&& m.vehicles[k].seats == vt.types()[m.vehicles[k].type_id.0].spec_seats()
            &&& m.vehicles[k].capacity == vt.types()[m.vehicles[k].type_id.0].spec_capacity()
        }
}

/// Every tour belongs to a vehicle and leads from a start depot over
/// something to an end depot, each node reaching the next.
pub open spec fn tours_ok(m: ScheduleModel, nw: &Network) -> bool {
    forall|k: Idx| #[trigger]
        m.tours.contains_key(k) ==> {
            &&& m.vehicles.contains_key(k)
            &&& !m.tours[k].dummy
            &&& is_vehicle_tour(nw, m.tours[k].nodes)
        }
}

/// Every tour of a dummy is a chain of trips and slots.
pub open spec fn dummies_ok(m: ScheduleModel, nw: &Network) -> bool {
    forall|k: Idx| #[trigger]
        m.dummy_tours.contains_key(k) ==> {
            &&& m.dummy_tours[k].dummy
            &&& is_dummy_tour(nw, m.dummy_tours[k].nodes)
        }
}

/// Whether every member of a formation is a vehicle of the schedule, as the
/// schedule holds it.
pub open spec fn valid_members(vehicles: Map<Idx, Vehicle>, f: Seq<Vehicle>) -> bool {
    forall|j: int|
        0 <= j < f.len() ==> {
            &&& (#[trigger] f[j]).id is Vehicle
            &&& vehicles.contains_key(f[j].id.idx())
            &&& vehicles[f[j].id.idx()] == f[j]
        }
}

/// The trips and slots of the network, and nothing else, have a formation;
/// its members are vehicles of the schedule, none of them twice; and a
/// vehicle is in the formation of a node exactly if its tour holds the node.
pub open spec fn formations_ok(m: ScheduleModel, nw: &Network) -> bool {
    &&& forall|n: NodeIdx| #[trigger] m.formations.contains_key(n) <==> nw.coverable(n)
    &&& forall|n: NodeIdx|
        nw.coverable(n) ==> valid_members(m.vehicles, #[trigger] m.formations[n])
    &&& forall|n: NodeIdx| nw.coverable(n) ==> ids_distinct(#[trigger] m.formations[n])
    &&& forall|n: NodeIdx, k: Idx|
        nw.coverable(n) ==> (#[trigger] has_id(m.formations[n], VehicleIdx::Vehicle(k)) <==> (
        m.tours.contains_key(k) && m.tours[k].nodes.contains(n)))
}

/// The depot at which a tour starts.
pub open spec fn start_depot_of(t: TourModel) -> Idx {
    t.nodes[0].idx()
}

/// The depot at which a tour ends.
pub open spec fn end_depot_of(t: TourModel) -> Idx {
    t.nodes.last().idx()
}

/// A vehicle is counted as starting at a depot exactly if it is of the type
/// and its tour starts there, and likewise for ending. The books have a set
/// of vehicles, if an empty one, for every depot and type.
pub open spec fn usage_ok(m: ScheduleModel) -> bool {
    &&& forall|d: Idx, t: Idx, k: Idx|
        #![trigger m.spawned[(d, t)].contains(k)]
        m.spawned[(d, t)].contains(k) <==> (m.vehicles.contains_key(k) && m.vehicles[k].type_id.0
            == t && start_depot_of(m.tours[k]) == d)
    &&& forall|d: Idx, t: Idx, k: Idx|
        #![trigger m.despawned[(d, t)].contains(k)]
        m.despawned[(d, t)].contains(k) <==> (m.vehicles.contains_key(k)
            && m.vehicles[k].type_id.0 == t && end_depot_of(m.tours[k]) == d)
    &&& forall|d: Idx, t: Idx| (#[trigger] m.spawned[(d, t)]).finite()
    &&& forall|d: Idx, t: Idx| (#[trigger] m.despawned[(d, t)]).finite()
    &&& forall|key: (Idx, Idx)| #[trigger] m.spawned.contains_key(key)
    &&& forall|key: (Idx, Idx)| #[trigger] m.despawned.contains_key(key)
}

/// No depot lets more vehicles of a type start than it has room for.
pub open spec fn capacity_ok(m: ScheduleModel, nw: &Network) -> bool {
    forall|d: Idx, t: Idx|
        (#[trigger] m.spawned[(d, t)]).len() <= nw.spec_capacity_of(DepotIdx(d), VehicleTypeIdx(t))
}

/// Whether `ids` lists the keys of `keys` in rising order, each once, as the
/// ids of dummies or of real vehicles.
pub open spec fn ids_ok(ids: Seq<VehicleIdx>, keys: Set<Idx>, dummy: bool) -> bool {
    &&& forall|i: int|
        0 <= i < ids.len() ==> (#[trigger] ids[i]).is_dummy() == dummy && keys.contains(
            ids[i].idx(),
        )
    &&& forall|i: int, j: int|
        #![trigger ids[i], ids[j]]
        0 <= i < j < ids.len() ==> ids[i].idx() < ids[j].idx()
    &&& forall|k: Idx|
        keys.contains(k) ==> exists|i: int| 0 <= i < ids.len() && (#[trigger] ids[i]).idx() == k
}

/// Every number in use lies below the counter.
pub open spec fn counter_ok(m: ScheduleModel) -> bool {
    &&& forall|k: Idx| #[trigger] m.vehicles.contains_key(k) ==> k < m.counter
    &&& forall|k: Idx| #[trigger] m.dummy_tours.contains_key(k) ==> k < m.counter
}

/// Whether a schedule is consistent with a network and a pool of types.
pub open spec fn schedule_ok(m: ScheduleModel, nw: &Network, vt: &VehicleTypes) -> bool {
    &&& vehicles_ok(m, vt)
    &&& tours_ok(m, nw)
    &&& dummies_ok(m, nw)
    &&& formations_ok(m, nw)
    &&& usage_ok(m)
    &&& capacity_ok(m, nw)
    &&& ids_ok(m.vehicle_ids, m.vehicles.dom(), false)
    &&& ids_ok(m.dummy_ids, m.dummy_tours.dom(), true)
    &&& counter_ok(m)
}

} // verus!
