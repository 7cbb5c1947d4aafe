//! The operations that make a new schedule out of one: a vehicle or a dummy
//! comes or goes.

use vstd::prelude::*;
use crate::base_types::{Idx, NodeIdx, VehicleIdx, VehicleTypeIdx};
use crate::chain::{lemma_chain_distinct, TourError};
use crate::network::Network;
use crate::persistent::{formation_map_clone, tour_map_clone, tour_map_get, tour_map_update, tour_map_without, usage_entries, usage_map_clone, vehicle_map_clone, vehicle_map_get, vehicle_map_update, vehicle_map_without};
use crate::schedule::model::{end_depot_of, schedule_ok, spawned_by_key, start_depot_of, ScheduleModel};
use crate::schedule::parts::{all_different, book_vehicle, find_best_end_depot, find_best_start_depot, hand_over_formations, has_room, is_best_end_depot, is_best_start_depot, lemma_best_depot_unique, spawned_count};
use crate::schedule::steps::{id_position, lemma_spawn_then_delete, lemma_with_vehicle_ok, lemma_without_dummy_ok, lemma_without_vehicle_ok, vehicle_fits, with_vehicle, without_dummy, without_vehicle};
use crate::schedule::{Schedule, ScheduleError};
use crate::tour::{is_vehicle_tour, vehicle_tour_fault, Tour, TourModel};
use crate::train_formation::Vehicle;
use crate::vehicle_types::VehicleTypes;

verus! {

/// The depot at which a vehicle of type `t` best starts a tour whose first
/// trip or slot is `node`, if a depot has room.
pub open spec fn best_start_depot(
    spawned: Map<(Idx, Idx), Set<Idx>>,
    nw: &Network,
    t: Idx,
    node: NodeIdx,
) -> Option<Idx> {
    if exists|d: Idx| is_best_start_depot(spawned, nw, t, node, d) {
        Some(choose|d: Idx| is_best_start_depot(spawned, nw, t, node, d))
    } else {
        None
    }
}

/// The depot at which a tour whose last trip or slot is `node` best ends,
/// if there is a depot.
pub open spec fn best_end_depot(nw: &Network, node: NodeIdx) -> Option<Idx> {
    if exists|d: Idx| is_best_end_depot(nw, node, d) {
        Some(choose|d: Idx| is_best_end_depot(nw, node, d))
    } else {
        None
    }
}

/// The nodes of the tour that a new vehicle of type `t` gets for `nodes`:
/// the best start depot comes before them unless they start at a depot,
/// which then must have room; the best end depot comes behind them unless
/// they end at a depot.
pub open spec fn tour_for_path(
    spawned: Map<(Idx, Idx), Set<Idx>>,
    nw: &Network,
    t: VehicleTypeIdx,
    nodes: Seq<NodeIdx>,
) -> Result<Seq<NodeIdx>, ScheduleError> {
    if nodes.len() == 0 {
        Err(ScheduleError::TourInfeasible(TourError::BadDepotStructure))
    } else if !nw.contains(nodes[0]) {
        Err(ScheduleError::TourInfeasible(TourError::UnknownNode(nodes[0])))
    } else if !nw.contains(nodes.last()) {
        Err(ScheduleError::TourInfeasible(TourError::UnknownNode(nodes.last())))
    } else if nodes[0].is_depot() && !has_room(spawned, nw, t.0, nodes[0].idx()) {
        Err(ScheduleError::NoCapacity(t))
    } else if !nodes[0].is_depot() && best_start_depot(spawned, nw, t.0, nodes[0]) is None {
        Err(ScheduleError::NoCapacity(t))
    } else if !nodes.last().is_depot() && best_end_depot(nw, nodes.last()) is None {
        Err(ScheduleError::NoCapacity(t))
    } else {
        let front = if nodes[0].is_depot() {
            Seq::<NodeIdx>::empty()
        } else {
            seq![NodeIdx::StartDepot(best_start_depot(spawned, nw, t.0, nodes[0])->Some_0)]
        };
        let back = if nodes.last().is_depot() {
            Seq::<NodeIdx>::empty()
        } else {
            seq![NodeIdx::EndDepot(best_end_depot(nw, nodes.last())->Some_0)]
        };
        Ok(front + nodes + back)
    }
}

/// The vehicle and the tour that come of spawning a vehicle of type `t` for
/// `nodes`, or why none comes.
pub open spec fn spawn_outcome(
    m: ScheduleModel,
    nw: &Network,
    vt: &VehicleTypes,
    t: VehicleTypeIdx,
    nodes: Seq<NodeIdx>,
) -> Result<(Vehicle, Seq<NodeIdx>), ScheduleError> {
    if m.counter > 0xffff {
        Err(ScheduleError::OutOfIds)
    } else if !vt.types().contains_key(t.0) {
        Err(ScheduleError::UnknownVehicleType(t))
    } else {
        match tour_for_path(m.spawned, nw, t, nodes) {
            Err(e) => Err(e),
            Ok(tour) => match vehicle_tour_fault(nw, tour) {
                Some(e) => Err(ScheduleError::TourInfeasible(e)),
                None => Ok(
                    (
                        Vehicle {
                            id: VehicleIdx::Vehicle(m.counter as Idx),
                            type_id: t,
                            seats: vt.types()[t.0].spec_seats(),
                            capacity: vt.types()[t.0].spec_capacity(),
                        },
                        tour,
                    ),
                ),
            },
        }
    }
}

/// A copy of a list of ids.
pub fn copy_ids(ids: &Vec<VehicleIdx>) -> (r: Vec<VehicleIdx>)
    ensures
        r@ == ids@,
{
    let mut r: Vec<VehicleIdx> = Vec::new();
    let mut i: usize = 0;
    while i < ids.len()
        invariant
            i <= ids.len(),
            r@ == ids@.subrange(0, i as int),
        decreases ids.len() - i,
    {
        r.push(ids[i]);
        proof {
            assert(r@ =~= ids@.subrange(0, i + 1));
        }
        i += 1;
    }
    proof {
        assert(ids@.subrange(0, ids@.len() as int) =~= ids@);
    }
    r
}

/// A list of ids without the one id that it holds once.
pub fn without_id(ids: &Vec<VehicleIdx>, id: VehicleIdx) -> (r: Vec<VehicleIdx>)
    requires
        exists|i: int| 0 <= i < ids@.len() && ids@[i] == id,
        forall|i: int, j: int|
            #![trigger ids@[i], ids@[j]]
            0 <= i < j < ids@.len() ==> ids@[i] != ids@[j],
    ensures
        r@ == ids@.remove(id_position(ids@, id)),
{
    let mut r = copy_ids(ids);
    let mut p: usize = 0;
    while p < ids.len() && ids[p] != id
        invariant
            p <= ids.len(),
            forall|j: int| 0 <= j < p ==> ids@[j] != id,
        decreases ids.len() - p,
    {
        p += 1;
    }
    proof {
        let w = id_position(ids@, id);
        if p < w {
            assert(ids@[p as int] != ids@[w]);
        }
        if w < p {
            assert(ids@[w] != id);
        }
    }
    r.remove(p);
    r
}

impl Schedule {
    /// The schedule with one more vehicle of the type on a tour over
    /// `path_as_vec`. Where the path does not start at a depot, the vehicle
    /// starts at the nearest depot that has room for it; where the path does
    /// not end at a depot, the vehicle ends at the nearest depot.
    pub fn spawn_vehicle_for_path(&self, vehicle_type_id: VehicleTypeIdx, path_as_vec: Vec<NodeIdx>) -> (r:
        Result<Schedule, ScheduleError>)
        requires
            self.wf(),
        ensures
            match r {
                Ok(s) => {
                    &&& spawn_outcome(
                        self@,
                        &self.spec_network(),
                        &self.spec_vehicle_types(),
                        vehicle_type_id,
                        path_as_vec@,
                    ) matches Ok((v, tour))
                    &&& s@ == with_vehicle(self@, v, tour)
                    &&& s.wf()
                    &&& s.spec_network() == self.spec_network()
                    &&& s.spec_vehicle_types() == self.spec_vehicle_types()
                    &&& s.spec_config() == self.spec_config()
                },
                Err(e) => spawn_outcome(
                    self@,
                    &self.spec_network(),
                    &self.spec_vehicle_types(),
                    vehicle_type_id,
                    path_as_vec@,
                ) == Err::<(Vehicle, Seq<NodeIdx>), ScheduleError>(e),
            },
    {
        let ghost m = self@;
        let ghost given = path_as_vec@;
        let t = vehicle_type_id.0;
        if self.vehicle_counter > 0xffff {
            return Err(ScheduleError::OutOfIds);
        }
        let k = self.vehicle_counter as Idx;
        let vehicle = match Vehicle::new(VehicleIdx::Vehicle(k), vehicle_type_id, &self.vehicle_types) {
            Some(v) => v,
            None => {
                return Err(ScheduleError::UnknownVehicleType(vehicle_type_id));
            },
        };
        let mut nodes = path_as_vec;
        if nodes.len() == 0 {
            return Err(ScheduleError::TourInfeasible(TourError::BadDepotStructure));
        }
        let first = nodes[0];
        let last = nodes[nodes.len() - 1];
        if !self.network.has_node(first) {
            return Err(ScheduleError::TourInfeasible(TourError::UnknownNode(first)));
        }
        if !self.network.has_node(last) {
            return Err(ScheduleError::TourInfeasible(TourError::UnknownNode(last)));
        }
        if first.is_depot() {
            let room = spawned_count(&self.depot_usage, first.idx(), t)
                < self.network.capacity_of(self.network.get_depot_id(first), vehicle_type_id) as usize;
            if !room {
                return Err(ScheduleError::NoCapacity(vehicle_type_id));
            }
        }
        let start = if first.is_depot() {
            None
        } else {
            match find_best_start_depot(&self.depot_usage, &self.network, vehicle_type_id, first) {
                Some(d) => Some(d),
                None => {
                    proof {
                        assert forall|d: Idx| !is_best_start_depot(
                            m.spawned,
                            &self.spec_network(),
                            t,
                            first,
                            d,
                        ) by {
                            assert(!has_room(m.spawned, &self.spec_network(), t, d));
                        }
                    }
                    return Err(ScheduleError::NoCapacity(vehicle_type_id));
                },
            }
        };
        let end = if last.is_depot() {
            None
        } else {
            match find_best_end_depot(&self.network, last) {
                Some(d) => Some(d),
                None => {
                    return Err(ScheduleError::NoCapacity(vehicle_type_id));
                },
            }
        };
        proof {
            if start is Some {
                let d = start->Some_0.idx();
                assert(is_best_start_depot(m.spawned, &self.spec_network(), t, first, d));
                let c = choose|c: Idx|
                    is_best_start_depot(m.spawned, &self.spec_network(), t, first, c);
                lemma_best_depot_unique(m.spawned, &self.spec_network(), t, first, c, d);
            }
            if end is Some {
                let d = end->Some_0.idx();
                assert(is_best_end_depot(&self.spec_network(), last, d));
                let c = choose|c: Idx| is_best_end_depot(&self.spec_network(), last, c);
                lemma_best_depot_unique(m.spawned, &self.spec_network(), t, last, c, d);
            }
        }
        match start {
            Some(d) => {
                nodes.insert(0, d);
            },
            None => {},
        }
        match end {
            Some(d) => {
                nodes.push(d);
            },
            None => {},
        }
        proof {
            let planned = tour_for_path(m.spawned, &self.spec_network(), vehicle_type_id, given);
            assert(planned is Ok);
            assert(nodes@ =~= planned->Ok_0);
        }
        let ghost full = nodes@;
        let tour = match Tour::new(nodes, &self.network) {
            Ok(tour) => tour,
            Err(e) => {
                return Err(ScheduleError::TourInfeasible(e));
            },
        };
        proof {
            assert(is_vehicle_tour(&self.spec_network(), full));
            assert(has_room(m.spawned, &self.spec_network(), t, full[0].idx())) by {
                if start is Some {
                    assert(full[0] == start->Some_0);
                } else {
                    assert(full[0] == given[0]);
                }
            }
            lemma_with_vehicle_ok(
                m,
                &self.spec_network(),
                &self.spec_vehicle_types(),
                vehicle,
                full,
            );
            assert forall|i: int, j: int| #![trigger full[i], full[j]] 0 <= i < j < full.len() implies full[i]
                != full[j] by {
                lemma_chain_distinct(&self.spec_network(), full, i, j);
            }
            assert forall|i: int| 0 <= i < full.len() && !(#[trigger] full[i]).is_depot() implies m.formations.contains_key(
                full[i],
            ) by {
                assert(self.spec_network().contains(full[i]));
                assert(self.spec_network().coverable(full[i]));
            }
        }
        let vehicles = vehicle_map_update(&self.vehicles, k, vehicle);
        let train_formations = hand_over_formations(
            &self.train_formations,
            None,
            Some(vehicle),
            tour.all_nodes_iter(),
        );
        let start_depot = tour.first_node().idx();
        let end_depot = tour.last_node().idx();
        let usage = book_vehicle(&self.depot_usage, (start_depot, t), k, true, true);
        let depot_usage = book_vehicle(&usage, (end_depot, t), k, false, true);
        let tours = tour_map_update(&self.tours, k, tour);
        let mut vehicle_ids_sorted = copy_ids(&self.vehicle_ids_sorted);
        vehicle_ids_sorted.push(VehicleIdx::Vehicle(k));
        let s = Schedule {
            vehicles,
            tours,
            train_formations,
            depot_usage,
            dummy_tours: tour_map_clone(&self.dummy_tours),
            vehicle_counter: self.vehicle_counter + 1,
            vehicle_ids_sorted,
            dummy_ids_sorted: copy_ids(&self.dummy_ids_sorted),
            config: self.config.clone(),
            vehicle_types: self.vehicle_types.clone(),
            network: self.network.clone(),
        };
        proof {
            let want = with_vehicle(m, vehicle, full);
            assert(s@.formations =~= want.formations);
            assert(s@ == want);
        }
        Ok(s)
    }

    /// The schedule without a vehicle and its tour.
    pub fn delete_vehicle(&self, vehicle_id: VehicleIdx) -> (r: Result<Schedule, ScheduleError>)
        requires
            self.wf(),
        ensures
            match r {
                Ok(s) => {
                    &&& self.spec_is_vehicle(vehicle_id)
                    &&& s@ == without_vehicle(self@, vehicle_id.idx())
                    &&& s.wf()
                    &&& s.spec_network() == self.spec_network()
                    &&& s.spec_vehicle_types() == self.spec_vehicle_types()
                    &&& s.spec_config() == self.spec_config()
                },
                Err(e) => !self.spec_is_vehicle(vehicle_id) && e == ScheduleError::NotAVehicle(
                    vehicle_id,
                ),
            },
    {
        let ghost m = self@;
        let vehicle = match self.get_vehicle(vehicle_id) {
            Ok(v) => v,
            Err(e) => {
                return Err(e);
            },
        };
        let k = vehicle_id.idx();
        let t = vehicle.type_id.0;
        assert(m.tours.contains_key(k));
        let tour = tour_map_get(&self.tours, k).unwrap();
        let ghost nodes = tour@.nodes;
        proof {
            lemma_without_vehicle_ok(m, &self.spec_network(), &self.spec_vehicle_types(), k);
            assert forall|i: int, j: int| #![trigger nodes[i], nodes[j]] 0 <= i < j < nodes.len() implies nodes[i]
                != nodes[j] by {
                lemma_chain_distinct(&self.spec_network(), nodes, i, j);
            }
            assert forall|i: int| 0 <= i < nodes.len() && !(#[trigger] nodes[i]).is_depot() implies m.formations.contains_key(
                nodes[i],
            ) && crate::train_formation::has_id(m.formations[nodes[i]], VehicleIdx::Vehicle(k)) by {
                assert(self.spec_network().contains(nodes[i]));
                assert(self.spec_network().coverable(nodes[i]));
                assert(nodes.contains(nodes[i]));
            }
            crate::schedule::steps::lemma_ids_without(
                m.vehicle_ids,
                m.vehicles.dom(),
                false,
                vehicle_id,
            );
            assert forall|i: int, j: int| #![trigger m.vehicle_ids[i], m.vehicle_ids[j]] 0 <= i < j < m.vehicle_ids.len() implies m.vehicle_ids[i]
                != m.vehicle_ids[j] by {
                assert(m.vehicle_ids[i].idx() < m.vehicle_ids[j].idx());
            }
        }
        let train_formations = hand_over_formations(
            &self.train_formations,
            Some(k),
            None,
            tour.all_nodes_iter(),
        );
        let start_depot = tour.first_node().idx();
        let end_depot = tour.last_node().idx();
        let usage = book_vehicle(&self.depot_usage, (start_depot, t), k, true, false);
        let depot_usage = book_vehicle(&usage, (end_depot, t), k, false, false);
        let s = Schedule {
            vehicles: vehicle_map_without(&self.vehicles, k),
            tours: tour_map_without(&self.tours, k),
            train_formations,
            depot_usage,
            dummy_tours: tour_map_clone(&self.dummy_tours),
            vehicle_counter: self.vehicle_counter,
            vehicle_ids_sorted: without_id(&self.vehicle_ids_sorted, vehicle_id),
            dummy_ids_sorted: copy_ids(&self.dummy_ids_sorted),
            config: self.config.clone(),
            vehicle_types: self.vehicle_types.clone(),
            network: self.network.clone(),
        };
        proof {
            let want = without_vehicle(m, k);
            assert(s@.formations =~= want.formations);
            assert(s@ == want);
        }
        Ok(s)
    }

    /// The schedule without a dummy and its tour.
    pub fn delete_dummy(&self, dummy: VehicleIdx) -> (r: Result<Schedule, ScheduleError>)
        requires
            self.wf(),
        ensures
            match r {
                Ok(s) => {
                    &&& self.spec_is_dummy(dummy)
                    &&& s@ == without_dummy(self@, dummy.idx())
                    &&& s.wf()
                    &&& s.spec_network() == self.spec_network()
                    &&& s.spec_vehicle_types() == self.spec_vehicle_types()
                    &&& s.spec_config() == self.spec_config()
                },
                Err(e) => !self.spec_is_dummy(dummy) && e == ScheduleError::NotADummy(dummy),
            },
    {
        let ghost m = self@;
        if !self.is_dummy(dummy) {
            return Err(ScheduleError::NotADummy(dummy));
        }
        let k = dummy.idx();
        proof {
            lemma_without_dummy_ok(m, &self.spec_network(), &self.spec_vehicle_types(), k);
            crate::schedule::steps::lemma_ids_without(
                m.dummy_ids,
                m.dummy_tours.dom(),
                true,
                dummy,
            );
            assert forall|i: int, j: int| #![trigger m.dummy_ids[i], m.dummy_ids[j]] 0 <= i < j < m.dummy_ids.len() implies m.dummy_ids[i]
                != m.dummy_ids[j] by {
                assert(m.dummy_ids[i].idx() < m.dummy_ids[j].idx());
            }
        }
        let s = Schedule {
            vehicles: vehicle_map_clone(&self.vehicles),
            tours: tour_map_clone(&self.tours),
            train_formations: formation_map_clone(&self.train_formations),
            depot_usage: usage_map_clone(&self.depot_usage),
            dummy_tours: tour_map_without(&self.dummy_tours, k),
            vehicle_counter: self.vehicle_counter,
            vehicle_ids_sorted: copy_ids(&self.vehicle_ids_sorted),
            dummy_ids_sorted: without_id(&self.dummy_ids_sorted, dummy),
            config: self.config.clone(),
            vehicle_types: self.vehicle_types.clone(),
            network: self.network.clone(),
        };
        proof {
            assert(s@ == without_dummy(m, k));
        }
        Ok(s)
    }

    /// The schedule in which a vehicle of the type has taken over the tour
    /// of a dummy.
    pub fn spawn_vehicle_to_replace_dummy_tour(&self, dummy_id: VehicleIdx, vehicle_type_id: VehicleTypeIdx) -> (r:
        Result<Schedule, ScheduleError>)
        requires
            self.wf(),
        ensures
            match r {
                Ok(s) => {
                    &&& self.spec_is_dummy(dummy_id)
                    &&& spawn_outcome(
                        without_dummy(self@, dummy_id.idx()),
                        &self.spec_network(),
                        &self.spec_vehicle_types(),
                        vehicle_type_id,
                        self@.dummy_tours[dummy_id.idx()].nodes,
                    ) matches Ok((v, tour))
                    &&& s@ == with_vehicle(without_dummy(self@, dummy_id.idx()), v, tour)
                    &&& s.wf()
                    &&& s.spec_network() == self.spec_network()
                    &&& s.spec_vehicle_types() == self.spec_vehicle_types()
                    &&& s.spec_config() == self.spec_config()
                },
                Err(e) => if !self.spec_is_dummy(dummy_id) {
                    e == ScheduleError::NotADummy(dummy_id)
                } else {
                    spawn_outcome(
                        without_dummy(self@, dummy_id.idx()),
                        &self.spec_network(),
                        &self.spec_vehicle_types(),
                        vehicle_type_id,
                        self@.dummy_tours[dummy_id.idx()].nodes,
                    ) == Err::<(Vehicle, Seq<NodeIdx>), ScheduleError>(e)
                },
            },
    {
        if !self.is_dummy(dummy_id) {
            return Err(ScheduleError::NotADummy(dummy_id));
        }
        let tour = tour_map_get(&self.dummy_tours, dummy_id.idx()).unwrap();
        let nodes = crate::chain::copy_range(tour.all_nodes_iter(), 0, tour.len());
        proof {
            assert(nodes@ =~= self@.dummy_tours[dummy_id.idx()].nodes);
        }
        let intermediate = match self.delete_dummy(dummy_id) {
            Ok(s) => s,
            Err(e) => {
                return Err(e);
            },
        };
        intermediate.spawn_vehicle_for_path(vehicle_type_id, nodes)
    }

    /// A vehicle that was spawned and is deleted again leaves the schedule
    /// as it was, but for the counter.
    pub proof fn lemma_spawn_delete_round_trip(
        &self,
        vehicle_type_id: VehicleTypeIdx,
        nodes: Seq<NodeIdx>,
        spawned: Schedule,
        deleted: Schedule,
    )
        requires
            self.wf(),
            spawn_outcome(
                self@,
                &self.spec_network(),
                &self.spec_vehicle_types(),
                vehicle_type_id,
                nodes,
            ) matches Ok((v, tour)) && spawned@ == with_vehicle(self@, v, tour) && deleted@
                == without_vehicle(spawned@, v.id.idx()),
        ensures
            deleted@ == (ScheduleModel { counter: self@.counter + 1, ..self@ }),
    {
        let out = spawn_outcome(
            self@,
            &self.spec_network(),
            &self.spec_vehicle_types(),
            vehicle_type_id,
            nodes,
        );
        let (v, tour) = out->Ok_0;
        lemma_spawn_then_delete(self@, &self.spec_network(), &self.spec_vehicle_types(), v, tour);
    }
}

} // verus!
