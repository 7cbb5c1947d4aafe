//! Putting a path into the tour of a vehicle.

use vstd::prelude::*;
use crate::base_types::{DepotIdx, Idx, NodeIdx, VehicleIdx, VehicleTypeIdx};
use crate::chain::{copy_range, is_chain, lemma_chain_distinct, lemma_chain_subrange, TourError};
use crate::network::Network;
use crate::path::{is_path, Path};
use crate::persistent::{formation_map_clone, tour_map_clone, tour_map_get, tour_map_update, usage_entries, usage_map_clone, vehicle_map_clone, vehicle_map_get};
use crate::schedule::fleet::{fleet_ok, unbooked};
use crate::schedule::model::{capacity_ok, end_depot_of, ids_ok, schedule_ok, spawned_by_key, start_depot_of, tours_ok, usage_ok, vehicles_ok, ScheduleModel};
use crate::schedule::modifications::copy_ids;
use crate::schedule::parts::{book_vehicle, has_room, spawned_count};
use crate::schedule::reassign_model::{lemma_schedule_ok_parts, real_vehicle, rest_ok};
use crate::schedule::steps::booked;
use crate::schedule::transfer::{holds_after, lemma_transferred_formations, transferred_formations};
use crate::schedule::{Schedule, ScheduleError};
use crate::tour::{depot_structure_ok, displaced, insert_positions, is_vehicle_tour, lemma_first_reached, lemma_last_reaching, with_path, Tour, TourModel};
use crate::tour_laws::{lemma_common_nodes_displaced, lemma_with_path_nodes};
use crate::vehicle_types::VehicleTypes;

verus! {

/// The schedule in which vehicle `k` has the tour `nodes` and is booked at
/// the depots of that tour. The formations are as they were.
pub open spec fn rebooked(m: ScheduleModel, k: Idx, nodes: Seq<NodeIdx>) -> ScheduleModel {
    let t = m.vehicles[k].type_id.0;
    let u = unbooked(m, k);
    ScheduleModel {
        tours: m.tours.insert(k, TourModel { nodes, dummy: false }),
        spawned: booked(u.spawned, (nodes[0].idx(), t), k, true),
        despawned: booked(u.despawned, (nodes.last().idx(), t), k, true),
        ..m
    }
}

/// The fleet stays consistent when a vehicle gets another tour, if the
/// depot at which the tour starts has room for the vehicle once it is taken
/// off the books.
pub proof fn lemma_rebooked(m: ScheduleModel, nw: &Network, vt: &VehicleTypes, k: Idx, nodes: Seq<NodeIdx>)
    requires
        nw.wf(),
        fleet_ok(m, nw, vt),
        m.vehicles.contains_key(k),
        is_vehicle_tour(nw, nodes),
        has_room(unbooked(m, k).spawned, nw, m.vehicles[k].type_id.0, nodes[0].idx()),
    ensures
        fleet_ok(rebooked(m, k, nodes), nw, vt),
{
    let t = m.vehicles[k].type_id.0;
    let u = unbooked(m, k);
    let m2 = rebooked(m, k, nodes);
    assert(m.tours.contains_key(k));
    assert(vehicles_ok(m2, vt)) by {
        assert forall|x: Idx| #[trigger] m2.vehicles.contains_key(x) implies m2.tours.contains_key(x) by {
            assert(m.vehicles.contains_key(x));
        }
    }
    assert(tours_ok(m2, nw)) by {
        assert forall|x: Idx| #[trigger] m2.tours.contains_key(x) implies {
            &&& m2.vehicles.contains_key(x)
            &&& !m2.tours[x].dummy
            &&& is_vehicle_tour(nw, m2.tours[x].nodes)
        } by {
            if x != k {
                assert(m.tours.contains_key(x));
            }
        }
    }
    let old_s = (start_depot_of(m.tours[k]), t);
    let old_e = (end_depot_of(m.tours[k]), t);
    assert(usage_ok(m2)) by {
        assert forall|d: Idx, ty: Idx, x: Idx| #![trigger m2.spawned[(d, ty)].contains(x)]
            m2.spawned[(d, ty)].contains(x) <==> (m2.vehicles.contains_key(x)
                && m2.vehicles[x].type_id.0 == ty && start_depot_of(m2.tours[x]) == d) by {
            assert(m.spawned[(d, ty)].contains(x) <==> (m.vehicles.contains_key(x)
                && m.vehicles[x].type_id.0 == ty && start_depot_of(m.tours[x]) == d));
        }
        assert forall|d: Idx, ty: Idx, x: Idx| #![trigger m2.despawned[(d, ty)].contains(x)]
            m2.despawned[(d, ty)].contains(x) <==> (m2.vehicles.contains_key(x)
                && m2.vehicles[x].type_id.0 == ty && end_depot_of(m2.tours[x]) == d) by {
            assert(m.despawned[(d, ty)].contains(x) <==> (m.vehicles.contains_key(x)
                && m.vehicles[x].type_id.0 == ty && end_depot_of(m.tours[x]) == d));
        }
        assert forall|d: Idx, ty: Idx| (#[trigger] m2.spawned[(d, ty)]).finite() by {
            assert(m.spawned[(d, ty)].finite());
            assert(m.spawned[old_s].finite());
            assert(u.spawned[(d, ty)].finite());
        }
        assert forall|d: Idx, ty: Idx| (#[trigger] m2.despawned[(d, ty)]).finite() by {
            assert(m.despawned[(d, ty)].finite());
            assert(m.despawned[old_e].finite());
            assert(u.despawned[(d, ty)].finite());
        }
    }
    assert(capacity_ok(m2, nw)) by {
        assert forall|d: Idx, ty: Idx|
            (#[trigger] m2.spawned[(d, ty)]).len() <= nw.spec_capacity_of(
                DepotIdx(d),
                VehicleTypeIdx(ty),
            ) by {
            assert(m.spawned[(d, ty)].len() <= nw.spec_capacity_of(DepotIdx(d), VehicleTypeIdx(ty)));
            assert(m.spawned[(d, ty)].finite());
            assert(u.spawned[(d, ty)].finite());
            assert(u.spawned[(d, ty)].len() <= m.spawned[(d, ty)].len());
        }
    }
}

/// Why a path cannot go into the tour of a vehicle, if it cannot: the
/// vehicle is none of the schedule, what would come out is no tour, or the
/// depot at which it would start has no room.
pub open spec fn add_path_fault(m: ScheduleModel, nw: &Network, v: VehicleIdx, path: Seq<NodeIdx>) -> Option<
    ScheduleError,
> {
    if !(v is Vehicle && m.vehicles.contains_key(v.idx())) {
        Some(ScheduleError::NotAVehicle(v))
    } else {
        let k = v.idx();
        let grown = with_path(nw, m.tours[k].nodes, path);
        if !depot_structure_ok(grown, false) {
            Some(ScheduleError::TourInfeasible(TourError::BadDepotStructure))
        } else if !has_room(unbooked(m, k).spawned, nw, m.vehicles[k].type_id.0, grown[0].idx()) {
            Some(ScheduleError::NoCapacity(m.vehicles[k].type_id))
        } else {
            None
        }
    }
}

/// The schedule after a path went into the tour of vehicle `k`: the nodes
/// of its tour that give way leave its tour and it leaves their formations;
/// it joins the tail of the formations of the trips and slots of the path.
pub open spec fn after_add_path(m: ScheduleModel, nw: &Network, k: Idx, path: Seq<NodeIdx>) -> ScheduleModel {
    let tour = m.tours[k].nodes;
    ScheduleModel {
        formations: transferred_formations(
            m.formations,
            path,
            displaced(nw, tour, path[0], path.last()),
            None,
            Some(m.vehicles[k]),
        ),
        ..rebooked(m, k, with_path(nw, tour, path))
    }
}

/// A consistent schedule is consistent after a path went into a tour.
pub proof fn lemma_after_add_path_ok(m: ScheduleModel, nw: &Network, vt: &VehicleTypes, k: Idx, path: Seq<NodeIdx>)
    requires
        nw.wf(),
        schedule_ok(m, nw, vt),
        is_path(nw, path),
        add_path_fault(m, nw, VehicleIdx::Vehicle(k), path) is None,
    ensures
        schedule_ok(after_add_path(m, nw, k, path), nw, vt),
        is_vehicle_tour(nw, with_path(nw, m.tours[k].nodes, path)),
{
    lemma_schedule_ok_parts(m, nw, vt);
    assert(m.tours.contains_key(k));
    let tour = m.tours[k].nodes;
    let grown = with_path(nw, tour, path);
    let gone = displaced(nw, tour, path[0], path.last());
    let (keep, back) = insert_positions(nw, tour, path[0], path.last());
    lemma_last_reaching(nw, tour, path[0], tour.len() as int);
    lemma_first_reached(nw, tour, path.last(), keep);
    lemma_chain_subrange(nw, tour, 0, keep);
    lemma_chain_subrange(nw, tour, back, tour.len() as int);
    lemma_chain_subrange(nw, tour, keep, back);
    crate::chain::lemma_chain_concat(nw, tour.subrange(0, keep), path);
    assert((tour.subrange(0, keep) + path).last() == path.last());
    crate::chain::lemma_chain_concat(
        nw,
        tour.subrange(0, keep) + path,
        tour.subrange(back, tour.len() as int),
    );
    assert(is_vehicle_tour(nw, grown));
    lemma_rebooked(m, nw, vt, k, grown);
    let m3 = after_add_path(m, nw, k, path);
    let vr = Some(m.vehicles[k]);
    assert forall|n: NodeIdx, x: Idx| nw.coverable(n) && m.tours.contains_key(x) implies ((
    m3.tours.contains_key(x) && m3.tours[x].nodes.contains(n)) <==> #[trigger] holds_after(
        m,
        path,
        gone,
        None,
        vr,
        n,
        x,
    )) by {
        assert(m.vehicles.contains_key(x));
        if x == k {
            lemma_with_path_nodes(nw, tour, path, n);
        }
    }
    assert forall|n: NodeIdx| #[trigger] gone.contains(n) && !n.is_depot() implies tour.contains(n) by {
        lemma_with_path_nodes(nw, tour, path, n);
    }
    assert forall|n: NodeIdx|
        #[trigger] path.contains(n) && !n.is_depot() && tour.contains(n) implies gone.contains(n) by {
        lemma_common_nodes_displaced(nw, tour, path, n);
    }
    assert forall|x: int| 0 <= x < gone.len() implies nw.contains(#[trigger] gone[x]) by {}
    lemma_transferred_formations(m, m3, nw, vt, path, gone, None, vr);
    assert(rest_ok(m3, nw));
    lemma_schedule_ok_parts(m3, nw, vt);
}

impl Schedule {
    /// Puts a path into the tour of a vehicle. The nodes of the tour that
    /// give way leave the tour and are covered by this vehicle no longer.
    pub fn add_path_to_vehicle_tour(&self, vehicle_id: VehicleIdx, path: Path) -> (r: Result<
        Schedule,
        ScheduleError,
    >)
        requires
            self.wf(),
            path.wf(&self.spec_network()),
        ensures
            match r {
                Ok(s) => {
                    &&& add_path_fault(self@, &self.spec_network(), vehicle_id, path@) is None
                    &&& s@ == after_add_path(self@, &self.spec_network(), vehicle_id.idx(), path@)
                    &&& s.wf()
                    &&& s.same_frame(self)
                },
                Err(e) => add_path_fault(self@, &self.spec_network(), vehicle_id, path@) == Some(e),
            },
    {
        let ghost m = self@;
        let ghost nw = self.spec_network();
        let ghost vt = self.spec_vehicle_types();
        let ghost p = path@;
        let vehicle = match self.get_vehicle(vehicle_id) {
            Ok(v) => v,
            Err(e) => {
                return Err(e);
            },
        };
        let k = vehicle_id.idx();
        let t = vehicle.type_id.0;
        proof {
            lemma_schedule_ok_parts(m, &nw, &vt);
            assert(m.tours.contains_key(k));
        }
        let tour = tour_map_get(&self.tours, k).unwrap();
        let ghost old = tour@.nodes;
        let path_vec = copy_range(path.iter(), 0, path.length());
        assert(path_vec@ =~= p);
        let (grown, replaced) = match tour.insert_path(path, &self.network) {
            Ok(x) => x,
            Err(e) => {
                return Err(ScheduleError::TourInfeasible(e));
            },
        };
        let usage1 = book_vehicle(&self.depot_usage, (tour.first_node().idx(), t), k, true, false);
        let usage2 = book_vehicle(&usage1, (tour.last_node().idx(), t), k, false, false);
        let start = grown.first_node();
        let end = grown.last_node();
        assert(nw.contains(grown@.nodes[0]));
        let room = spawned_count(&usage2, start.idx(), t) < self.network.capacity_of(
            DepotIdx(start.idx()),
            vehicle.type_id,
        ) as usize;
        if !room {
            return Err(ScheduleError::NoCapacity(vehicle.type_id));
        }
        let ghost gone = displaced(&nw, old, p[0], p.last());
        let replaced_vec = match &replaced {
            Some(q) => copy_range(q.iter(), 0, q.length()),
            None => Vec::new(),
        };
        proof {
            lemma_after_add_path_ok(m, &nw, &vt, k, p);
            let (keep, back) = insert_positions(&nw, old, p[0], p.last());
            lemma_last_reaching(&nw, old, p[0], old.len() as int);
            lemma_first_reached(&nw, old, p.last(), keep);
            lemma_chain_subrange(&nw, old, keep, back);
            if replaced is Some {
                assert(replaced_vec@ =~= gone);
            }
            assert forall|a: int, b: int| #![trigger path_vec@[a], path_vec@[b]] 0 <= a < b < path_vec@.len() implies path_vec@[a]
                != path_vec@[b] by {
                lemma_chain_distinct(&nw, path_vec@, a, b);
            }
            assert forall|a: int, b: int| #![trigger replaced_vec@[a], replaced_vec@[b]] 0 <= a < b < replaced_vec@.len() implies replaced_vec@[a]
                != replaced_vec@[b] by {
                lemma_chain_distinct(&nw, replaced_vec@, a, b);
            }
            assert forall|n: NodeIdx| #[trigger] replaced_vec@.contains(n) && !n.is_depot() implies old.contains(
                n,
            ) by {
                lemma_with_path_nodes(&nw, old, p, n);
            }
            assert forall|n: NodeIdx|
                #[trigger] path_vec@.contains(n) && !n.is_depot() && old.contains(n) implies replaced_vec@.contains(
                    n,
                ) by {
                lemma_common_nodes_displaced(&nw, old, p, n);
                assert(gone.contains(n));
                if replaced is None {
                    let w = choose|w: int| 0 <= w < gone.len() && gone[w] == n;
                    assert(gone[w] == n);
                    assert(!gone[w].is_depot());
                    assert(false);
                }
            }
        }
        let formations = self.transfer_in_formations(&path_vec, &replaced_vec, None, vehicle_id);
        proof {
            let exact = transferred_formations(m.formations, p, gone, None, Some(vehicle));
            if replaced is None {
                assert forall|n: NodeIdx| !(gone.contains(n) && !n.is_depot()) by {
                    if gone.contains(n) && !n.is_depot() {
                        let w = choose|w: int| 0 <= w < gone.len() && gone[w] == n;
                        assert(!gone[w].is_depot());
                    }
                }
                assert(crate::schedule::model::formations_by_node(
                    crate::persistent::formation_entries(formations),
                ) =~= exact);
            }
        }
        let usage3 = book_vehicle(&usage2, (start.idx(), t), k, true, true);
        let usage4 = book_vehicle(&usage3, (end.idx(), t), k, false, true);
        let s = Schedule {
            vehicles: vehicle_map_clone(&self.vehicles),
            tours: tour_map_update(&self.tours, k, grown),
            train_formations: formations,
            depot_usage: usage4,
            dummy_tours: tour_map_clone(&self.dummy_tours),
            vehicle_counter: self.vehicle_counter,
            vehicle_ids_sorted: copy_ids(&self.vehicle_ids_sorted),
            dummy_ids_sorted: copy_ids(&self.dummy_ids_sorted),
            config: self.config.clone(),
            vehicle_types: self.vehicle_types.clone(),
            network: self.network.clone(),
        };
        proof {
            assert(s@ == after_add_path(m, &nw, k, p));
        }
        Ok(s)
    }
}

} // verus!
