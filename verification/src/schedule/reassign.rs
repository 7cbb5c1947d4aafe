//! Handing a segment over from one tour to another.

use vstd::prelude::*;
use crate::base_types::{Idx, NodeIdx, VehicleIdx};
use crate::chain::{copy_range, covers_something, is_chain, lemma_chain_distinct, TourError};
use crate::network::Network;
use crate::path::Path;
use crate::persistent::{formation_entries, formation_map_clone, tour_map_clone, tour_map_get, tour_map_update, tour_map_without, usage_map_clone, vehicle_map_clone, vehicle_map_get, vehicle_map_without};
use crate::schedule::fleet::{fleet_ok, improved, lemma_own_depot_has_room, lemma_retoured, lemma_some_start_depot, retired, retoured, unbooked};
use crate::schedule::formation_laws::lemma_after_hand_over;
use crate::schedule::model::{formations_by_node, ids_ok, schedule_ok, ScheduleModel};
use crate::schedule::modifications::{best_end_depot, best_start_depot, copy_ids, without_id};
use crate::schedule::parts::{all_different, book_vehicle, find_best_end_depot, find_best_start_depot, hand_over_formations, lemma_best_depot_unique};
use crate::schedule::reassign_model::{after_override, after_transfer, known, lemma_after_override_ok, lemma_after_transfer_ok, lemma_schedule_ok_parts, lemma_with_tour_ok, moved_nodes, override_fault, real_idx, real_vehicle, replaced_nodes, rest_nodes, rest_ok, tour_in, with_new_dummy, with_tour};
use crate::schedule::steps::{formations_after, lemma_ids_without, without_dummy};
use crate::schedule::transfer::transferred_formations;
use crate::schedule::{Schedule, ScheduleError};
use crate::segment::Segment;
use crate::tour::{displaced, is_dummy_tour, is_tour, is_vehicle_tour, removal_fault, segment_range, with_path, without_range, Tour, TourModel};
use crate::tour_laws::{lemma_common_nodes_displaced, lemma_grown_tour, lemma_shrunk_tour, lemma_with_path_nodes, lemma_without_range_nodes};
use crate::train_formation::{has_id, TrainFormation, Vehicle};

verus! {

impl Schedule {
    /// Whether two schedules are schedules of one network, one pool of
    /// types and one configuration.
    pub open spec fn same_frame(&self, other: &Schedule) -> bool {
        &&& self.spec_network() == other.spec_network()
        &&& self.spec_vehicle_types() == other.spec_vehicle_types()
        &&& self.spec_config() == other.spec_config()
    }

    /// The schedule in which vehicle `k` has the given tour with the best
    /// depots for it. The formations are as they were.
    pub(crate) fn retour_vehicle(&self, k: Idx, tour: &Tour) -> (r: Schedule)
        requires
            self.spec_network().wf(),
            fleet_ok(self@, &self.spec_network(), &self.spec_vehicle_types()),
            self@.vehicles.contains_key(k),
            tour.wf(&self.spec_network()),
            !tour@.dummy,
            tour@.nodes[0] == self@.tours[k].nodes[0],
        ensures
            r@ == retoured(self@, &self.spec_network(), k, tour@.nodes),
            r.same_frame(self),
    {
        let ghost m = self@;
        let ghost nw = self.spec_network();
        let ghost vt = self.spec_vehicle_types();
        let ghost nodes = tour@.nodes;
        let vehicle = vehicle_map_get(&self.vehicles, k).unwrap();
        let t = vehicle.type_id.0;
        assert(m.tours.contains_key(k));
        let old = tour_map_get(&self.tours, k).unwrap();
        assert(is_vehicle_tour(&nw, old@.nodes));
        let usage1 = book_vehicle(&self.depot_usage, (old.first_node().idx(), t), k, true, false);
        let usage2 = book_vehicle(&usage1, (old.last_node().idx(), t), k, false, false);
        proof {
            lemma_retoured(m, &nw, &vt, k, nodes);
        }
        let first = tour.first_non_depot(&self.network).unwrap();
        let last = tour.last_non_depot(&self.network).unwrap();
        let start = match find_best_start_depot(&usage2, &self.network, vehicle.type_id, first) {
            Some(d) => d,
            None => {
                proof {
                    lemma_own_depot_has_room(m, &nw, &vt, k);
                    assert(false);
                }
                tour.first_node()
            },
        };
        let end = match find_best_end_depot(&self.network, last) {
            Some(d) => d,
            None => {
                proof {
                    assert(nw.contains(nodes[nodes.len() - 1]));
                    assert(false);
                }
                tour.last_node()
            },
        };
        proof {
            let u = unbooked(m, k);
            lemma_best_depot_unique(
                u.spawned,
                &nw,
                t,
                first,
                best_start_depot(u.spawned, &nw, t, first)->Some_0,
                start.idx(),
            );
            lemma_best_depot_unique(
                u.spawned,
                &nw,
                t,
                last,
                best_end_depot(&nw, last)->Some_0,
                end.idx(),
            );
            nw.lemma_depots_connect(start, nodes[1]);
        }
        let with_start = match tour.replace_start_depot(start, &self.network) {
            Ok(x) => x,
            Err(_) => {
                proof {
                    assert(false);
                }
                tour.clone()
            },
        };
        proof {
            nw.lemma_depots_connect(with_start@.nodes[nodes.len() - 2], end);
        }
        let with_both = match with_start.replace_end_depot(end, &self.network) {
            Ok(x) => x,
            Err(_) => {
                proof {
                    assert(false);
                }
                tour.clone()
            },
        };
        proof {
            assert(with_both@.nodes =~= improved(unbooked(m, k).spawned, &nw, t, nodes));
        }
        let usage3 = book_vehicle(&usage2, (start.idx(), t), k, true, true);
        let usage4 = book_vehicle(&usage3, (end.idx(), t), k, false, true);
        Schedule {
            vehicles: vehicle_map_clone(&self.vehicles),
            tours: tour_map_update(&self.tours, k, with_both),
            train_formations: formation_map_clone(&self.train_formations),
            depot_usage: usage4,
            dummy_tours: tour_map_clone(&self.dummy_tours),
            vehicle_counter: self.vehicle_counter,
            vehicle_ids_sorted: copy_ids(&self.vehicle_ids_sorted),
            dummy_ids_sorted: copy_ids(&self.dummy_ids_sorted),
            config: self.config.clone(),
            vehicle_types: self.vehicle_types.clone(),
            network: self.network.clone(),
        }
    }

    /// The schedule in which vehicle `k` has left the fleet. The formations
    /// are as they were.
    pub(crate) fn retire_vehicle(&self, k: Idx) -> (r: Schedule)
        requires
            self.spec_network().wf(),
            fleet_ok(self@, &self.spec_network(), &self.spec_vehicle_types()),
            self@.vehicles.contains_key(k),
        ensures
            r@ == retired(self@, k),
            r.same_frame(self),
    {
        let ghost m = self@;
        let vehicle = vehicle_map_get(&self.vehicles, k).unwrap();
        let t = vehicle.type_id.0;
        assert(m.tours.contains_key(k));
        let old = tour_map_get(&self.tours, k).unwrap();
        assert(is_vehicle_tour(&self.spec_network(), old@.nodes));
        let usage1 = book_vehicle(&self.depot_usage, (old.first_node().idx(), t), k, true, false);
        let usage2 = book_vehicle(&usage1, (old.last_node().idx(), t), k, false, false);
        proof {
            lemma_ids_without(m.vehicle_ids, m.vehicles.dom(), false, VehicleIdx::Vehicle(k));
            assert forall|i: int, j: int| #![trigger m.vehicle_ids[i], m.vehicle_ids[j]] 0 <= i < j < m.vehicle_ids.len() implies m.vehicle_ids[i]
                != m.vehicle_ids[j] by {
                assert(m.vehicle_ids[i].idx() < m.vehicle_ids[j].idx());
            }
        }
        Schedule {
            vehicles: vehicle_map_without(&self.vehicles, k),
            tours: tour_map_without(&self.tours, k),
            train_formations: formation_map_clone(&self.train_formations),
            depot_usage: usage2,
            dummy_tours: tour_map_clone(&self.dummy_tours),
            vehicle_counter: self.vehicle_counter,
            vehicle_ids_sorted: without_id(&self.vehicle_ids_sorted, VehicleIdx::Vehicle(k)),
            dummy_ids_sorted: copy_ids(&self.dummy_ids_sorted),
            config: self.config.clone(),
            vehicle_types: self.vehicle_types.clone(),
            network: self.network.clone(),
        }
    }

    /// The schedule in which a vehicle or dummy has the given tour, or has
    /// left if there is none. The formations are as they were.
    pub(crate) fn place_tour(&self, v: VehicleIdx, tour: Option<&Tour>) -> (r: Schedule)
        requires
            self.spec_network().wf(),
            fleet_ok(self@, &self.spec_network(), &self.spec_vehicle_types()),
            rest_ok(self@, &self.spec_network()),
            known(self@, v),
            tour matches Some(t) ==> t.wf(&self.spec_network()) && t@.dummy == v.is_dummy(),
            tour matches Some(t) ==> (v is Vehicle ==> t@.nodes[0] == tour_in(self@, v).nodes[0]),
        ensures
            r@ == with_tour(
                self@,
                &self.spec_network(),
                v,
                match tour {
                    Some(t) => Some(t@.nodes),
                    None => None,
                },
            ),
            r.same_frame(self),
    {
        let ghost m = self@;
        match (v, tour) {
            (VehicleIdx::Vehicle(k), Some(t)) => self.retour_vehicle(k, t),
            (VehicleIdx::Vehicle(k), None) => self.retire_vehicle(k),
            (VehicleIdx::Dummy(k), Some(t)) => Schedule {
                vehicles: vehicle_map_clone(&self.vehicles),
                tours: tour_map_clone(&self.tours),
                train_formations: formation_map_clone(&self.train_formations),
                depot_usage: usage_map_clone(&self.depot_usage),
                dummy_tours: tour_map_update(&self.dummy_tours, k, t.clone()),
                vehicle_counter: self.vehicle_counter,
                vehicle_ids_sorted: copy_ids(&self.vehicle_ids_sorted),
                dummy_ids_sorted: copy_ids(&self.dummy_ids_sorted),
                config: self.config.clone(),
                vehicle_types: self.vehicle_types.clone(),
                network: self.network.clone(),
            },
            (VehicleIdx::Dummy(k), None) => {
                proof {
                    lemma_ids_without(m.dummy_ids, m.dummy_tours.dom(), true, v);
                    assert forall|i: int, j: int| #![trigger m.dummy_ids[i], m.dummy_ids[j]] 0 <= i < j < m.dummy_ids.len() implies m.dummy_ids[i]
                        != m.dummy_ids[j] by {
                        assert(m.dummy_ids[i].idx() < m.dummy_ids[j].idx());
                    }
                }
                Schedule {
                    vehicles: vehicle_map_clone(&self.vehicles),
                    tours: tour_map_clone(&self.tours),
                    train_formations: formation_map_clone(&self.train_formations),
                    depot_usage: usage_map_clone(&self.depot_usage),
                    dummy_tours: tour_map_without(&self.dummy_tours, k),
                    vehicle_counter: self.vehicle_counter,
                    vehicle_ids_sorted: copy_ids(&self.vehicle_ids_sorted),
                    dummy_ids_sorted: without_id(&self.dummy_ids_sorted, v),
                    config: self.config.clone(),
                    vehicle_types: self.vehicle_types.clone(),
                    network: self.network.clone(),
                }
            },
        }
    }

    /// The schedule with other formations.
    pub(crate) fn with_formations(&self, formations: im::HashMap<u32, TrainFormation>) -> (r: Schedule)
        ensures
            r@ == (ScheduleModel {
                formations: formations_by_node(formation_entries(formations)),
                ..self@
            }),
            r.same_frame(self),
    {
        Schedule {
            vehicles: vehicle_map_clone(&self.vehicles),
            tours: tour_map_clone(&self.tours),
            train_formations: formations,
            depot_usage: usage_map_clone(&self.depot_usage),
            dummy_tours: tour_map_clone(&self.dummy_tours),
            vehicle_counter: self.vehicle_counter,
            vehicle_ids_sorted: copy_ids(&self.vehicle_ids_sorted),
            dummy_ids_sorted: copy_ids(&self.dummy_ids_sorted),
            config: self.config.clone(),
            vehicle_types: self.vehicle_types.clone(),
            network: self.network.clone(),
        }
    }

    /// The schedule with one more dummy, which gets the next number.
    pub(crate) fn add_dummy_tour(&self, tour: Tour) -> (r: Schedule)
        requires
            self@.counter <= 0xffff,
            tour@.dummy,
        ensures
            r@ == with_new_dummy(self@, tour@.nodes),
            r.same_frame(self),
    {
        let k = self.vehicle_counter as Idx;
        let mut dummy_ids_sorted = copy_ids(&self.dummy_ids_sorted);
        dummy_ids_sorted.push(VehicleIdx::Dummy(k));
        Schedule {
            vehicles: vehicle_map_clone(&self.vehicles),
            tours: tour_map_clone(&self.tours),
            train_formations: formation_map_clone(&self.train_formations),
            depot_usage: usage_map_clone(&self.depot_usage),
            dummy_tours: tour_map_update(&self.dummy_tours, k, tour),
            vehicle_counter: self.vehicle_counter + 1,
            vehicle_ids_sorted: copy_ids(&self.vehicle_ids_sorted),
            dummy_ids_sorted,
            config: self.config.clone(),
            vehicle_types: self.vehicle_types.clone(),
            network: self.network.clone(),
        }
    }

    /// The formations after the nodes `moved` went from the provider to the
    /// receiver, whose nodes `replaced` gave way. The provider is given by
    /// its number if it is a real vehicle, and not at all otherwise.
    pub(crate) fn transfer_in_formations(
        &self,
        moved: &Vec<NodeIdx>,
        replaced: &Vec<NodeIdx>,
        provider: Option<Idx>,
        receiver: VehicleIdx,
    ) -> (r: im::HashMap<u32, TrainFormation>)
        requires
            self.wf(),
            known(self@, receiver),
            provider matches Some(p) ==> self@.vehicles.contains_key(p) && VehicleIdx::Vehicle(p)
                != receiver,
            all_different(moved@),
            all_different(replaced@),
            forall|i: int| 0 <= i < moved@.len() ==> self.spec_network().contains(#[trigger] moved@[i]),
            forall|i: int|
                0 <= i < replaced@.len() ==> self.spec_network().contains(#[trigger] replaced@[i]),
            provider matches Some(p) ==> forall|n: NodeIdx|
                #[trigger] moved@.contains(n) && !n.is_depot() ==> self@.tours[p].nodes.contains(n),
            forall|n: NodeIdx|
                #[trigger] replaced@.contains(n) && !n.is_depot() ==> tour_in(
                    self@,
                    receiver,
                ).nodes.contains(n),
            forall|n: NodeIdx|
                #[trigger] moved@.contains(n) && !n.is_depot() && tour_in(
                    self@,
                    receiver,
                ).nodes.contains(n) ==> replaced@.contains(n),
        ensures
            formations_by_node(formation_entries(r)) == transferred_formations(
                self@.formations,
                moved@,
                replaced@,
                provider,
                real_vehicle(self@, receiver),
            ),
    {
        let ghost m = self@;
        let ghost nw = self.spec_network();
        let receiver_vehicle: Option<Vehicle> = match receiver {
            VehicleIdx::Vehicle(k) => vehicle_map_get(&self.vehicles, k),
            VehicleIdx::Dummy(_) => None,
        };
        proof {
            assert forall|i: int| 0 <= i < replaced@.len() && !(#[trigger] replaced@[i]).is_depot() implies m.formations.contains_key(
                replaced@[i],
            ) && (receiver matches VehicleIdx::Vehicle(kr) ==> has_id(
                m.formations[replaced@[i]],
                VehicleIdx::Vehicle(kr),
            )) by {
                let n = replaced@[i];
                assert(nw.contains(n));
                assert(nw.coverable(n));
                assert(replaced@.contains(n));
                if receiver is Vehicle {
                    assert(m.tours.contains_key(receiver.idx()));
                }
            }
        }
        let first = match receiver_vehicle {
            Some(v) => hand_over_formations(&self.train_formations, Some(receiver.idx()), None, replaced),
            None => formation_map_clone(&self.train_formations),
        };
        proof {
            let f1 = formations_by_node(formation_entries(first));
            assert forall|i: int| 0 <= i < moved@.len() && !(#[trigger] moved@[i]).is_depot() implies f1.contains_key(
                moved@[i],
            ) && (provider matches Some(kp) ==> has_id(f1[moved@[i]], VehicleIdx::Vehicle(kp))) by {
                let n = moved@[i];
                assert(nw.contains(n));
                assert(nw.coverable(n));
                assert(m.formations.contains_key(n));
                assert(moved@.contains(n));
                if provider is Some {
                    let kp = provider->Some_0;
                    assert(m.tours.contains_key(kp));
                    assert(has_id(m.formations[n], VehicleIdx::Vehicle(kp)));
                    if receiver is Vehicle && replaced@.contains(n) {
                        let kr = receiver.idx();
                        assert(m.tours.contains_key(kr));
                        assert(has_id(m.formations[n], VehicleIdx::Vehicle(kr)));
                        lemma_after_hand_over(
                            m.formations[n],
                            Some(kr),
                            None,
                            VehicleIdx::Vehicle(kp),
                        );
                    }
                }
            }
        }
        let second = hand_over_formations(&first, provider, receiver_vehicle, moved);
        proof {
            let want = transferred_formations(
                m.formations,
                moved@,
                replaced@,
                provider,
                real_vehicle(m, receiver),
            );
            let f1 = formations_by_node(formation_entries(first));
            let want1 = match real_vehicle(m, receiver) {
                Some(v) => formations_after(m.formations, replaced@, Some(v.id.idx()), None),
                None => m.formations,
            };
            if receiver is Vehicle {
                assert(m.vehicles[receiver.idx()].id == receiver);
            }
            assert(f1 =~= want1);
            assert(formations_by_node(formation_entries(second)) =~= want);
        }
        second
    }

    /// Takes a segment out of the provider's tour and puts it into the
    /// receiver's. The nodes of the receiver that give way leave its tour;
    /// if a trip or slot is among them, they become the tour of a new dummy,
    /// whose id is handed back. A vehicle whose tour changed gets the best
    /// depots for its new tour; a provider that is left with nothing is
    /// deleted.
    pub fn override_reassign(&self, segment: Segment, provider: VehicleIdx, receiver: VehicleIdx) -> (r:
        Result<(Schedule, Option<VehicleIdx>), ScheduleError>)
        requires
            self.wf(),
        ensures
            match r {
                Ok((s, dummy)) => {
                    &&& override_fault(self@, &self.spec_network(), segment, provider, receiver) is None
                    &&& (s@, dummy) == after_override(
                        self@,
                        &self.spec_network(),
                        segment,
                        provider,
                        receiver,
                    )
                    &&& s.wf()
                    &&& s.same_frame(self)
                },
                Err(e) => override_fault(self@, &self.spec_network(), segment, provider, receiver)
                    == Some(e),
            },
    {
        let ghost m = self@;
        let ghost nw = self.spec_network();
        let ghost vt = self.spec_vehicle_types();
        if provider == receiver {
            return Err(ScheduleError::SameVehicle(provider));
        }
        proof {
            self.lemma_same_keys();
            lemma_schedule_ok_parts(m, &nw, &vt);
        }
        let tour_provider = match self.tour_of(provider) {
            Ok(t) => t,
            Err(_) => {
                return Err(ScheduleError::UnknownVehicle(provider));
            },
        };
        let tour_receiver = match self.tour_of(receiver) {
            Ok(t) => t,
            Err(_) => {
                return Err(ScheduleError::UnknownVehicle(receiver));
            },
        };
        proof {
            assert(tour_provider.wf(&nw)) by {
                if provider is Vehicle {
                    assert(m.tours.contains_key(provider.idx()));
                }
            }
            assert(tour_receiver.wf(&nw)) by {
                if receiver is Vehicle {
                    assert(m.tours.contains_key(receiver.idx()));
                }
            }
        }
        let (shrunk, path) = match tour_provider.remove(segment, &self.network) {
            Ok(x) => x,
            Err(e) => {
                return Err(ScheduleError::TourInfeasible(e));
            },
        };
        let ghost tp = tour_provider@.nodes;
        let ghost tr = tour_receiver@.nodes;
        let ghost moved = moved_nodes(m, segment, provider);
        let ghost gone = replaced_nodes(m, &nw, segment, provider, receiver);
        proof {
            lemma_shrunk_tour(&nw, tp, segment, provider.is_dummy());
            lemma_grown_tour(&nw, tr, moved, receiver.is_dummy());
            assert(path@ == moved);
        }
        let moved_vec = copy_range(path.iter(), 0, path.length());
        assert(moved_vec@ =~= moved);
        let (grown, replaced) = match tour_receiver.insert_path(path, &self.network) {
            Ok(x) => x,
            Err(e) => {
                proof {
                    crate::tour::lemma_tour_structure(
                        &nw,
                        TourModel { nodes: with_path(&nw, tr, moved), dummy: receiver.is_dummy() },
                    );
                    assert(false);
                }
                return Err(ScheduleError::TourInfeasible(e));
            },
        };
        if replaced.is_some() && self.vehicle_counter > 0xffff {
            return Err(ScheduleError::OutOfIds);
        }
        let replaced_vec = match &replaced {
            Some(p) => copy_range(p.iter(), 0, p.length()),
            None => Vec::new(),
        };
        proof {
            if replaced is Some {
                assert(replaced_vec@ =~= gone);
            }
            let (i, j) = segment_range(tp, segment)->Some_0;
            assert forall|n: NodeIdx| #[trigger] moved.contains(n) implies tp.contains(n) by {
                lemma_without_range_nodes(&nw, tp, i, j, n);
            }
            assert forall|n: NodeIdx| #[trigger] replaced_vec@.contains(n) implies tr.contains(n) by {
                lemma_with_path_nodes(&nw, tr, moved, n);
            }
            assert forall|n: NodeIdx|
                #[trigger] moved.contains(n) && tr.contains(n) implies replaced_vec@.contains(n) by {
                lemma_common_nodes_displaced(&nw, tr, moved, n);
                if replaced is None {
                    let w = choose|w: int| 0 <= w < gone.len() && gone[w] == n;
                    assert(!gone[w].is_depot());
                    assert(false);
                }
            }
        }
        proof {
            assert forall|a: int, b: int| #![trigger moved_vec@[a], moved_vec@[b]] 0 <= a < b < moved_vec@.len() implies moved_vec@[a]
                != moved_vec@[b] by {
                lemma_chain_distinct(&nw, moved_vec@, a, b);
            }
            assert forall|a: int, b: int| #![trigger replaced_vec@[a], replaced_vec@[b]] 0 <= a < b < replaced_vec@.len() implies replaced_vec@[a]
                != replaced_vec@[b] by {
                lemma_chain_distinct(&nw, replaced_vec@, a, b);
            }
            if provider is Vehicle {
                assert(m.vehicles.contains_key(provider.idx()));
            }
        }
        let provider_idx: Option<Idx> = match provider {
            VehicleIdx::Vehicle(k) => Some(k),
            VehicleIdx::Dummy(_) => None,
        };
        let formations = self.transfer_in_formations(
            &moved_vec,
            &replaced_vec,
            provider_idx,
            receiver,
        );
        proof {
            let exact = transferred_formations(
                m.formations,
                moved,
                gone,
                real_idx(provider),
                real_vehicle(m, receiver),
            );
            if replaced is None {
                assert forall|n: NodeIdx| !(gone.contains(n) && !n.is_depot()) by {
                    if gone.contains(n) {
                        let w = choose|w: int| 0 <= w < gone.len() && gone[w] == n;
                        assert(!gone[w].is_depot());
                    }
                }
                assert(formations_by_node(formation_entries(formations)) =~= exact);
            }
            lemma_with_tour_ok(
                m,
                &nw,
                &vt,
                provider,
                if shrunk is Some {
                    Some(rest_nodes(m, segment, provider))
                } else {
                    None
                },
            );
        }
        let s1 = match &shrunk {
            Some(t) => self.place_tour(provider, Some(t)),
            None => self.place_tour(provider, None),
        };
        let s2 = s1.place_tour(receiver, Some(&grown));
        let s3 = s2.with_formations(formations);
        proof {
            assert(s3@ == after_transfer(m, &nw, segment, provider, receiver));
            lemma_after_transfer_ok(m, &nw, &vt, segment, provider, receiver);
            lemma_after_override_ok(m, &nw, &vt, segment, provider, receiver);
        }
        match replaced {
            Some(p) => {
                let dummy = VehicleIdx::Dummy(self.vehicle_counter as Idx);
                let tour = Tour::new_dummy_by_path(p, &self.network);
                let s4 = s3.add_dummy_tour(tour);
                Ok((s4, Some(dummy)))
            },
            None => Ok((s3, None)),
        }
    }

    /// Hands a segment over from the provider to the receiver if no node of
    /// the receiver has to give way, and fails otherwise.
    pub fn cautious_reassign(&self, segment: Segment, provider: VehicleIdx, receiver: VehicleIdx) -> (r:
        Result<Schedule, ScheduleError>)
        requires
            self.wf(),
        ensures
            match r {
                Ok(s) => {
                    &&& cautious_fault(self@, &self.spec_network(), segment, provider, receiver) is None
                    &&& s@ == after_override(
                        self@,
                        &self.spec_network(),
                        segment,
                        provider,
                        receiver,
                    ).0
                    &&& s.wf()
                    &&& s.same_frame(self)
                },
                Err(e) => cautious_fault(self@, &self.spec_network(), segment, provider, receiver)
                    == Some(e),
            },
    {
        if !self.network.has_node(segment.start()) || !self.network.has_node(segment.end()) {
            // no tour holds a node that the network does not have
            return match self.override_reassign(segment, provider, receiver) {
                Ok((s, _)) => {
                    proof {
                        let m = self@;
                        let nw = self.spec_network();
                        let tp = tour_in(m, provider).nodes;
                        crate::tour::lemma_position_from(tp, segment.start(), 0);
                        crate::tour::lemma_position_from(tp, segment.end(), 0);
                        if provider is Vehicle {
                            assert(m.tours.contains_key(provider.idx()));
                        }
                        let (i, j) = segment_range(tp, segment)->Some_0;
                        assert(nw.contains(tp[i]));
                        assert(nw.contains(tp[j]));
                        assert(false);
                    }
                    Ok(s)
                },
                Err(e) => Err(e),
            };
        }
        match self.conflict(segment, receiver) {
            Err(e) => Err(e),
            Ok(Some(_)) => Err(ScheduleError::Conflict),
            Ok(None) => match self.override_reassign(segment, provider, receiver) {
                Ok((s, _)) => Ok(s),
                Err(e) => Err(e),
            },
        }
    }
}

/// Why a segment cannot go from the provider to the receiver without a node
/// of the receiver giving way, if it cannot: the receiver is unknown, a
/// trip or slot of the receiver would have to give way, or the segment
/// cannot go at all.
pub open spec fn cautious_fault(
    m: ScheduleModel,
    nw: &Network,
    segment: Segment,
    provider: VehicleIdx,
    receiver: VehicleIdx,
) -> Option<ScheduleError> {
    if !nw.contains(segment.start()) || !nw.contains(segment.end()) {
        override_fault(m, nw, segment, provider, receiver)
    } else if !known(m, receiver) {
        Some(ScheduleError::UnknownVehicle(receiver))
    } else if covers_something(
        displaced(nw, tour_in(m, receiver).nodes, segment.start(), segment.end()),
    ) {
        Some(ScheduleError::Conflict)
    } else {
        override_fault(m, nw, segment, provider, receiver)
    }
}

} // verus!
