//! Giving every vehicle the end depot nearest to where its tour ends.

use vstd::prelude::*;
use crate::base_types::{DepotIdx, Idx, NodeIdx, VehicleIdx, VehicleTypeIdx};
use crate::chain::{is_chain, link_ok};
use crate::network::Network;
use crate::persistent::{formation_map_clone, tour_entries, tour_map_clone, tour_map_get, tour_map_update, usage_entries, usage_map_clone, vehicle_map_clone, vehicle_map_get};
use crate::schedule::model::{capacity_ok, counter_ok, despawned_by_key, dummies_ok, end_depot_of, formations_ok, ids_ok, schedule_ok, spawned_by_key, start_depot_of, tours_ok, usage_ok, vehicles_ok, ScheduleModel};
use crate::schedule::modifications::{best_end_depot, copy_ids};
use crate::schedule::parts::{book_vehicle, find_best_end_depot, is_best_end_depot, lemma_best_depot_unique};
use crate::schedule::steps::booked;
use crate::schedule::{Schedule, ScheduleError};
use crate::tour::{is_vehicle_tour, TourModel};
use crate::train_formation::has_id;
use crate::vehicle_types::VehicleTypes;

verus! {

/// The schedule in which the tour of vehicle `k` ends at depot `d`.
pub open spec fn with_end_depot(m: ScheduleModel, k: Idx, d: Idx) -> ScheduleModel {
    let tour = m.tours[k];
    let t = m.vehicles[k].type_id.0;
    ScheduleModel {
        tours: m.tours.insert(
            k,
            TourModel { nodes: tour.nodes.update(tour.nodes.len() - 1, NodeIdx::EndDepot(d)), dummy: false },
        ),
        despawned: booked(booked(m.despawned, (end_depot_of(tour), t), k, false), (d, t), k, true),
        ..m
    }
}

/// The depot nearest to where the tour of vehicle `k` ends.
pub open spec fn nearest_end_depot(m: ScheduleModel, nw: &Network, k: Idx) -> Idx {
    best_end_depot(nw, m.tours[k].nodes[m.tours[k].nodes.len() - 2])->Some_0
}

/// The schedule after the first `n` vehicles, in the order of their ids,
/// were given the end depot nearest to where their tour ends.
pub open spec fn with_nearest_end_depots(m: ScheduleModel, nw: &Network, n: int) -> ScheduleModel
    decreases n,
{
    if n <= 0 {
        m
    } else {
        let before = with_nearest_end_depots(m, nw, n - 1);
        let k = m.vehicle_ids[n - 1].idx();
        with_end_depot(before, k, nearest_end_depot(before, nw, k))
    }
}

/// A consistent schedule stays consistent when a tour gets another end
/// depot.
pub proof fn lemma_with_end_depot_ok(m: ScheduleModel, nw: &Network, vt: &VehicleTypes, k: Idx, d: Idx)
    requires
        nw.wf(),
        schedule_ok(m, nw, vt),
        m.vehicles.contains_key(k),
        d < nw.spec_depots().len(),
    ensures
        schedule_ok(with_end_depot(m, k, d), nw, vt),
        with_end_depot(m, k, d).vehicle_ids == m.vehicle_ids,
        with_end_depot(m, k, d).vehicles == m.vehicles,
        with_end_depot(m, k, d).formations == m.formations,
        forall|x: Idx| x != k && m.tours.contains_key(x) ==> with_end_depot(m, k, d).tours[x]
            == m.tours[x],
        with_end_depot(m, k, d).tours[k].nodes == m.tours[k].nodes.update(
            m.tours[k].nodes.len() - 1,
            NodeIdx::EndDepot(d),
        ),
        end_depot_of(m.tours[k]) == d ==> with_end_depot(m, k, d) == m,
{
    let m2 = with_end_depot(m, k, d);
    let t = m.vehicles[k].type_id.0;
    assert(m.tours.contains_key(k));
    let old = m.tours[k].nodes;
    let new = m2.tours[k].nodes;
    let last = old.len() - 1;
    assert(is_vehicle_tour(nw, old));
    assert(is_vehicle_tour(nw, new)) by {
        assert forall|i: int| 0 <= i < new.len() implies nw.contains(#[trigger] new[i]) by {
            if i < last {
                assert(nw.contains(old[i]));
            }
        }
        assert forall|i: int| 0 <= i < new.len() - 1 implies #[trigger] link_ok(nw, new, i) by {
            assert(link_ok(nw, old, i));
            if i == last - 1 {
                nw.lemma_depots_connect(old[i], NodeIdx::EndDepot(d));
            }
        }
    }
    assert forall|n: NodeIdx| !n.is_depot() implies (new.contains(n) <==> old.contains(n)) by {
        if new.contains(n) {
            let i = choose|i: int| 0 <= i < new.len() && new[i] == n;
            assert(old[i] == n);
        }
        if old.contains(n) {
            let i = choose|i: int| 0 <= i < old.len() && old[i] == n;
            assert(old[last].is_depot());
            assert(new[i] == n);
        }
    }
    assert(vehicles_ok(m2, vt)) by {
        assert forall|x: Idx| #[trigger] m2.vehicles.contains_key(x) implies m2.tours.contains_key(x) by {
            assert(m.vehicles.contains_key(x));
        }
    }
    assert(tours_ok(m2, nw)) by {
        assert forall|x: Idx| #[trigger] m2.tours.contains_key(x) implies {
            &&& m2.vehicles.contains_key(x)
            &&& !m2.tours[x].dummy
            &&& is_vehicle_tour(nw, m2.tours[x].nodes)
        } by {
            if x != k {
                assert(m.tours.contains_key(x));
            }
        }
    }
    assert(formations_ok(m2, nw)) by {
        assert forall|n: NodeIdx, x: Idx| nw.coverable(n) implies (#[trigger] has_id(
            m2.formations[n],
            VehicleIdx::Vehicle(x),
        ) <==> (m2.tours.contains_key(x) && m2.tours[x].nodes.contains(n))) by {
            assert(has_id(m.formations[n], VehicleIdx::Vehicle(x)) <==> (m.tours.contains_key(x)
                && m.tours[x].nodes.contains(n)));
        }
    }
    let key_old = (end_depot_of(m.tours[k]), t);
    let key_new = (d, t);
    assert(usage_ok(m2)) by {
        assert forall|e: Idx, ty: Idx, x: Idx| #![trigger m2.despawned[(e, ty)].contains(x)]
            m2.despawned[(e, ty)].contains(x) <==> (m2.vehicles.contains_key(x)
                && m2.vehicles[x].type_id.0 == ty && end_depot_of(m2.tours[x]) == e) by {
            assert(m.despawned[(e, ty)].contains(x) <==> (m.vehicles.contains_key(x)
                && m.vehicles[x].type_id.0 == ty && end_depot_of(m.tours[x]) == e));
        }
        assert forall|e: Idx, ty: Idx, x: Idx| #![trigger m2.spawned[(e, ty)].contains(x)]
            m2.spawned[(e, ty)].contains(x) <==> (m2.vehicles.contains_key(x)
                && m2.vehicles[x].type_id.0 == ty && start_depot_of(m2.tours[x]) == e) by {
            assert(m.spawned[(e, ty)].contains(x) <==> (m.vehicles.contains_key(x)
                && m.vehicles[x].type_id.0 == ty && start_depot_of(m.tours[x]) == e));
        }
        assert forall|e: Idx, ty: Idx| (#[trigger] m2.despawned[(e, ty)]).finite() by {
            assert(m.despawned[(e, ty)].finite());
            assert(m.despawned[key_old].finite());
        }
    }
    if end_depot_of(m.tours[k]) == d {
        assert(old[last] is EndDepot);
        assert(new =~= old);
        assert(m2.tours =~= m.tours);
        assert(m.despawned[key_old].contains(k) <==> (m.vehicles.contains_key(k)
            && m.vehicles[k].type_id.0 == key_old.1 && end_depot_of(m.tours[k]) == key_old.0));
        assert(m.despawned[key_old].remove(k).insert(k) =~= m.despawned[key_old]);
        assert(m2.despawned =~= m.despawned);
    }
}

/// What holds after the first `n` vehicles got their nearest end depot: the
/// schedule is consistent, it has the vehicles it had, every tour but for
/// its end depot is as it was, and the tours of those `n` vehicles end at
/// the depot nearest to where they end.
pub proof fn lemma_with_nearest_end_depots(m: ScheduleModel, nw: &Network, vt: &VehicleTypes, n: int)
    requires
        nw.wf(),
        schedule_ok(m, nw, vt),
        0 <= n <= m.vehicle_ids.len(),
    ensures
        schedule_ok(with_nearest_end_depots(m, nw, n), nw, vt),
        with_nearest_end_depots(m, nw, n).vehicle_ids == m.vehicle_ids,
        with_nearest_end_depots(m, nw, n).vehicles == m.vehicles,
        with_nearest_end_depots(m, nw, n).formations == m.formations,
        forall|x: Idx| #[trigger]
            m.tours.contains_key(x) ==> {
                let before = m.tours[x].nodes;
                let after = with_nearest_end_depots(m, nw, n).tours[x].nodes;
                &&& after.len() == before.len()
                &&& after.drop_last() == before.drop_last()
            },
        forall|i: int|
            0 <= i < n ==> end_depot_of(
                with_nearest_end_depots(m, nw, n).tours[(#[trigger] m.vehicle_ids[i]).idx()],
            ) == nearest_end_depot(m, nw, m.vehicle_ids[i].idx()),
        forall|i: int|
            n <= i < m.vehicle_ids.len() ==> with_nearest_end_depots(m, nw, n).tours[(
            #[trigger] m.vehicle_ids[i]).idx()] == m.tours[m.vehicle_ids[i].idx()],
    decreases n,
{
    if n > 0 {
        lemma_with_nearest_end_depots(m, nw, vt, n - 1);
        let before = with_nearest_end_depots(m, nw, n - 1);
        let k = m.vehicle_ids[n - 1].idx();
        assert(m.vehicles.dom().contains(k));
        assert(m.vehicles.contains_key(k));
        assert(m.tours.contains_key(k));
        assert(before.tours.contains_key(k));
        let nodes = before.tours[k].nodes;
        assert(is_vehicle_tour(nw, nodes));
        let node = nodes[nodes.len() - 2];
        assert(nw.contains(node));
        lemma_some_end_depot(nw, node, nodes.last());
        let d = nearest_end_depot(before, nw, k);
        lemma_with_end_depot_ok(before, nw, vt, k, d);
        let after = with_end_depot(before, k, d);
        assert(m.tours[k].nodes.drop_last() == nodes.drop_last());
        assert(m.tours[k].nodes[m.tours[k].nodes.len() - 2] == m.tours[k].nodes.drop_last()[nodes.len() - 2]);
        assert(nodes[nodes.len() - 2] == nodes.drop_last()[nodes.len() - 2]);
        assert(nearest_end_depot(m, nw, k) == d);
        assert forall|x: Idx| #[trigger] m.tours.contains_key(x) implies {
            let b = m.tours[x].nodes;
            let a = after.tours[x].nodes;
            &&& a.len() == b.len()
            &&& a.drop_last() == b.drop_last()
        } by {
            assert(before.tours.contains_key(x)) by {
                assert(m.vehicles.contains_key(x));
                assert(before.vehicles.contains_key(x));
            }
            if x == k {
                assert(after.tours[k].nodes.drop_last() =~= nodes.drop_last());
            }
        }
        assert forall|i: int| 0 <= i < n implies end_depot_of(
            after.tours[(#[trigger] m.vehicle_ids[i]).idx()],
        ) == nearest_end_depot(m, nw, m.vehicle_ids[i].idx()) by {
            if i < n - 1 {
                assert(m.vehicle_ids[i].idx() < m.vehicle_ids[n - 1].idx());
                let x = m.vehicle_ids[i].idx();
                assert(m.vehicles.dom().contains(x));
                assert(m.tours.contains_key(x));
                assert(before.tours.contains_key(x)) by {
                    assert(before.vehicles.contains_key(x));
                }
            }
        }
        assert forall|i: int| n <= i < m.vehicle_ids.len() implies after.tours[(
        #[trigger] m.vehicle_ids[i]).idx()] == m.tours[m.vehicle_ids[i].idx()] by {
            assert(m.vehicle_ids[n - 1].idx() < m.vehicle_ids[i].idx());
            let x = m.vehicle_ids[i].idx();
            assert(m.vehicles.dom().contains(x));
            assert(m.tours.contains_key(x));
            assert(before.tours.contains_key(x)) by {
                assert(before.vehicles.contains_key(x));
            }
        }
    }
}

/// Whether `d` is the nearest to `node` of the first `n` depots.
pub open spec fn nearest_among(nw: &Network, node: NodeIdx, n: int, d: Idx) -> bool {
    d < n && forall|e: Idx|
        e < n ==> crate::schedule::parts::preferred(
            nw.spec_dead_head_distance(node, NodeIdx::EndDepot(d)),
            d,
            #[trigger] nw.spec_dead_head_distance(node, NodeIdx::EndDepot(e)),
            e,
        )
}

/// Where a network has a depot, every node has a depot nearest to it.
pub proof fn lemma_some_end_depot(nw: &Network, node: NodeIdx, witness: NodeIdx)
    requires
        nw.wf(),
        nw.contains(witness),
        witness is EndDepot,
    ensures
        best_end_depot(nw, node) is Some,
        is_best_end_depot(nw, node, best_end_depot(nw, node)->Some_0),
{
    let n = nw.spec_depots().len() as int;
    lemma_nearest_exists(nw, node, n);
    let d = choose|d: Idx| nearest_among(nw, node, n, d);
    assert(is_best_end_depot(nw, node, d));
}

proof fn lemma_nearest_exists(nw: &Network, node: NodeIdx, n: int)
    requires
        1 <= n <= nw.spec_depots().len(),
        n <= 0x10000,
    ensures
        exists|d: Idx| nearest_among(nw, node, n, d),
    decreases n,
{
    if n == 1 {
        assert(nearest_among(nw, node, n, 0));
    } else {
        let n1 = n - 1;
        lemma_nearest_exists(nw, node, n1);
        let b = choose|d: Idx| nearest_among(nw, node, n1, d);
        let c = (n - 1) as Idx;
        let db = nw.spec_dead_head_distance(node, NodeIdx::EndDepot(b));
        let dc = nw.spec_dead_head_distance(node, NodeIdx::EndDepot(c));
        if crate::schedule::parts::preferred(db, b, dc, c) {
            assert(nearest_among(nw, node, n, b));
        } else {
            crate::distance::lemma_distance_order(db, dc, dc);
            assert forall|e: Idx| e < n implies crate::schedule::parts::preferred(
                dc,
                c,
                #[trigger] nw.spec_dead_head_distance(node, NodeIdx::EndDepot(e)),
                e,
            ) by {
                let de = nw.spec_dead_head_distance(node, NodeIdx::EndDepot(e));
                if e < n - 1 {
                    assert(crate::schedule::parts::preferred(db, b, de, e));
                    crate::distance::lemma_distance_order(dc, db, de);
                }
            }
            assert(nearest_among(nw, node, n, c));
        }
    }
}

/// Giving every vehicle its nearest end depot a second time changes nothing.
pub proof fn lemma_nearest_end_depots_twice(m: ScheduleModel, nw: &Network, vt: &VehicleTypes)
    requires
        nw.wf(),
        schedule_ok(m, nw, vt),
    ensures
        with_nearest_end_depots(
            with_nearest_end_depots(m, nw, m.vehicle_ids.len() as int),
            nw,
            m.vehicle_ids.len() as int,
        ) == with_nearest_end_depots(m, nw, m.vehicle_ids.len() as int),
{
    let len = m.vehicle_ids.len() as int;
    let once = with_nearest_end_depots(m, nw, len);
    lemma_with_nearest_end_depots(m, nw, vt, len);
    lemma_again_is_same(m, once, nw, vt, len);
}

proof fn lemma_again_is_same(m: ScheduleModel, once: ScheduleModel, nw: &Network, vt: &VehicleTypes, n: int)
    requires
        nw.wf(),
        schedule_ok(m, nw, vt),
        once == with_nearest_end_depots(m, nw, m.vehicle_ids.len() as int),
        0 <= n <= m.vehicle_ids.len(),
    ensures
        with_nearest_end_depots(once, nw, n) == once,
    decreases n,
{
    let len = m.vehicle_ids.len() as int;
    lemma_with_nearest_end_depots(m, nw, vt, len);
    if n > 0 {
        lemma_again_is_same(m, once, nw, vt, n - 1);
        let k = once.vehicle_ids[n - 1].idx();
        assert(k == m.vehicle_ids[n - 1].idx());
        assert(m.vehicles.dom().contains(k));
        assert(m.vehicles.contains_key(k));
        assert(m.tours.contains_key(k));
        let before = m.tours[k].nodes;
        let after = once.tours[k].nodes;
        assert(after.drop_last() == before.drop_last());
        assert(after[after.len() - 2] == after.drop_last()[after.len() - 2]);
        assert(before[before.len() - 2] == before.drop_last()[before.len() - 2]);
        assert(nearest_end_depot(once, nw, k) == nearest_end_depot(m, nw, k));
        assert(end_depot_of(once.tours[k]) == nearest_end_depot(m, nw, k));
        lemma_some_end_depot_of_tour(once, nw, vt, k);
        lemma_with_end_depot_ok(once, nw, vt, k, nearest_end_depot(once, nw, k));
    }
}

/// The depot nearest to where a tour of a consistent schedule ends is a
/// depot of the network.
pub proof fn lemma_some_end_depot_of_tour(m: ScheduleModel, nw: &Network, vt: &VehicleTypes, k: Idx)
    requires
        nw.wf(),
        schedule_ok(m, nw, vt),
        m.vehicles.contains_key(k),
    ensures
        nearest_end_depot(m, nw, k) < nw.spec_depots().len(),
        is_best_end_depot(nw, m.tours[k].nodes[m.tours[k].nodes.len() - 2], nearest_end_depot(m, nw, k)),
{
    assert(m.tours.contains_key(k));
    let nodes = m.tours[k].nodes;
    assert(is_vehicle_tour(nw, nodes));
    assert(nw.contains(nodes.last()));
    lemma_some_end_depot(nw, nodes[nodes.len() - 2], nodes.last());
}

impl Schedule {
    /// The schedule in which every vehicle ends its tour at the depot
    /// nearest to where its last trip or slot ends. Doing this a second time
    /// changes nothing.
    pub fn reassign_end_depots_greedily(&self) -> (r: Result<Schedule, ScheduleError>)
        requires
            self.wf(),
        ensures
            r matches Ok(s) && {
                &&& s@ == with_nearest_end_depots(
                    self@,
                    &self.spec_network(),
                    self@.vehicle_ids.len() as int,
                )
                &&& s.wf()
                &&& s.spec_network() == self.spec_network()
                &&& s.spec_vehicle_types() == self.spec_vehicle_types()
                &&& s.spec_config() == self.spec_config()
            },
    {
        let ghost m = self@;
        let ghost nw = self.spec_network();
        let ghost vt = self.spec_vehicle_types();
        let mut tours = tour_map_clone(&self.tours);
        let mut depot_usage = usage_map_clone(&self.depot_usage);
        let mut i: usize = 0;
        while i < self.vehicle_ids_sorted.len()
            invariant
                self.wf(),
                m == self@,
                nw == self.spec_network(),
                vt == self.spec_vehicle_types(),
                i <= self.vehicle_ids_sorted@.len(),
                self.vehicle_ids_sorted@ == m.vehicle_ids,
                (ScheduleModel {
                    tours: tour_entries(tours),
                    despawned: despawned_by_key(usage_entries(depot_usage)),
                    spawned: spawned_by_key(usage_entries(depot_usage)),
                    ..m
                }) == with_nearest_end_depots(m, &nw, i as int),
            decreases self.vehicle_ids_sorted.len() - i,
        {
            let id = self.vehicle_ids_sorted[i];
            let k = id.idx();
            let ghost before = with_nearest_end_depots(m, &nw, i as int);
            proof {
                lemma_with_nearest_end_depots(m, &nw, &vt, i as int);
                assert(m.vehicle_ids[i as int] == id);
                assert(m.vehicles.dom().contains(k));
                assert(m.vehicles.contains_key(k));
                assert(before.vehicles.contains_key(k));
                assert(before.tours.contains_key(k));
                lemma_some_end_depot_of_tour(before, &nw, &vt, k);
            }
            let vehicle = vehicle_map_get(&self.vehicles, k).unwrap();
            let t = vehicle.type_id.0;
            let tour = tour_map_get(&tours, k).unwrap();
            assert(is_vehicle_tour(&nw, tour@.nodes));
            let last = tour.last_non_depot(&self.network).unwrap();
            let old_end = tour.last_node().idx();
            let found = find_best_end_depot(&self.network, last);
            let depot = match found {
                Some(d) => d,
                None => NodeIdx::EndDepot(old_end),
            };
            proof {
                let c = nearest_end_depot(before, &nw, k);
                lemma_best_depot_unique(m.spawned, &nw, t, last, c, depot.idx());
                assert(depot == NodeIdx::EndDepot(c));
            }
            let new_tour = match tour.replace_end_depot(depot, &self.network) {
                Ok(t) => t,
                Err(_) => {
                    proof {
                        nw.lemma_depots_connect(last, depot);
                        assert(false);
                    }
                    tour.clone()
                },
            };
            tours = tour_map_update(&tours, k, new_tour);
            let usage = book_vehicle(&depot_usage, (old_end, t), k, false, false);
            depot_usage = book_vehicle(&usage, (depot.idx(), t), k, false, true);
            i += 1;
        }
        let s = Schedule {
            vehicles: vehicle_map_clone(&self.vehicles),
            tours,
            train_formations: formation_map_clone(&self.train_formations),
            depot_usage,
            dummy_tours: tour_map_clone(&self.dummy_tours),
            vehicle_counter: self.vehicle_counter,
            vehicle_ids_sorted: copy_ids(&self.vehicle_ids_sorted),
            dummy_ids_sorted: copy_ids(&self.dummy_ids_sorted),
            config: self.config.clone(),
            vehicle_types: self.vehicle_types.clone(),
            network: self.network.clone(),
        };
        proof {
            lemma_with_nearest_end_depots(m, &nw, &vt, m.vehicle_ids.len() as int);
        }
        Ok(s)
    }

    /// Giving every vehicle its nearest end depot twice gives the same
    /// schedule as doing it once.
    pub proof fn lemma_reassign_end_depots_idempotent(&self, once: Schedule, twice: Schedule)
        requires
            self.wf(),
            once@ == with_nearest_end_depots(
                self@,
                &self.spec_network(),
                self@.vehicle_ids.len() as int,
            ),
            once.spec_network() == self.spec_network(),
            twice@ == with_nearest_end_depots(
                once@,
                &once.spec_network(),
                once@.vehicle_ids.len() as int,
            ),
        ensures
            twice@ == once@,
    {
        lemma_with_nearest_end_depots(
            self@,
            &self.spec_network(),
            &self.spec_vehicle_types(),
            self@.vehicle_ids.len() as int,
        );
        lemma_nearest_end_depots_twice(self@, &self.spec_network(), &self.spec_vehicle_types());
    }
}

} // verus!
