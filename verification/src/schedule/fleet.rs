//! The fleet of a schedule: its vehicles, their tours and the books of the
//! depots. What is proved here does not depend on the formations.

use vstd::prelude::*;
use crate::base_types::{DepotIdx, Idx, NodeIdx, VehicleIdx, VehicleTypeIdx};
use crate::chain::{is_chain, link_ok};
use crate::distance::lemma_distance_order;
use crate::network::Network;
use crate::schedule::model::{capacity_ok, counter_ok, end_depot_of, ids_ok, start_depot_of, tours_ok, usage_ok, vehicles_ok, ScheduleModel};
use crate::schedule::modifications::{best_end_depot, best_start_depot};
use crate::schedule::depots::lemma_some_end_depot;
use crate::schedule::parts::{has_room, is_best_end_depot, is_best_start_depot, preferred};
use crate::schedule::steps::{booked, id_position, lemma_ids_without};
use crate::tour::{is_vehicle_tour, TourModel};
use crate::vehicle_types::VehicleTypes;

verus! {

/// Whether the fleet of a schedule is consistent.
pub open spec fn fleet_ok(m: ScheduleModel, nw: &Network, vt: &VehicleTypes) -> bool {
    &&& vehicles_ok(m, vt)
    &&& tours_ok(m, nw)
    &&& usage_ok(m)
    &&& capacity_ok(m, nw)
    &&& ids_ok(m.vehicle_ids, m.vehicles.dom(), false)
    &&& forall|k: Idx| #[trigger] m.vehicles.contains_key(k) ==> k < m.counter
}

/// The schedule with vehicle `k` taken off the books of its depots.
pub open spec fn unbooked(m: ScheduleModel, k: Idx) -> ScheduleModel {
    let t = m.vehicles[k].type_id.0;
    ScheduleModel {
        spawned: booked(m.spawned, (start_depot_of(m.tours[k]), t), k, false),
        despawned: booked(m.despawned, (end_depot_of(m.tours[k]), t), k, false),
        ..m
    }
}

/// The tour `nodes` of a vehicle of type `t` with the best depots for it:
/// the nearest start depot that has room, and the nearest end depot.
pub open spec fn improved(
    spawned: Map<(Idx, Idx), Set<Idx>>,
    nw: &Network,
    t: Idx,
    nodes: Seq<NodeIdx>,
) -> Seq<NodeIdx> {
    let start = best_start_depot(spawned, nw, t, nodes[1])->Some_0;
    let end = best_end_depot(nw, nodes[nodes.len() - 2])->Some_0;
    nodes.update(0, NodeIdx::StartDepot(start)).update(nodes.len() - 1, NodeIdx::EndDepot(end))
}

/// The schedule in which vehicle `k` has the tour `nodes` with the best
/// depots for it, and is booked there. The formations are as they were.
pub open spec fn retoured(m: ScheduleModel, nw: &Network, k: Idx, nodes: Seq<NodeIdx>) -> ScheduleModel {
    let t = m.vehicles[k].type_id.0;
    let u = unbooked(m, k);
    let tour = improved(u.spawned, nw, t, nodes);
    ScheduleModel {
        tours: m.tours.insert(k, TourModel { nodes: tour, dummy: false }),
        spawned: booked(u.spawned, (tour[0].idx(), t), k, true),
        despawned: booked(u.despawned, (tour.last().idx(), t), k, true),
        ..m
    }
}

/// The schedule in which vehicle `k` has left the fleet. The formations are
/// as they were.
pub open spec fn retired(m: ScheduleModel, k: Idx) -> ScheduleModel {
    let u = unbooked(m, k);
    ScheduleModel {
        vehicles: m.vehicles.remove(k),
        tours: m.tours.remove(k),
        vehicle_ids: m.vehicle_ids.remove(id_position(m.vehicle_ids, VehicleIdx::Vehicle(k))),
        ..u
    }
}

/// Whether `d` is the best of the first `n` depots for a vehicle of type
/// `t` to start at for `node`.
pub open spec fn best_start_among(
    spawned: Map<(Idx, Idx), Set<Idx>>,
    nw: &Network,
    t: Idx,
    node: NodeIdx,
    n: int,
    d: Idx,
) -> bool {
    &&& d < n
    &&& has_room(spawned, nw, t, d)
    &&& forall|e: Idx|
        e < n && #[trigger] has_room(spawned, nw, t, e) ==> preferred(
            nw.spec_dead_head_distance(NodeIdx::StartDepot(d), node),
            d,
            nw.spec_dead_head_distance(NodeIdx::StartDepot(e), node),
            e,
        )
}

proof fn lemma_best_start_among(
    spawned: Map<(Idx, Idx), Set<Idx>>,
    nw: &Network,
    t: Idx,
    node: NodeIdx,
    n: int,
    w: Idx,
)
    requires
        has_room(spawned, nw, t, w),
        w < n <= 0x10000,
    ensures
        exists|d: Idx| best_start_among(spawned, nw, t, node, n, d),
    decreases n,
{
    let c = (n - 1) as Idx;
    let dc = nw.spec_dead_head_distance(NodeIdx::StartDepot(c), node);
    if w == n - 1 && forall|e: Idx| e < n - 1 ==> !#[trigger] has_room(spawned, nw, t, e) {
        assert(best_start_among(spawned, nw, t, node, n, c));
    } else {
        let n1 = n - 1;
        let w1 = if w < n - 1 {
            w
        } else {
            choose|e: Idx| e < n - 1 && #[trigger] has_room(spawned, nw, t, e)
        };
        lemma_best_start_among(spawned, nw, t, node, n1, w1);
        let b = choose|d: Idx| best_start_among(spawned, nw, t, node, n1, d);
        let db = nw.spec_dead_head_distance(NodeIdx::StartDepot(b), node);
        if !has_room(spawned, nw, t, c) || preferred(db, b, dc, c) {
            assert(best_start_among(spawned, nw, t, node, n, b));
        } else {
            lemma_distance_order(db, dc, dc);
            assert forall|e: Idx| e < n && #[trigger] has_room(spawned, nw, t, e) implies preferred(
                dc,
                c,
                nw.spec_dead_head_distance(NodeIdx::StartDepot(e), node),
                e,
            ) by {
                let de = nw.spec_dead_head_distance(NodeIdx::StartDepot(e), node);
                if e < n - 1 {
                    assert(preferred(db, b, de, e));
                    lemma_distance_order(dc, db, de);
                }
            }
            assert(best_start_among(spawned, nw, t, node, n, c));
        }
    }
}

/// Where a depot has room, there is a best depot to start at.
pub proof fn lemma_some_start_depot(
    spawned: Map<(Idx, Idx), Set<Idx>>,
    nw: &Network,
    t: Idx,
    node: NodeIdx,
    w: Idx,
)
    requires
        nw.wf(),
        has_room(spawned, nw, t, w),
    ensures
        best_start_depot(spawned, nw, t, node) is Some,
        is_best_start_depot(spawned, nw, t, node, best_start_depot(spawned, nw, t, node)->Some_0),
{
    let n = nw.spec_depots().len() as int;
    lemma_best_start_among(spawned, nw, t, node, n, w);
    let d = choose|d: Idx| best_start_among(spawned, nw, t, node, n, d);
    assert(is_best_start_depot(spawned, nw, t, node, d));
}

/// The depot at which a vehicle starts has room for it once the vehicle is
/// taken off the books.
pub proof fn lemma_own_depot_has_room(m: ScheduleModel, nw: &Network, vt: &VehicleTypes, k: Idx)
    requires
        nw.wf(),
        fleet_ok(m, nw, vt),
        m.vehicles.contains_key(k),
    ensures
        has_room(unbooked(m, k).spawned, nw, m.vehicles[k].type_id.0, start_depot_of(m.tours[k])),
{
    let t = m.vehicles[k].type_id.0;
    let d = start_depot_of(m.tours[k]);
    assert(m.tours.contains_key(k));
    let nodes = m.tours[k].nodes;
    assert(is_vehicle_tour(nw, nodes));
    assert(nw.contains(nodes[0]));
    assert(m.spawned[(d, t)].contains(k));
    assert(m.spawned[(d, t)].finite());
    assert(m.spawned[(d, t)].len() <= nw.spec_capacity_of(DepotIdx(d), VehicleTypeIdx(t)));
}

/// What holds after a vehicle got a new tour with the best depots: the
/// fleet is consistent, and the new tour is a tour with the trips and slots
/// that it was given.
pub proof fn lemma_retoured(m: ScheduleModel, nw: &Network, vt: &VehicleTypes, k: Idx, nodes: Seq<NodeIdx>)
    requires
        nw.wf(),
        fleet_ok(m, nw, vt),
        m.vehicles.contains_key(k),
        is_vehicle_tour(nw, nodes),
        nodes[0] == m.tours[k].nodes[0],
    ensures
        fleet_ok(retoured(m, nw, k, nodes), nw, vt),
        is_vehicle_tour(nw, retoured(m, nw, k, nodes).tours[k].nodes),
        best_start_depot(unbooked(m, k).spawned, nw, m.vehicles[k].type_id.0, nodes[1]) is Some,
        best_end_depot(nw, nodes[nodes.len() - 2]) is Some,
        is_best_start_depot(
            unbooked(m, k).spawned,
            nw,
            m.vehicles[k].type_id.0,
            nodes[1],
            best_start_depot(unbooked(m, k).spawned, nw, m.vehicles[k].type_id.0, nodes[1])->Some_0,
        ),
        is_best_end_depot(
            nw,
            nodes[nodes.len() - 2],
            best_end_depot(nw, nodes[nodes.len() - 2])->Some_0,
        ),
        forall|n: NodeIdx|
            !n.is_depot() ==> (#[trigger] retoured(m, nw, k, nodes).tours[k].nodes.contains(n)
                <==> nodes.contains(n)),
{
    let t = m.vehicles[k].type_id.0;
    let u = unbooked(m, k);
    let m2 = retoured(m, nw, k, nodes);
    let last = nodes.len() - 1;
    assert(m.tours.contains_key(k));
    lemma_own_depot_has_room(m, nw, vt, k);
    assert(nw.contains(nodes[1]));
    assert(nw.contains(nodes[last]));
    lemma_some_start_depot(u.spawned, nw, t, nodes[1], start_depot_of(m.tours[k]));
    lemma_some_end_depot(nw, nodes[last - 1], nodes[last]);
    let sd = best_start_depot(u.spawned, nw, t, nodes[1])->Some_0;
    let ed = best_end_depot(nw, nodes[last - 1])->Some_0;
    let tour = m2.tours[k].nodes;
    assert(tour == improved(u.spawned, nw, t, nodes));
    assert(has_room(u.spawned, nw, t, sd));
    assert(is_vehicle_tour(nw, tour)) by {
        assert forall|i: int| 0 <= i < tour.len() implies nw.contains(#[trigger] tour[i]) by {
            if 0 < i < last {
                assert(nw.contains(nodes[i]));
            }
        }
        assert forall|i: int| 0 <= i < tour.len() - 1 implies #[trigger] link_ok(nw, tour, i) by {
            assert(link_ok(nw, nodes, i));
            if i == 0 {
                nw.lemma_depots_connect(tour[0], tour[1]);
            }
            if i == last - 1 {
                nw.lemma_depots_connect(tour[i], tour[last]);
            }
        }
    }
    assert forall|n: NodeIdx| !n.is_depot() implies (#[trigger] tour.contains(n) <==> nodes.contains(
        n,
    )) by {
        if tour.contains(n) {
            let i = choose|i: int| 0 <= i < tour.len() && tour[i] == n;
            assert(nodes[i] == n);
        }
        if nodes.contains(n) {
            let i = choose|i: int| 0 <= i < nodes.len() && nodes[i] == n;
            assert(tour[i] == n);
        }
    }
    assert(vehicles_ok(m2, vt)) by {
        assert forall|x: Idx| #[trigger] m2.vehicles.contains_key(x) implies m2.tours.contains_key(x) by {
            assert(m.vehicles.contains_key(x));
        }
    }
    assert(tours_ok(m2, nw)) by {
        assert forall|x: Idx| #[trigger] m2.tours.contains_key(x) implies {
            &&& m2.vehicles.contains_key(x)
            &&& !m2.tours[x].dummy
            &&& is_vehicle_tour(nw, m2.tours[x].nodes)
        } by {
            if x != k {
                assert(m.tours.contains_key(x));
            }
        }
    }
    let old_s = (start_depot_of(m.tours[k]), t);
    let old_e = (end_depot_of(m.tours[k]), t);
    assert(usage_ok(m2)) by {
        assert forall|d: Idx, ty: Idx, x: Idx| #![trigger m2.spawned[(d, ty)].contains(x)]
            m2.spawned[(d, ty)].contains(x) <==> (m2.vehicles.contains_key(x)
                && m2.vehicles[x].type_id.0 == ty && start_depot_of(m2.tours[x]) == d) by {
            assert(m.spawned[(d, ty)].contains(x) <==> (m.vehicles.contains_key(x)
                && m.vehicles[x].type_id.0 == ty && start_depot_of(m.tours[x]) == d));
        }
        assert forall|d: Idx, ty: Idx, x: Idx| #![trigger m2.despawned[(d, ty)].contains(x)]
            m2.despawned[(d, ty)].contains(x) <==> (m2.vehicles.contains_key(x)
                && m2.vehicles[x].type_id.0 == ty && end_depot_of(m2.tours[x]) == d) by {
            assert(m.despawned[(d, ty)].contains(x) <==> (m.vehicles.contains_key(x)
                && m.vehicles[x].type_id.0 == ty && end_depot_of(m.tours[x]) == d));
        }
        assert forall|d: Idx, ty: Idx| (#[trigger] m2.spawned[(d, ty)]).finite() by {
            assert(m.spawned[(d, ty)].finite());
            assert(m.spawned[old_s].finite());
            assert(u.spawned[(d, ty)].finite());
        }
        assert forall|d: Idx, ty: Idx| (#[trigger] m2.despawned[(d, ty)]).finite() by {
            assert(m.despawned[(d, ty)].finite());
            assert(m.despawned[old_e].finite());
            assert(u.despawned[(d, ty)].finite());
        }
    }
    assert(capacity_ok(m2, nw)) by {
        assert forall|d: Idx, ty: Idx|
            (#[trigger] m2.spawned[(d, ty)]).len() <= nw.spec_capacity_of(
                DepotIdx(d),
                VehicleTypeIdx(ty),
            ) by {
            assert(m.spawned[(d, ty)].len() <= nw.spec_capacity_of(DepotIdx(d), VehicleTypeIdx(ty)));
            assert(m.spawned[(d, ty)].finite());
            assert(u.spawned[(d, ty)].finite());
            assert(u.spawned[(d, ty)].len() <= m.spawned[(d, ty)].len());
        }
    }
}

/// The fleet stays consistent when a vehicle leaves it.
pub proof fn lemma_retired(m: ScheduleModel, nw: &Network, vt: &VehicleTypes, k: Idx)
    requires
        nw.wf(),
        fleet_ok(m, nw, vt),
        m.vehicles.contains_key(k),
    ensures
        fleet_ok(retired(m, k), nw, vt),
{
    let t = m.vehicles[k].type_id.0;
    let m2 = retired(m, k);
    assert(m.tours.contains_key(k));
    assert(vehicles_ok(m2, vt)) by {
        assert forall|x: Idx| #[trigger] m2.vehicles.contains_key(x) implies {
            &&& m2.tours.contains_key(x)
            &&& m2.vehicles[x].id == VehicleIdx::Vehicle(x)
            &&& vt.types().contains_key(m2.vehicles[x].type_id.0)
            &&& m2.vehicles[x].seats == vt.types()[m2.vehicles[x].type_id.0].spec_seats()
            &&& m2.vehicles[x].capacity == vt.types()[m2.vehicles[x].type_id.0].spec_capacity()
        } by {
            assert(m.vehicles.contains_key(x));
        }
    }
    assert(tours_ok(m2, nw)) by {
        assert forall|x: Idx| #[trigger] m2.tours.contains_key(x) implies {
            &&& m2.vehicles.contains_key(x)
            &&& !m2.tours[x].dummy
            &&& is_vehicle_tour(nw, m2.tours[x].nodes)
        } by {
            assert(m.tours.contains_key(x));
        }
    }
    assert(usage_ok(m2)) by {
        assert forall|d: Idx, ty: Idx, x: Idx| #![trigger m2.spawned[(d, ty)].contains(x)]
            m2.spawned[(d, ty)].contains(x) <==> (m2.vehicles.contains_key(x)
                && m2.vehicles[x].type_id.0 == ty && start_depot_of(m2.tours[x]) == d) by {
            assert(m.spawned[(d, ty)].contains(x) <==> (m.vehicles.contains_key(x)
                && m.vehicles[x].type_id.0 == ty && start_depot_of(m.tours[x]) == d));
        }
        assert forall|d: Idx, ty: Idx, x: Idx| #![trigger m2.despawned[(d, ty)].contains(x)]
            m2.despawned[(d, ty)].contains(x) <==> (m2.vehicles.contains_key(x)
                && m2.vehicles[x].type_id.0 == ty && end_depot_of(m2.tours[x]) == d) by {
            assert(m.despawned[(d, ty)].contains(x) <==> (m.vehicles.contains_key(x)
                && m.vehicles[x].type_id.0 == ty && end_depot_of(m.tours[x]) == d));
        }
        assert forall|d: Idx, ty: Idx| (#[trigger] m2.spawned[(d, ty)]).finite() by {
            assert(m.spawned[(d, ty)].finite());
        }
        assert forall|d: Idx, ty: Idx| (#[trigger] m2.despawned[(d, ty)]).finite() by {
            assert(m.despawned[(d, ty)].finite());
        }
    }
    assert(capacity_ok(m2, nw)) by {
        assert forall|d: Idx, ty: Idx|
            (#[trigger] m2.spawned[(d, ty)]).len() <= nw.spec_capacity_of(
                DepotIdx(d),
                VehicleTypeIdx(ty),
            ) by {
            assert(m.spawned[(d, ty)].len() <= nw.spec_capacity_of(DepotIdx(d), VehicleTypeIdx(ty)));
            assert(m.spawned[(d, ty)].finite());
        }
    }
    assert(ids_ok(m2.vehicle_ids, m2.vehicles.dom(), false)) by {
        lemma_ids_without(m.vehicle_ids, m.vehicles.dom(), false, VehicleIdx::Vehicle(k));
        assert(m2.vehicles.dom() =~= m.vehicles.dom().remove(k));
    }
    assert forall|x: Idx| #[trigger] m2.vehicles.contains_key(x) implies x < m2.counter by {
        assert(m.vehicles.contains_key(x));
    }
}

} // verus!
