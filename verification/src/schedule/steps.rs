//! The changes of a schedule, as changes of what the contracts see, and the
//! proofs that they keep a schedule consistent.

use vstd::prelude::*;
use crate::base_types::{DepotIdx, Idx, NodeIdx, VehicleIdx, VehicleTypeIdx};
use crate::chain::{lemma_chain_depots_at_ends, lemma_chain_distinct};
use crate::network::Network;
use crate::schedule::formation_laws::{lemma_after_hand_over, lemma_members_after_hand_over};
use crate::schedule::model::{capacity_ok, counter_ok, dummies_ok, end_depot_of, formations_ok, ids_ok, schedule_ok, start_depot_of, tours_ok, usage_ok, valid_members, vehicles_ok, ScheduleModel};
use crate::schedule::parts::{handed_over, has_room, with_member};
use crate::tour::{is_vehicle_tour, TourModel};
use crate::train_formation::{has_id, ids_distinct, lemma_position_of_id, position_of_id, Vehicle};
use crate::vehicle_types::VehicleTypes;

verus! {

/// The formations after the trips and slots among `nodes` were handed over.
pub open spec fn formations_after(
    formations: Map<NodeIdx, Seq<Vehicle>>,
    nodes: Seq<NodeIdx>,
    provider: Option<Idx>,
    receiver: Option<Vehicle>,
) -> Map<NodeIdx, Seq<Vehicle>> {
    Map::new(
        |n: NodeIdx| formations.contains_key(n),
        |n: NodeIdx|
            if nodes.contains(n) && !n.is_depot() {
                handed_over(formations[n], provider, receiver)
            } else {
                formations[n]
            },
    )
}

/// The books of the depots after vehicle `k` was put in or taken out under
/// `key`.
pub open spec fn booked(
    sets: Map<(Idx, Idx), Set<Idx>>,
    key: (Idx, Idx),
    k: Idx,
    present: bool,
) -> Map<(Idx, Idx), Set<Idx>> {
    sets.insert(key, with_member(sets[key], k, present))
}

/// The position of an id in a list of ids that holds it once.
pub open spec fn id_position(ids: Seq<VehicleIdx>, id: VehicleIdx) -> int {
    choose|i: int| 0 <= i < ids.len() && ids[i] == id
}

/// Whether `v` is a vehicle as the pool of types describes it.
pub open spec fn vehicle_fits(v: Vehicle, vt: &VehicleTypes) -> bool {
    &&& v.id is Vehicle
    &&& vt.types().contains_key(v.type_id.0)
    &&& v.seats == vt.types()[v.type_id.0].spec_seats()
    &&& v.capacity == vt.types()[v.type_id.0].spec_capacity()
}

/// The schedule with one more vehicle on the tour `nodes`: the vehicle
/// joins the tail of the formation of every trip and slot of its tour and
/// is booked at its two depots.
pub open spec fn with_vehicle(m: ScheduleModel, v: Vehicle, nodes: Seq<NodeIdx>) -> ScheduleModel {
    let k = v.id.idx();
    let t = v.type_id.0;
    ScheduleModel {
        vehicles: m.vehicles.insert(k, v),
        tours: m.tours.insert(k, TourModel { nodes, dummy: false }),
        dummy_tours: m.dummy_tours,
        formations: formations_after(m.formations, nodes, None, Some(v)),
        spawned: booked(m.spawned, (nodes[0].idx(), t), k, true),
        despawned: booked(m.despawned, (nodes.last().idx(), t), k, true),
        vehicle_ids: m.vehicle_ids.push(v.id),
        dummy_ids: m.dummy_ids,
        counter: m.counter + 1,
    }
}

/// The schedule without the vehicle `k`: it leaves the formation of every
/// trip and slot of its tour and the books of its two depots.
pub open spec fn without_vehicle(m: ScheduleModel, k: Idx) -> ScheduleModel {
    let t = m.vehicles[k].type_id.0;
    let tour = m.tours[k];
    ScheduleModel {
        vehicles: m.vehicles.remove(k),
        tours: m.tours.remove(k),
        dummy_tours: m.dummy_tours,
        formations: formations_after(m.formations, tour.nodes, Some(k), None),
        spawned: booked(m.spawned, (start_depot_of(tour), t), k, false),
        despawned: booked(m.despawned, (end_depot_of(tour), t), k, false),
        vehicle_ids: m.vehicle_ids.remove(id_position(m.vehicle_ids, VehicleIdx::Vehicle(k))),
        dummy_ids: m.dummy_ids,
        counter: m.counter,
    }
}

/// The schedule without the dummy `k`.
pub open spec fn without_dummy(m: ScheduleModel, k: Idx) -> ScheduleModel {
    ScheduleModel {
        dummy_tours: m.dummy_tours.remove(k),
        dummy_ids: m.dummy_ids.remove(id_position(m.dummy_ids, VehicleIdx::Dummy(k))),
        ..m
    }
}

/// A list of ids in rising order stays one without one of its ids.
pub proof fn lemma_ids_without(ids: Seq<VehicleIdx>, keys: Set<Idx>, dummy: bool, id: VehicleIdx)
    requires
        ids_ok(ids, keys, dummy),
        keys.contains(id.idx()),
        id.is_dummy() == dummy,
    ensures
        0 <= id_position(ids, id) < ids.len(),
        ids[id_position(ids, id)] == id,
        ids_ok(ids.remove(id_position(ids, id)), keys.remove(id.idx()), dummy),
{
    let w = choose|i: int| 0 <= i < ids.len() && (#[trigger] ids[i]).idx() == id.idx();
    assert(ids[w] == id);
    let p = id_position(ids, id);
    let g = ids.remove(p);
    let keys2 = keys.remove(id.idx());
    assert forall|i: int| 0 <= i < g.len() implies (#[trigger] g[i]).is_dummy() == dummy
        && keys2.contains(g[i].idx()) by {
        let u = if i < p {
            i
        } else {
            i + 1
        };
        assert(g[i] == ids[u]);
        if u < p {
            assert(ids[u].idx() < ids[p].idx());
        } else {
            assert(ids[p].idx() < ids[u].idx());
        }
    }
    assert forall|i: int, j: int| #![trigger g[i], g[j]] 0 <= i < j < g.len() implies g[i].idx()
        < g[j].idx() by {
        let a = if i < p {
            i
        } else {
            i + 1
        };
        let b = if j < p {
            j
        } else {
            j + 1
        };
        assert(ids[a].idx() < ids[b].idx());
    }
    assert forall|k: Idx| keys2.contains(k) implies exists|i: int|
        0 <= i < g.len() && (#[trigger] g[i]).idx() == k by {
        let u = choose|i: int| 0 <= i < ids.len() && (#[trigger] ids[i]).idx() == k;
        let i2 = if u < p {
            u
        } else {
            u - 1
        };
        assert(g[i2] == ids[u]);
    }
}

/// A list of ids in rising order stays one with an id above all of them at
/// its end.
pub proof fn lemma_ids_with(ids: Seq<VehicleIdx>, keys: Set<Idx>, dummy: bool, id: VehicleIdx)
    requires
        ids_ok(ids, keys, dummy),
        id.is_dummy() == dummy,
        forall|k: Idx| keys.contains(k) ==> k < id.idx(),
    ensures
        ids_ok(ids.push(id), keys.insert(id.idx()), dummy),
{
    let g = ids.push(id);
    let keys2 = keys.insert(id.idx());
    assert forall|i: int| 0 <= i < g.len() implies (#[trigger] g[i]).is_dummy() == dummy
        && keys2.contains(g[i].idx()) by {
        if i < ids.len() {
            assert(g[i] == ids[i]);
        }
    }
    assert forall|i: int, j: int| #![trigger g[i], g[j]] 0 <= i < j < g.len() implies g[i].idx()
        < g[j].idx() by {
        assert(g[i] == ids[i]);
        if j < ids.len() {
            assert(ids[i].idx() < ids[j].idx());
        } else {
            assert(keys.contains(ids[i].idx()));
        }
    }
    assert forall|k: Idx| keys2.contains(k) implies exists|i: int|
        0 <= i < g.len() && (#[trigger] g[i]).idx() == k by {
        if k == id.idx() {
            assert(g[ids.len() as int].idx() == k);
        } else {
            let u = choose|i: int| 0 <= i < ids.len() && (#[trigger] ids[i]).idx() == k;
            assert(g[u] == ids[u]);
        }
    }
}

/// A consistent schedule stays consistent with one more vehicle, if the
/// vehicle gets the next number, is of a type of the pool, its tour is one,
/// and the depot at which it starts has room.
pub proof fn lemma_with_vehicle_ok(
    m: ScheduleModel,
    nw: &Network,
    vt: &VehicleTypes,
    v: Vehicle,
    nodes: Seq<NodeIdx>,
)
    requires
        nw.wf(),
        schedule_ok(m, nw, vt),
        vehicle_fits(v, vt),
        v.id.idx() == m.counter,
        is_vehicle_tour(nw, nodes),
        has_room(m.spawned, nw, v.type_id.0, nodes[0].idx()),
    ensures
        schedule_ok(with_vehicle(m, v, nodes), nw, vt),
{
    let k = v.id.idx();
    let t = v.type_id.0;
    let m2 = with_vehicle(m, v, nodes);
    assert(!m.vehicles.contains_key(k));
    assert(!m.tours.contains_key(k));
    assert(vehicles_ok(m2, vt)) by {
        assert forall|x: Idx| #[trigger] m2.vehicles.contains_key(x) implies {
            &&& m2.tours.contains_key(x)
            &&& m2.vehicles[x].id == VehicleIdx::Vehicle(x)
            &&& vt.types().contains_key(m2.vehicles[x].type_id.0)
            &&& m2.vehicles[x].seats == vt.types()[m2.vehicles[x].type_id.0].spec_seats()
            &&& m2.vehicles[x].capacity == vt.types()[m2.vehicles[x].type_id.0].spec_capacity()
        } by {
            if x != k {
                assert(m.vehicles.contains_key(x));
            }
        }
    }
    assert(tours_ok(m2, nw)) by {
        assert forall|x: Idx| #[trigger] m2.tours.contains_key(x) implies {
            &&& m2.vehicles.contains_key(x)
            &&& !m2.tours[x].dummy
            &&& is_vehicle_tour(nw, m2.tours[x].nodes)
        } by {
            if x != k {
                assert(m.tours.contains_key(x));
            }
        }
    }
    assert(formations_ok(m2, nw)) by {
        assert forall|n: NodeIdx| nw.coverable(n) implies valid_members(
            m2.vehicles,
            #[trigger] m2.formations[n],
        ) && ids_distinct(m2.formations[n]) by {
            assert(m.formations.contains_key(n));
            let f = m.formations[n];
            assert(valid_members(m.vehicles, f));
            assert(ids_distinct(f));
            assert(has_id(f, VehicleIdx::Vehicle(k)) <==> (m.tours.contains_key(k)
                && m.tours[k].nodes.contains(n)));
            if nodes.contains(n) {
                lemma_members_after_hand_over(m.vehicles, m2.vehicles, f, None, Some(v));
                lemma_after_hand_over(f, None, Some(v), v.id);
            } else {
                lemma_members_after_hand_over(m.vehicles, m2.vehicles, f, None, None);
            }
        }
        assert forall|n: NodeIdx, x: Idx| nw.coverable(n) implies (#[trigger] has_id(
            m2.formations[n],
            VehicleIdx::Vehicle(x),
        ) <==> (m2.tours.contains_key(x) && m2.tours[x].nodes.contains(n))) by {
            assert(m.formations.contains_key(n));
            let f = m.formations[n];
            assert(ids_distinct(f));
            assert(has_id(f, VehicleIdx::Vehicle(k)) <==> (m.tours.contains_key(k)
                && m.tours[k].nodes.contains(n)));
            assert(has_id(f, VehicleIdx::Vehicle(x)) <==> (m.tours.contains_key(x)
                && m.tours[x].nodes.contains(n)));
            if nodes.contains(n) {
                lemma_after_hand_over(f, None, Some(v), VehicleIdx::Vehicle(x));
            }
        }
    }
    let key_s = (nodes[0].idx(), t);
    let key_e = (nodes.last().idx(), t);
    assert(usage_ok(m2)) by {
        assert forall|d: Idx, ty: Idx, x: Idx| #![trigger m2.spawned[(d, ty)].contains(x)]
            m2.spawned[(d, ty)].contains(x) <==> (m2.vehicles.contains_key(x)
                && m2.vehicles[x].type_id.0 == ty && start_depot_of(m2.tours[x]) == d) by {
            assert(m.spawned[(d, ty)].contains(x) <==> (m.vehicles.contains_key(x)
                && m.vehicles[x].type_id.0 == ty && start_depot_of(m.tours[x]) == d));
        }
        assert forall|d: Idx, ty: Idx, x: Idx| #![trigger m2.despawned[(d, ty)].contains(x)]
            m2.despawned[(d, ty)].contains(x) <==> (m2.vehicles.contains_key(x)
                && m2.vehicles[x].type_id.0 == ty && end_depot_of(m2.tours[x]) == d) by {
            assert(m.despawned[(d, ty)].contains(x) <==> (m.vehicles.contains_key(x)
                && m.vehicles[x].type_id.0 == ty && end_depot_of(m.tours[x]) == d));
        }
        assert forall|d: Idx, ty: Idx| (#[trigger] m2.spawned[(d, ty)]).finite() by {
            assert(m.spawned[(d, ty)].finite());
        }
        assert forall|d: Idx, ty: Idx| (#[trigger] m2.despawned[(d, ty)]).finite() by {
            assert(m.despawned[(d, ty)].finite());
        }
    }
    assert(capacity_ok(m2, nw)) by {
        assert forall|d: Idx, ty: Idx|
            (#[trigger] m2.spawned[(d, ty)]).len() <= nw.spec_capacity_of(
                DepotIdx(d),
                VehicleTypeIdx(ty),
            ) by {
            assert(m.spawned[(d, ty)].len() <= nw.spec_capacity_of(DepotIdx(d), VehicleTypeIdx(ty)));
            assert(m.spawned[(d, ty)].finite());
            if (d, ty) == key_s {
                assert(m.spawned[key_s].contains(k) <==> (m.vehicles.contains_key(k)
                    && m.vehicles[k].type_id.0 == ty && start_depot_of(m.tours[k]) == d));
            }
        }
    }
    assert(ids_ok(m2.vehicle_ids, m2.vehicles.dom(), false)) by {
        assert forall|x: Idx| m.vehicles.dom().contains(x) implies x < v.id.idx() by {
            assert(m.vehicles.contains_key(x));
        }
        lemma_ids_with(m.vehicle_ids, m.vehicles.dom(), false, v.id);
        assert(m2.vehicles.dom() =~= m.vehicles.dom().insert(k));
    }
    assert(counter_ok(m2)) by {
        assert forall|x: Idx| #[trigger] m2.vehicles.contains_key(x) implies x < m2.counter by {
            if x != k {
                assert(m.vehicles.contains_key(x));
            }
        }
        assert forall|x: Idx| #[trigger] m2.dummy_tours.contains_key(x) implies x < m2.counter by {
            assert(m.dummy_tours.contains_key(x));
        }
    }
}

/// A consistent schedule stays consistent without one of its vehicles.
pub proof fn lemma_without_vehicle_ok(m: ScheduleModel, nw: &Network, vt: &VehicleTypes, k: Idx)
    requires
        nw.wf(),
        schedule_ok(m, nw, vt),
        m.vehicles.contains_key(k),
    ensures
        schedule_ok(without_vehicle(m, k), nw, vt),
{
    let t = m.vehicles[k].type_id.0;
    let tour = m.tours[k];
    let nodes = tour.nodes;
    let m2 = without_vehicle(m, k);
    assert(m.tours.contains_key(k));
    assert(vehicles_ok(m2, vt)) by {
        assert forall|x: Idx| #[trigger] m2.vehicles.contains_key(x) implies {
            &&& m2.tours.contains_key(x)
            &&& m2.vehicles[x].id == VehicleIdx::Vehicle(x)
            &&& vt.types().contains_key(m2.vehicles[x].type_id.0)
            &&& m2.vehicles[x].seats == vt.types()[m2.vehicles[x].type_id.0].spec_seats()
            &&& m2.vehicles[x].capacity == vt.types()[m2.vehicles[x].type_id.0].spec_capacity()
        } by {
            assert(m.vehicles.contains_key(x));
        }
    }
    assert(tours_ok(m2, nw)) by {
        assert forall|x: Idx| #[trigger] m2.tours.contains_key(x) implies {
            &&& m2.vehicles.contains_key(x)
            &&& !m2.tours[x].dummy
            &&& is_vehicle_tour(nw, m2.tours[x].nodes)
        } by {
            assert(m.tours.contains_key(x));
        }
    }
    assert(formations_ok(m2, nw)) by {
        assert forall|n: NodeIdx| nw.coverable(n) implies valid_members(
            m2.vehicles,
            #[trigger] m2.formations[n],
        ) && ids_distinct(m2.formations[n]) by {
            assert(m.formations.contains_key(n));
            let f = m.formations[n];
            assert(valid_members(m.vehicles, f));
            assert(ids_distinct(f));
            assert(has_id(f, VehicleIdx::Vehicle(k)) <==> (m.tours.contains_key(k)
                && m.tours[k].nodes.contains(n)));
            if nodes.contains(n) {
                lemma_members_after_hand_over(m.vehicles, m2.vehicles, f, Some(k), None);
                lemma_after_hand_over(f, Some(k), None, VehicleIdx::Vehicle(k));
            } else {
                assert forall|j: int| 0 <= j < f.len() implies {
                    &&& (#[trigger] f[j]).id is Vehicle
                    &&& m2.vehicles.contains_key(f[j].id.idx())
                    &&& m2.vehicles[f[j].id.idx()] == f[j]
                } by {
                    if f[j].id == VehicleIdx::Vehicle(k) {
                        assert(has_id(f, VehicleIdx::Vehicle(k)));
                    }
                }
            }
        }
        assert forall|n: NodeIdx, x: Idx| nw.coverable(n) implies (#[trigger] has_id(
            m2.formations[n],
            VehicleIdx::Vehicle(x),
        ) <==> (m2.tours.contains_key(x) && m2.tours[x].nodes.contains(n))) by {
            assert(m.formations.contains_key(n));
            let f = m.formations[n];
            assert(ids_distinct(f));
            assert(has_id(f, VehicleIdx::Vehicle(k)) <==> (m.tours.contains_key(k)
                && m.tours[k].nodes.contains(n)));
            assert(has_id(f, VehicleIdx::Vehicle(x)) <==> (m.tours.contains_key(x)
                && m.tours[x].nodes.contains(n)));
            if nodes.contains(n) {
                lemma_after_hand_over(f, Some(k), None, VehicleIdx::Vehicle(x));
            }
        }
    }
    assert(usage_ok(m2)) by {
        assert forall|d: Idx, ty: Idx, x: Idx| #![trigger m2.spawned[(d, ty)].contains(x)]
            m2.spawned[(d, ty)].contains(x) <==> (m2.vehicles.contains_key(x)
                && m2.vehicles[x].type_id.0 == ty && start_depot_of(m2.tours[x]) == d) by {
            assert(m.spawned[(d, ty)].contains(x) <==> (m.vehicles.contains_key(x)
                && m.vehicles[x].type_id.0 == ty && start_depot_of(m.tours[x]) == d));
        }
        assert forall|d: Idx, ty: Idx, x: Idx| #![trigger m2.despawned[(d, ty)].contains(x)]
            m2.despawned[(d, ty)].contains(x) <==> (m2.vehicles.contains_key(x)
                && m2.vehicles[x].type_id.0 == ty && end_depot_of(m2.tours[x]) == d) by {
            assert(m.despawned[(d, ty)].contains(x) <==> (m.vehicles.contains_key(x)
                && m.vehicles[x].type_id.0 == ty && end_depot_of(m.tours[x]) == d));
        }
        assert forall|d: Idx, ty: Idx| (#[trigger] m2.spawned[(d, ty)]).finite() by {
            assert(m.spawned[(d, ty)].finite());
        }
        assert forall|d: Idx, ty: Idx| (#[trigger] m2.despawned[(d, ty)]).finite() by {
            assert(m.despawned[(d, ty)].finite());
        }
    }
    assert(capacity_ok(m2, nw)) by {
        assert forall|d: Idx, ty: Idx|
            (#[trigger] m2.spawned[(d, ty)]).len() <= nw.spec_capacity_of(
                DepotIdx(d),
                VehicleTypeIdx(ty),
            ) by {
            assert(m.spawned[(d, ty)].len() <= nw.spec_capacity_of(DepotIdx(d), VehicleTypeIdx(ty)));
            assert(m.spawned[(d, ty)].finite());
        }
    }
    assert(ids_ok(m2.vehicle_ids, m2.vehicles.dom(), false)) by {
        lemma_ids_without(m.vehicle_ids, m.vehicles.dom(), false, VehicleIdx::Vehicle(k));
        assert(m2.vehicles.dom() =~= m.vehicles.dom().remove(k));
    }
    assert(counter_ok(m2)) by {
        assert forall|x: Idx| #[trigger] m2.vehicles.contains_key(x) implies x < m2.counter by {
            assert(m.vehicles.contains_key(x));
        }
    }
}

/// A consistent schedule stays consistent without one of its dummies.
pub proof fn lemma_without_dummy_ok(m: ScheduleModel, nw: &Network, vt: &VehicleTypes, k: Idx)
    requires
        schedule_ok(m, nw, vt),
        m.dummy_tours.contains_key(k),
    ensures
        schedule_ok(without_dummy(m, k), nw, vt),
{
    let m2 = without_dummy(m, k);
    assert(dummies_ok(m2, nw)) by {
        assert forall|x: Idx| #[trigger] m2.dummy_tours.contains_key(x) implies m2.dummy_tours[x].dummy
            && crate::tour::is_dummy_tour(nw, m2.dummy_tours[x].nodes) by {
            assert(m.dummy_tours.contains_key(x));
        }
    }
    assert(ids_ok(m2.dummy_ids, m2.dummy_tours.dom(), true)) by {
        lemma_ids_without(m.dummy_ids, m.dummy_tours.dom(), true, VehicleIdx::Dummy(k));
        assert(m2.dummy_tours.dom() =~= m.dummy_tours.dom().remove(k));
    }
    assert(counter_ok(m2)) by {
        assert forall|x: Idx| #[trigger] m2.dummy_tours.contains_key(x) implies x < m2.counter by {
            assert(m.dummy_tours.contains_key(x));
        }
    }
    assert(vehicles_ok(m2, vt));
    assert(tours_ok(m2, nw));
    assert(formations_ok(m2, nw));
    assert(usage_ok(m2));
    assert(capacity_ok(m2, nw));
}

/// A vehicle that was put into a consistent schedule and is taken out again
/// leaves the schedule as it was, but for the counter.
pub proof fn lemma_spawn_then_delete(
    m: ScheduleModel,
    nw: &Network,
    vt: &VehicleTypes,
    v: Vehicle,
    nodes: Seq<NodeIdx>,
)
    requires
        nw.wf(),
        schedule_ok(m, nw, vt),
        v.id is Vehicle,
        v.id.idx() == m.counter,
        is_vehicle_tour(nw, nodes),
    ensures
        without_vehicle(with_vehicle(m, v, nodes), v.id.idx()) == (ScheduleModel {
            counter: m.counter + 1,
            ..m
        }),
{
    let k = v.id.idx();
    let t = v.type_id.0;
    let m1 = with_vehicle(m, v, nodes);
    let m2 = without_vehicle(m1, k);
    assert(!m.vehicles.contains_key(k));
    assert(!m.tours.contains_key(k));
    assert(m2.vehicles =~= m.vehicles);
    assert(m2.tours =~= m.tours);
    assert(m1.tours[k].nodes == nodes);
    assert(m2.formations =~= m.formations) by {
        assert forall|n: NodeIdx| m.formations.contains_key(n) implies #[trigger] m2.formations[n]
            == m.formations[n] by {
            assert(nw.coverable(n));
            let f = m.formations[n];
            assert(has_id(f, VehicleIdx::Vehicle(k)) <==> (m.tours.contains_key(k)
                && m.tours[k].nodes.contains(n)));
            if nodes.contains(n) && !n.is_depot() {
                let g = f.push(v);
                lemma_position_of_id(f, v.id, 0);
                lemma_position_of_id(g, v.id, 0);
                let p = position_of_id(g, v.id, 0);
                assert(g[f.len() as int].id == v.id);
                if p < f.len() {
                    assert(g[p] == f[p]);
                }
                assert(p == f.len());
                assert(g.remove(p) =~= f);
            }
        }
    }
    let key_s = (nodes[0].idx(), t);
    let key_e = (nodes.last().idx(), t);
    assert(m2.spawned =~= m.spawned) by {
        assert(m.spawned[key_s].contains(k) <==> (m.vehicles.contains_key(k)
            && m.vehicles[k].type_id.0 == key_s.1 && start_depot_of(m.tours[k]) == key_s.0));
        assert(m.spawned[key_s].insert(k).remove(k) =~= m.spawned[key_s]);
    }
    assert(m2.despawned =~= m.despawned) by {
        assert(m.despawned[key_e].contains(k) <==> (m.vehicles.contains_key(k)
            && m.vehicles[k].type_id.0 == key_e.1 && end_depot_of(m.tours[k]) == key_e.0));
        assert(m.despawned[key_e].insert(k).remove(k) =~= m.despawned[key_e]);
    }
    assert(m2.vehicle_ids =~= m.vehicle_ids) by {
        let g = m.vehicle_ids.push(v.id);
        assert(g[m.vehicle_ids.len() as int] == v.id);
        let p = id_position(g, v.id);
        if p < m.vehicle_ids.len() {
            assert(g[p] == m.vehicle_ids[p]);
            assert(m.vehicles.dom().contains(m.vehicle_ids[p].idx()));
            assert(m.vehicles.contains_key(k));
        }
        assert(g.remove(p) =~= m.vehicle_ids);
    }
}

} // verus!
