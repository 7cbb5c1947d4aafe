//! Checking a schedule for consistency at run time.

use vstd::prelude::*;
use crate::base_types::{DepotIdx, Idx, NodeIdx, VehicleIdx, VehicleTypeIdx};
use crate::network::Network;
use crate::persistent::{formation_entries, formation_map_get, formation_map_keys, id_set_contains, id_set_elements, id_set_len, tour_map_get, tour_map_keys, usage_entries, usage_map_get, usage_map_keys, vehicle_map_get, vehicle_map_keys};
use crate::schedule::model::{capacity_ok, counter_ok, dummies_ok, end_depot_of, formations_ok, ids_ok, lemma_node_key_injective, node_key, schedule_ok, start_depot_of, tours_ok, usage_ok, valid_members, vehicles_ok, ScheduleModel};
use crate::schedule::{node_key_of, Schedule};
use crate::tour::{is_dummy_tour, is_vehicle_tour, Tour};
use crate::train_formation::{has_id, ids_distinct, lemma_position_of_id, TrainFormation, Vehicle};
use crate::vehicle_types::VehicleTypes;

verus! {

/// Whether a list of numbers holds a number.
pub fn holds_idx(list: &Vec<Idx>, k: Idx) -> (b: bool)
    ensures
        b == list@.contains(k),
{
    let mut i: usize = 0;
    while i < list.len()
        invariant
            i <= list.len(),
            forall|j: int| 0 <= j < i ==> list@[j] != k,
        decreases list.len() - i,
    {
        if list[i] == k {
            return true;
        }
        i += 1;
    }
    false
}

/// Whether a list of nodes holds a node.
pub fn holds_node(list: &Vec<NodeIdx>, n: NodeIdx) -> (b: bool)
    ensures
        b == list@.contains(n),
{
    let mut i: usize = 0;
    while i < list.len()
        invariant
            i <= list.len(),
            forall|j: int| 0 <= j < i ==> list@[j] != n,
        decreases list.len() - i,
    {
        if list[i] == n {
            return true;
        }
        i += 1;
    }
    false
}

/// The node that is kept under a key, if the key is the key of a node.
pub fn node_of_key(k: u32) -> (r: Option<NodeIdx>)
    ensures
        r matches Some(n) ==> node_key(n) == k,
        r is None ==> forall|n: NodeIdx| node_key(n) != k,
{
    if k < 0x10000 {
        Some(NodeIdx::StartDepot(k as Idx))
    } else if k < 0x20000 {
        Some(NodeIdx::Service((k - 0x10000) as Idx))
    } else if k < 0x30000 {
        Some(NodeIdx::Maintenance((k - 0x20000) as Idx))
    } else if k < 0x40000 {
        Some(NodeIdx::EndDepot((k - 0x30000) as Idx))
    } else {
        None
    }
}

/// Whether a list of ids lists the given keys in rising order, each once,
/// as the ids of dummies or of real vehicles.
pub fn check_ids(ids: &Vec<VehicleIdx>, keys: &Vec<Idx>, dummy: bool) -> (b: bool)
    ensures
        b == ids_ok(ids@, keys@.to_set(), dummy),
{
    let ghost set = keys@.to_set();
    let mut i: usize = 0;
    while i < ids.len()
        invariant
            i <= ids.len(),
            set == keys@.to_set(),
            forall|j: int|
                0 <= j < i ==> (#[trigger] ids@[j]).is_dummy() == dummy && set.contains(
                    ids@[j].idx(),
                ),
            forall|j: int| 0 <= j < i - 1 ==> (#[trigger] ids@[j]).idx() < ids@[j + 1].idx(),
        decreases ids.len() - i,
    {
        if ids[i].is_dummy() != dummy || !holds_idx(keys, ids[i].idx()) {
            assert(!(ids@[i as int].is_dummy() == dummy && set.contains(ids@[i as int].idx())));
            return false;
        }
        if i > 0 && ids[i - 1].idx() >= ids[i].idx() {
            assert(!(ids@[i - 1].idx() < ids@[i as int].idx()));
            return false;
        }
        i += 1;
    }
    proof {
        assert forall|a: int, b: int| #![trigger ids@[a], ids@[b]] 0 <= a < b < ids@.len() implies ids@[a].idx()
            < ids@[b].idx() by {
            lemma_rising(ids@, a, b);
        }
    }
    let mut i: usize = 0;
    while i < keys.len()
        invariant
            i <= keys.len(),
            set == keys@.to_set(),
            forall|j: int|
                0 <= j < ids@.len() ==> (#[trigger] ids@[j]).is_dummy() == dummy && set.contains(
                    ids@[j].idx(),
                ),
            forall|a: int, b: int|
                #![trigger ids@[a], ids@[b]]
                0 <= a < b < ids@.len() ==> ids@[a].idx() < ids@[b].idx(),
            forall|j: int| 0 <= j < i ==> listed(ids@, #[trigger] keys@[j]),
        decreases keys.len() - i,
    {
        let k = keys[i];
        let mut x: usize = 0;
        let mut found = false;
        while x < ids.len()
            invariant
                x <= ids.len(),
                i < keys.len(),
                k == keys@[i as int],
                set == keys@.to_set(),
                !found ==> forall|y: int| 0 <= y < x ==> (#[trigger] ids@[y]).idx() != k,
                found ==> exists|y: int| 0 <= y < ids@.len() && (#[trigger] ids@[y]).idx() == k,
            decreases ids.len() - x,
        {
            if ids[x].idx() == k {
                found = true;
            }
            x += 1;
        }
        if !found {
            assert(keys@.contains(k));
            assert(set.contains(k));
            return false;
        }
        assert(listed(ids@, k));
        i += 1;
    }
    proof {
        assert forall|k: Idx| set.contains(k) implies exists|x: int|
            0 <= x < ids@.len() && (#[trigger] ids@[x]).idx() == k by {
            assert(keys@.contains(k));
            let j = choose|j: int| 0 <= j < keys@.len() && keys@[j] == k;
            assert(listed(ids@, keys@[j]));
        }
    }
    true
}

/// Whether a list of ids holds an id with the number `k`.
pub open spec fn listed(ids: Seq<VehicleIdx>, k: Idx) -> bool {
    exists|x: int| 0 <= x < ids.len() && (#[trigger] ids[x]).idx() == k
}

proof fn lemma_rising(ids: Seq<VehicleIdx>, a: int, b: int)
    requires
        forall|j: int| 0 <= j < ids.len() - 1 ==> (#[trigger] ids[j]).idx() < ids[j + 1].idx(),
        0 <= a < b < ids.len(),
    ensures
        ids[a].idx() < ids[b].idx(),
    decreases b - a,
{
    if b > a + 1 {
        lemma_rising(ids, a, b - 1);
    }
    assert(ids[b - 1].idx() < ids[b - 1 + 1].idx());
}

impl Schedule {
    fn check_vehicles(&self, keys: &Vec<Idx>) -> (b: bool)
        requires
            keys@.to_set() == self@.vehicles.dom(),
        ensures
            b == vehicles_ok(self@, &self.spec_vehicle_types()),
    {
        let ghost m = self@;
        let mut i: usize = 0;
        while i < keys.len()
            invariant
                i <= keys.len(),
                m == self@,
                keys@.to_set() == m.vehicles.dom(),
                forall|j: int|
                    0 <= j < i ==> {
                        let k = #[trigger] keys@[j];
                        &&& m.tours.contains_key(k)
                        &&& m.vehicles[k].id == VehicleIdx::Vehicle(k)
                        &&& self.spec_vehicle_types().types().contains_key(m.vehicles[k].type_id.0)
                        &&& m.vehicles[k].seats == self.spec_vehicle_types().types()[m.vehicles[k].type_id.0].spec_seats()
                        &&& m.vehicles[k].capacity == self.spec_vehicle_types().types()[m.vehicles[k].type_id.0].spec_capacity()
                    },
            decreases keys.len() - i,
        {
            let k = keys[i];
            assert(keys@.contains(k));
            assert(m.vehicles.dom().contains(k));
            assert(m.vehicles.contains_key(k));
            let v = vehicle_map_get(&self.vehicles, k).unwrap();
            let fine = tour_map_get(&self.tours, k).is_some() && v.id == VehicleIdx::Vehicle(k)
                && match self.vehicle_types.get(v.type_id) {
                Some(t) => v.seats == t.seats() && v.capacity == t.capacity(),
                None => false,
            };
            if !fine {
                return false;
            }
            i += 1;
        }
        proof {
            assert forall|k: Idx| #[trigger] m.vehicles.contains_key(k) implies {
                &&& m.tours.contains_key(k)
                &&& m.vehicles[k].id == VehicleIdx::Vehicle(k)
                &&& self.spec_vehicle_types().types().contains_key(m.vehicles[k].type_id.0)
                &&& m.vehicles[k].seats == self.spec_vehicle_types().types()[m.vehicles[k].type_id.0].spec_seats()
                &&& m.vehicles[k].capacity == self.spec_vehicle_types().types()[m.vehicles[k].type_id.0].spec_capacity()
            } by {
                assert(m.vehicles.dom().contains(k));
                assert(keys@.contains(k));
                let j = choose|j: int| 0 <= j < keys@.len() && keys@[j] == k;
                assert(keys@[j] == k);
            }
        }
        true
    }

    fn check_tours(&self, keys: &Vec<Idx>) -> (b: bool)
        requires
            self.spec_network().wf(),
            keys@.to_set() == self@.tours.dom(),
        ensures
            b == tours_ok(self@, &self.spec_network()),
    {
        let ghost m = self@;
        let ghost nw = self.spec_network();
        let mut i: usize = 0;
        while i < keys.len()
            invariant
                i <= keys.len(),
                m == self@,
                nw == self.spec_network(),
                nw.wf(),
                keys@.to_set() == m.tours.dom(),
                forall|j: int|
                    0 <= j < i ==> {
                        let k = #[trigger] keys@[j];
                        &&& m.vehicles.contains_key(k)
                        &&& !m.tours[k].dummy
                        &&& is_vehicle_tour(&nw, m.tours[k].nodes)
                    },
            decreases keys.len() - i,
        {
            let k = keys[i];
            assert(keys@.contains(k));
            assert(m.tours.dom().contains(k));
            assert(m.tours.contains_key(k));
            let tour = tour_map_get(&self.tours, k).unwrap();
            let fine = vehicle_map_get(&self.vehicles, k).is_some() && !tour.is_dummy()
                && tour.is_valid(&self.network);
            if !fine {
                return false;
            }
            i += 1;
        }
        proof {
            assert forall|k: Idx| #[trigger] m.tours.contains_key(k) implies {
                &&& m.vehicles.contains_key(k)
                &&& !m.tours[k].dummy
                &&& is_vehicle_tour(&nw, m.tours[k].nodes)
            } by {
                assert(m.tours.dom().contains(k));
                assert(keys@.contains(k));
                let j = choose|j: int| 0 <= j < keys@.len() && keys@[j] == k;
                assert(keys@[j] == k);
            }
        }
        true
    }

    fn check_dummies(&self, keys: &Vec<Idx>) -> (b: bool)
        requires
            self.spec_network().wf(),
            keys@.to_set() == self@.dummy_tours.dom(),
        ensures
            b == dummies_ok(self@, &self.spec_network()),
    {
        let ghost m = self@;
        let ghost nw = self.spec_network();
        let mut i: usize = 0;
        while i < keys.len()
            invariant
                i <= keys.len(),
                m == self@,
                nw == self.spec_network(),
                nw.wf(),
                keys@.to_set() == m.dummy_tours.dom(),
                forall|j: int|
                    0 <= j < i ==> {
                        let k = #[trigger] keys@[j];
                        &&& m.dummy_tours[k].dummy
                        &&& is_dummy_tour(&nw, m.dummy_tours[k].nodes)
                    },
            decreases keys.len() - i,
        {
            let k = keys[i];
            assert(keys@.contains(k));
            assert(m.dummy_tours.dom().contains(k));
            assert(m.dummy_tours.contains_key(k));
            let tour = tour_map_get(&self.dummy_tours, k).unwrap();
            let fine = tour.is_dummy() && tour.is_valid(&self.network);
            if !fine {
                return false;
            }
            i += 1;
        }
        proof {
            assert forall|k: Idx| #[trigger] m.dummy_tours.contains_key(k) implies {
                &&& m.dummy_tours[k].dummy
                &&& is_dummy_tour(&nw, m.dummy_tours[k].nodes)
            } by {
                assert(m.dummy_tours.dom().contains(k));
                assert(keys@.contains(k));
                let j = choose|j: int| 0 <= j < keys@.len() && keys@[j] == k;
                assert(keys@[j] == k);
            }
        }
        true
    }

    /// Whether only trips and slots of the network have a formation.
    fn check_formation_keys(&self, keys: &Vec<u32>) -> (b: bool)
        requires
            keys@.to_set() == formation_entries(self.train_formations).dom(),
        ensures
            b == (forall|n: NodeIdx| #[trigger]
                self@.formations.contains_key(n) ==> self.spec_network().coverable(n)),
    {
        let ghost m = self@;
        let ghost nw = self.spec_network();
        let ghost entries = formation_entries(self.train_formations);
        let mut i: usize = 0;
        while i < keys.len()
            invariant
                i <= keys.len(),
                m == self@,
                nw == self.spec_network(),
                entries == formation_entries(self.train_formations),
                keys@.to_set() == entries.dom(),
                forall|j: int, n: NodeIdx|
                    0 <= j < i && node_key(n) == #[trigger] keys@[j] ==> #[trigger] nw.coverable(n),
            decreases keys.len() - i,
        {
            match node_of_key(keys[i]) {
                Some(n) => {
                    proof {
                        assert(keys@.contains(keys@[i as int]));
                        assert(entries.dom().contains(keys@[i as int]));
                        assert forall|x: NodeIdx| node_key(x) == keys@[i as int] implies x == n by {
                            lemma_node_key_injective(x, n);
                        }
                    }
                    if !(self.network.has_node(n) && !n.is_depot()) {
                        assert(m.formations.contains_key(n));
                        return false;
                    }
                },
                None => {},
            }
            i += 1;
        }
        proof {
            assert forall|n: NodeIdx| #[trigger] m.formations.contains_key(n) implies nw.coverable(
                n,
            ) by {
                assert(entries.dom().contains(node_key(n)));
                assert(keys@.contains(node_key(n)));
                let j = choose|j: int| 0 <= j < keys@.len() && keys@[j] == node_key(n);
                assert(keys@[j] == node_key(n));
            }
        }
        true
    }

    /// Whether every trip and slot has a formation of vehicles of the
    /// schedule, none twice, each with the node in its tour.
    fn check_formations(&self) -> (b: bool)
        requires
            self.spec_network().wf(),
            vehicles_ok(self@, &self.spec_vehicle_types()),
            tours_ok(self@, &self.spec_network()),
        ensures
            b == (forall|n: NodeIdx|
                self.spec_network().coverable(n) ==> {
                    &&& #[trigger] self@.formations.contains_key(n)
                    &&& valid_members(self@.vehicles, self@.formations[n])
                    &&& ids_distinct(self@.formations[n])
                    &&& forall|k: Idx|
                        #[trigger] has_id(self@.formations[n], VehicleIdx::Vehicle(k))
                            ==> self@.tours[k].nodes.contains(n)
                }),
    {
        let ghost m = self@;
        let ghost nw = self.spec_network();
        let nodes = self.network.coverable_nodes();
        let mut i: usize = 0;
        while i < nodes.len()
            invariant
                i <= nodes.len(),
                m == self@,
                nw == self.spec_network(),
                nw.wf(),
                vehicles_ok(m, &self.spec_vehicle_types()),
                tours_ok(m, &nw),
                forall|n: NodeIdx| nw.coverable(n) <==> nodes@.contains(n),
                forall|j: int|
                    0 <= j < i ==> {
                        let n = #[trigger] nodes@[j];
                        &&& m.formations.contains_key(n)
                        &&& valid_members(m.vehicles, m.formations[n])
                        &&& ids_distinct(m.formations[n])
                        &&& forall|k: Idx|
                            #[trigger] has_id(m.formations[n], VehicleIdx::Vehicle(k))
                                ==> m.tours[k].nodes.contains(n)
                    },
            decreases nodes.len() - i,
        {
            let n = nodes[i];
            assert(nodes@.contains(n));
            assert(nw.coverable(n));
            let f = match formation_map_get(&self.train_formations, node_key_of(n)) {
                Some(f) => f,
                None => {
                    assert(!m.formations.contains_key(n));
                    return false;
                },
            };
            let members = f.iter();
            let mut a: usize = 0;
            while a < members.len()
                invariant
                    a <= members.len(),
                    members@ == f@,
                    m.formations.contains_key(n),
                    f@ == m.formations[n],
                    m == self@,
                    nw == self.spec_network(),
                    nw.wf(),
                    nw.coverable(n),
                    vehicles_ok(m, &self.spec_vehicle_types()),
                    tours_ok(m, &nw),
                    forall|j: int|
                        0 <= j < a ==> {
                            &&& (#[trigger] f@[j]).id is Vehicle
                            &&& m.vehicles.contains_key(f@[j].id.idx())
                            &&& m.vehicles[f@[j].id.idx()] == f@[j]
                            &&& m.tours[f@[j].id.idx()].nodes.contains(n)
                        },
                    forall|x: int, y: int|
                        #![trigger f@[x], f@[y]]
                        0 <= x < y < a ==> f@[x].id != f@[y].id,
                decreases members.len() - a,
            {
                let x = members[a];
                let k = x.id.idx();
                let known = match x.id {
                    VehicleIdx::Vehicle(_) => match vehicle_map_get(&self.vehicles, k) {
                        Some(v) => v == x,
                        None => false,
                    },
                    VehicleIdx::Dummy(_) => false,
                };
                if !known {
                    assert(!valid_members(m.vehicles, f@)) by {
                        let bad = f@[a as int];
                        assert(!(bad.id is Vehicle && m.vehicles.contains_key(bad.id.idx())
                            && m.vehicles[bad.id.idx()] == bad));
                    }
                    assert(nw.coverable(n) && m.formations.contains_key(n) && !valid_members(
                        m.vehicles,
                        m.formations[n],
                    ));
                    return false;
                }
                assert(m.tours.contains_key(k));
                let tour = tour_map_get(&self.tours, k).unwrap();
                if !holds_node(tour.all_nodes_iter(), n) {
                    assert(has_id(f@, VehicleIdx::Vehicle(k))) by {
                        assert(f@[a as int].id == VehicleIdx::Vehicle(k));
                    }
                    assert(nw.coverable(n) && m.formations.contains_key(n) && has_id(
                        m.formations[n],
                        VehicleIdx::Vehicle(k),
                    ) && !m.tours[k].nodes.contains(n));
                    return false;
                }
                let mut c: usize = 0;
                while c < a
                    invariant
                        c <= a < members.len(),
                        members@ == f@,
                        x == f@[a as int],
                        m == self@,
                        nw == self.spec_network(),
                        nw.coverable(n),
                        m.formations.contains_key(n),
                        f@ == m.formations[n],
                        forall|y: int| 0 <= y < c ==> (#[trigger] f@[y]).id != x.id,
                    decreases a - c,
                {
                    if members[c].id == x.id {
                        assert(!ids_distinct(f@)) by {
                            assert(f@[c as int].id == f@[a as int].id);
                        }
                        assert(nw.coverable(n) && m.formations.contains_key(n) && !ids_distinct(
                            m.formations[n],
                        ));
                        return false;
                    }
                    c += 1;
                }
                a += 1;
            }
            proof {
                assert forall|k: Idx| #[trigger] has_id(f@, VehicleIdx::Vehicle(k)) implies m.tours[k].nodes.contains(
                    n,
                ) by {
                    let w = choose|w: int| 0 <= w < f@.len() && (#[trigger] f@[w]).id == VehicleIdx::Vehicle(k);
                    assert(f@[w].id.idx() == k);
                }
            }
            i += 1;
        }
        proof {
            assert forall|n: NodeIdx| nw.coverable(n) implies {
                &&& #[trigger] m.formations.contains_key(n)
                &&& valid_members(m.vehicles, m.formations[n])
                &&& ids_distinct(m.formations[n])
                &&& forall|k: Idx|
                    #[trigger] has_id(m.formations[n], VehicleIdx::Vehicle(k))
                        ==> m.tours[k].nodes.contains(n)
            } by {
                assert(nodes@.contains(n));
                let j = choose|j: int| 0 <= j < nodes@.len() && nodes@[j] == n;
                assert(nodes@[j] == n);
            }
        }
        true
    }

    /// Whether every vehicle stands in the formation of every trip and slot
    /// of its tour.
    fn check_covered(&self, keys: &Vec<Idx>) -> (b: bool)
        requires
            self.spec_network().wf(),
            tours_ok(self@, &self.spec_network()),
            keys@.to_set() == self@.tours.dom(),
            forall|n: NodeIdx| self.spec_network().coverable(n) ==> #[trigger] self@.formations.contains_key(n),
        ensures
            b == (forall|n: NodeIdx, k: Idx|
                self.spec_network().coverable(n) && self@.tours.contains_key(k)
                    && self@.tours[k].nodes.contains(n) ==> #[trigger] has_id(
                    self@.formations[n],
                    VehicleIdx::Vehicle(k),
                )),
    {
        let ghost m = self@;
        let ghost nw = self.spec_network();
        let mut i: usize = 0;
        while i < keys.len()
            invariant
                i <= keys.len(),
                m == self@,
                nw == self.spec_network(),
                nw.wf(),
                tours_ok(m, &nw),
                keys@.to_set() == m.tours.dom(),
                forall|n: NodeIdx| nw.coverable(n) ==> #[trigger] m.formations.contains_key(n),
                forall|j: int, n: NodeIdx|
                    0 <= j < i && nw.coverable(n) && m.tours[#[trigger] keys@[j]].nodes.contains(n)
                        ==> #[trigger] has_id(m.formations[n], VehicleIdx::Vehicle(keys@[j])),
            decreases keys.len() - i,
        {
            let k = keys[i];
            assert(keys@.contains(k));
            assert(m.tours.dom().contains(k));
            assert(m.tours.contains_key(k));
            let tour = tour_map_get(&self.tours, k).unwrap();
            let nodes = tour.all_nodes_iter();
            let mut a: usize = 0;
            while a < nodes.len()
                invariant
                    a <= nodes.len(),
                    nodes@ == m.tours[k].nodes,
                    m == self@,
                    nw == self.spec_network(),
                    nw.wf(),
                    m.tours.contains_key(k),
                    tours_ok(m, &nw),
                    forall|n: NodeIdx| nw.coverable(n) ==> #[trigger] m.formations.contains_key(n),
                    forall|j: int|
                        0 <= j < a && !(#[trigger] nodes@[j]).is_depot() ==> has_id(
                            m.formations[nodes@[j]],
                            VehicleIdx::Vehicle(k),
                        ),
                decreases nodes.len() - a,
            {
                let n = nodes[a];
                if !n.is_depot() {
                    assert(nw.contains(nodes@[a as int]));
                    assert(nw.coverable(n));
                    assert(m.formations.contains_key(n));
                    let f = formation_map_get(&self.train_formations, node_key_of(n)).unwrap();
                    if f.position(VehicleIdx::Vehicle(k)).is_none() {
                        assert(nodes@.contains(n));
                        assert(nw.coverable(n) && m.tours.contains_key(k)
                            && m.tours[k].nodes.contains(n) && !has_id(
                            m.formations[n],
                            VehicleIdx::Vehicle(k),
                        ));
                        return false;
                    }
                }
                a += 1;
            }
            proof {
                assert forall|n: NodeIdx| nw.coverable(n) && m.tours[k].nodes.contains(n) implies #[trigger] has_id(
                    m.formations[n],
                    VehicleIdx::Vehicle(k),
                ) by {
                    let w = choose|w: int| 0 <= w < nodes@.len() && nodes@[w] == n;
                    assert(!nodes@[w].is_depot());
                }
            }
            i += 1;
        }
        proof {
            assert forall|n: NodeIdx, k: Idx|
                nw.coverable(n) && m.tours.contains_key(k) && m.tours[k].nodes.contains(n) implies #[trigger] has_id(
                m.formations[n],
                VehicleIdx::Vehicle(k),
            ) by {
                assert(m.tours.dom().contains(k));
                assert(keys@.contains(k));
                let j = choose|j: int| 0 <= j < keys@.len() && keys@[j] == k;
                assert(keys@[j] == k);
            }
        }
        true
    }

    /// Whether every vehicle is booked at the depots of its tour.
    fn check_booked(&self, keys: &Vec<Idx>) -> (b: bool)
        requires
            self.spec_network().wf(),
            vehicles_ok(self@, &self.spec_vehicle_types()),
            tours_ok(self@, &self.spec_network()),
            keys@.to_set() == self@.vehicles.dom(),
        ensures
            b == (forall|k: Idx| #[trigger]
                self@.vehicles.contains_key(k) ==> {
                    let t = self@.vehicles[k].type_id.0;
                    &&& self@.spawned[(start_depot_of(self@.tours[k]), t)].contains(k)
                    &&& self@.despawned[(end_depot_of(self@.tours[k]), t)].contains(k)
                }),
    {
        let ghost m = self@;
        let ghost nw = self.spec_network();
        let mut i: usize = 0;
        while i < keys.len()
            invariant
                i <= keys.len(),
                m == self@,
                nw == self.spec_network(),
                vehicles_ok(m, &self.spec_vehicle_types()),
                tours_ok(m, &nw),
                keys@.to_set() == m.vehicles.dom(),
                forall|j: int|
                    0 <= j < i ==> {
                        let k = #[trigger] keys@[j];
                        let t = m.vehicles[k].type_id.0;
                        &&& m.spawned[(start_depot_of(m.tours[k]), t)].contains(k)
                        &&& m.despawned[(end_depot_of(m.tours[k]), t)].contains(k)
                    },
            decreases keys.len() - i,
        {
            let k = keys[i];
            assert(keys@.contains(k));
            assert(m.vehicles.dom().contains(k));
            assert(m.vehicles.contains_key(k));
            assert(m.tours.contains_key(k));
            let v = vehicle_map_get(&self.vehicles, k).unwrap();
            let t = v.type_id.0;
            let tour = tour_map_get(&self.tours, k).unwrap();
            assert(is_vehicle_tour(&nw, tour@.nodes));
            let start = tour.first_node().idx();
            let end = tour.last_node().idx();
            let at_start = match usage_map_get(&self.depot_usage, (start, t)) {
                Some(u) => id_set_contains(&u.spawned, k),
                None => false,
            };
            let at_end = match usage_map_get(&self.depot_usage, (end, t)) {
                Some(u) => id_set_contains(&u.despawned, k),
                None => false,
            };
            if !(at_start && at_end) {
                return false;
            }
            i += 1;
        }
        proof {
            assert forall|k: Idx| #[trigger] m.vehicles.contains_key(k) implies {
                let t = m.vehicles[k].type_id.0;
                &&& m.spawned[(start_depot_of(m.tours[k]), t)].contains(k)
                &&& m.despawned[(end_depot_of(m.tours[k]), t)].contains(k)
            } by {
                assert(m.vehicles.dom().contains(k));
                assert(keys@.contains(k));
                let j = choose|j: int| 0 <= j < keys@.len() && keys@[j] == k;
                assert(keys@[j] == k);
            }
        }
        true
    }

    /// Whether the books hold only vehicles that start or end where they are
    /// booked, and no more of them than the depot has room for.
    fn check_books(&self, keys: &Vec<(Idx, Idx)>) -> (b: bool)
        requires
            self.spec_network().wf(),
            vehicles_ok(self@, &self.spec_vehicle_types()),
            tours_ok(self@, &self.spec_network()),
            keys@.to_set() == usage_entries(self.depot_usage).dom(),
        ensures
            b == ({
                &&& forall|d: Idx, t: Idx, k: Idx|
                    #![trigger self@.spawned[(d, t)].contains(k)]
                    self@.spawned[(d, t)].contains(k) ==> (self@.vehicles.contains_key(k)
                        && self@.vehicles[k].type_id.0 == t && start_depot_of(self@.tours[k]) == d)
                &&& forall|d: Idx, t: Idx, k: Idx|
                    #![trigger self@.despawned[(d, t)].contains(k)]
                    self@.despawned[(d, t)].contains(k) ==> (self@.vehicles.contains_key(k)
                        && self@.vehicles[k].type_id.0 == t && end_depot_of(self@.tours[k]) == d)
                &&& capacity_ok(self@, &self.spec_network())
            }),
            b ==> forall|d: Idx, t: Idx| (#[trigger] self@.spawned[(d, t)]).finite(),
            b ==> forall|d: Idx, t: Idx| (#[trigger] self@.despawned[(d, t)]).finite(),
    {
        let ghost m = self@;
        let ghost nw = self.spec_network();
        let ghost entries = usage_entries(self.depot_usage);
        let mut i: usize = 0;
        while i < keys.len()
            invariant
                i <= keys.len(),
                m == self@,
                nw == self.spec_network(),
                entries == usage_entries(self.depot_usage),
                vehicles_ok(m, &self.spec_vehicle_types()),
                tours_ok(m, &nw),
                keys@.to_set() == entries.dom(),
                forall|j: int, k: Idx|
                    0 <= j < i && #[trigger] m.spawned[#[trigger] keys@[j]].contains(k) ==> (
                    m.vehicles.contains_key(k) && m.vehicles[k].type_id.0 == keys@[j].1
                        && start_depot_of(m.tours[k]) == keys@[j].0),
                forall|j: int, k: Idx|
                    0 <= j < i && #[trigger] m.despawned[#[trigger] keys@[j]].contains(k) ==> (
                    m.vehicles.contains_key(k) && m.vehicles[k].type_id.0 == keys@[j].1
                        && end_depot_of(m.tours[k]) == keys@[j].0),
                forall|j: int|
                    0 <= j < i ==> m.spawned[#[trigger] keys@[j]].len() <= nw.spec_capacity_of(
                        DepotIdx(keys@[j].0),
                        VehicleTypeIdx(keys@[j].1),
                    ),
                forall|j: int|
                    0 <= j < i ==> m.spawned[#[trigger] keys@[j]].finite()
                        && m.despawned[keys@[j]].finite(),
            decreases keys.len() - i,
        {
            let key = keys[i];
            assert(keys@.contains(key));
            assert(entries.dom().contains(key));
            assert(entries.contains_key(key));
            let u = usage_map_get(&self.depot_usage, key).unwrap();
            if id_set_len(&u.spawned) > self.network.capacity_of(
                DepotIdx(key.0),
                VehicleTypeIdx(key.1),
            ) as usize {
                assert(m.spawned[(key.0, key.1)].len() > nw.spec_capacity_of(
                    DepotIdx(key.0),
                    VehicleTypeIdx(key.1),
                ));
                return false;
            }
            let starting = id_set_elements(&u.spawned);
            let mut a: usize = 0;
            while a < starting.len()
                invariant
                    a <= starting.len(),
                    m == self@,
                    nw == self.spec_network(),
                    vehicles_ok(m, &self.spec_vehicle_types()),
                    tours_ok(m, &nw),
                    starting@.to_set() == m.spawned[key],
                    forall|j: int|
                        0 <= j < a ==> {
                            let k = #[trigger] starting@[j];
                            m.vehicles.contains_key(k) && m.vehicles[k].type_id.0 == key.1
                                && start_depot_of(m.tours[k]) == key.0
                        },
                decreases starting.len() - a,
            {
                let k = starting[a];
                assert(starting@.contains(k));
                let fine = match vehicle_map_get(&self.vehicles, k) {
                    Some(v) => {
                        assert(m.tours.contains_key(k));
                        let tour = tour_map_get(&self.tours, k).unwrap();
                        assert(is_vehicle_tour(&nw, tour@.nodes));
                        v.type_id.0 == key.1 && tour.first_node().idx() == key.0
                    },
                    None => false,
                };
                if !fine {
                    assert(m.spawned[(key.0, key.1)].contains(k));
                    return false;
                }
                a += 1;
            }
            let ending = id_set_elements(&u.despawned);
            let mut a: usize = 0;
            while a < ending.len()
                invariant
                    a <= ending.len(),
                    m == self@,
                    nw == self.spec_network(),
                    vehicles_ok(m, &self.spec_vehicle_types()),
                    tours_ok(m, &nw),
                    ending@.to_set() == m.despawned[key],
                    forall|j: int|
                        0 <= j < a ==> {
                            let k = #[trigger] ending@[j];
                            m.vehicles.contains_key(k) && m.vehicles[k].type_id.0 == key.1
                                && end_depot_of(m.tours[k]) == key.0
                        },
                decreases ending.len() - a,
            {
                let k = ending[a];
                assert(ending@.contains(k));
                let fine = match vehicle_map_get(&self.vehicles, k) {
                    Some(v) => {
                        assert(m.tours.contains_key(k));
                        let tour = tour_map_get(&self.tours, k).unwrap();
                        assert(is_vehicle_tour(&nw, tour@.nodes));
                        v.type_id.0 == key.1 && tour.last_node().idx() == key.0
                    },
                    None => false,
                };
                if !fine {
                    assert(m.despawned[(key.0, key.1)].contains(k));
                    return false;
                }
                a += 1;
            }
            proof {
                vstd::seq_lib::seq_to_set_is_finite(starting@);
                vstd::seq_lib::seq_to_set_is_finite(ending@);
                assert forall|k: Idx| #[trigger] m.spawned[key].contains(k) implies (
                m.vehicles.contains_key(k) && m.vehicles[k].type_id.0 == key.1 && start_depot_of(
                    m.tours[k],
                ) == key.0) by {
                    assert(starting@.contains(k));
                    let j = choose|j: int| 0 <= j < starting@.len() && starting@[j] == k;
                    assert(starting@[j] == k);
                }
                assert forall|k: Idx| #[trigger] m.despawned[key].contains(k) implies (
                m.vehicles.contains_key(k) && m.vehicles[k].type_id.0 == key.1 && end_depot_of(
                    m.tours[k],
                ) == key.0) by {
                    assert(ending@.contains(k));
                    let j = choose|j: int| 0 <= j < ending@.len() && ending@[j] == k;
                    assert(ending@[j] == k);
                }
            }
            i += 1;
        }
        proof {
            assert forall|d: Idx, t: Idx, k: Idx| #![trigger m.spawned[(d, t)].contains(k)]
                m.spawned[(d, t)].contains(k) implies (m.vehicles.contains_key(k)
                && m.vehicles[k].type_id.0 == t && start_depot_of(m.tours[k]) == d) by {
                assert(entries.contains_key((d, t)));
                assert(entries.dom().contains((d, t)));
                assert(keys@.contains((d, t)));
                let j = choose|j: int| 0 <= j < keys@.len() && keys@[j] == (d, t);
                assert(m.spawned[keys@[j]].contains(k));
            }
            assert forall|d: Idx, t: Idx, k: Idx| #![trigger m.despawned[(d, t)].contains(k)]
                m.despawned[(d, t)].contains(k) implies (m.vehicles.contains_key(k)
                && m.vehicles[k].type_id.0 == t && end_depot_of(m.tours[k]) == d) by {
                assert(entries.contains_key((d, t)));
                assert(entries.dom().contains((d, t)));
                assert(keys@.contains((d, t)));
                let j = choose|j: int| 0 <= j < keys@.len() && keys@[j] == (d, t);
                assert(m.despawned[keys@[j]].contains(k));
            }
            assert forall|d: Idx, t: Idx|
                (#[trigger] m.spawned[(d, t)]).len() <= nw.spec_capacity_of(
                    DepotIdx(d),
                    VehicleTypeIdx(t),
                ) by {
                if entries.contains_key((d, t)) {
                    assert(entries.dom().contains((d, t)));
                    assert(keys@.contains((d, t)));
                    let j = choose|j: int| 0 <= j < keys@.len() && keys@[j] == (d, t);
                    assert(keys@[j] == (d, t));
                }
            }
            assert forall|d: Idx, t: Idx|
                (#[trigger] m.spawned[(d, t)]).finite() by {
                if entries.contains_key((d, t)) {
                    assert(entries.dom().contains((d, t)));
                    assert(keys@.contains((d, t)));
                    let j = choose|j: int| 0 <= j < keys@.len() && keys@[j] == (d, t);
                    assert(keys@[j] == (d, t));
                }
            }
            assert forall|d: Idx, t: Idx|
                (#[trigger] m.despawned[(d, t)]).finite() by {
                if entries.contains_key((d, t)) {
                    assert(entries.dom().contains((d, t)));
                    assert(keys@.contains((d, t)));
                    let j = choose|j: int| 0 <= j < keys@.len() && keys@[j] == (d, t);
                    assert(keys@[j] == (d, t));
                }
            }
        }
        true
    }

    fn check_counter(&self, vehicles: &Vec<Idx>, dummies: &Vec<Idx>) -> (b: bool)
        requires
            vehicles@.to_set() == self@.vehicles.dom(),
            dummies@.to_set() == self@.dummy_tours.dom(),
        ensures
            b == counter_ok(self@),
    {
        let ghost m = self@;
        let mut i: usize = 0;
        while i < vehicles.len()
            invariant
                i <= vehicles.len(),
                m == self@,
                vehicles@.to_set() == m.vehicles.dom(),
                forall|j: int| 0 <= j < i ==> (#[trigger] vehicles@[j]) < m.counter,
            decreases vehicles.len() - i,
        {
            if vehicles[i] as usize >= self.vehicle_counter {
                assert(vehicles@.contains(vehicles@[i as int]));
                assert(m.vehicles.dom().contains(vehicles@[i as int]));
                assert(m.vehicles.contains_key(vehicles@[i as int]));
                return false;
            }
            i += 1;
        }
        let mut i: usize = 0;
        while i < dummies.len()
            invariant
                i <= dummies.len(),
                m == self@,
                dummies@.to_set() == m.dummy_tours.dom(),
                forall|j: int| 0 <= j < i ==> (#[trigger] dummies@[j]) < m.counter,
            decreases dummies.len() - i,
        {
            if dummies[i] as usize >= self.vehicle_counter {
                assert(dummies@.contains(dummies@[i as int]));
                assert(m.dummy_tours.dom().contains(dummies@[i as int]));
                assert(m.dummy_tours.contains_key(dummies@[i as int]));
                return false;
            }
            i += 1;
        }
        proof {
            assert forall|k: Idx| #[trigger] m.vehicles.contains_key(k) implies k < m.counter by {
                assert(m.vehicles.dom().contains(k));
                assert(vehicles@.contains(k));
                let j = choose|j: int| 0 <= j < vehicles@.len() && vehicles@[j] == k;
                assert(vehicles@[j] == k);
            }
            assert forall|k: Idx| #[trigger] m.dummy_tours.contains_key(k) implies k < m.counter by {
                assert(m.dummy_tours.dom().contains(k));
                assert(dummies@.contains(k));
                let j = choose|j: int| 0 <= j < dummies@.len() && dummies@[j] == k;
                assert(dummies@[j] == k);
            }
        }
        true
    }

    /// Whether the schedule is consistent: whether its vehicles, tours,
    /// formations, books and lists of ids agree with each other and with the
    /// network. Every schedule that the operations of this library give is.
    pub fn verify_consistency(&self) -> (b: bool)
        requires
            self.spec_network().wf(),
            self.spec_vehicle_types().wf(),
        ensures
            b == self.wf(),
    {
        let ghost m = self@;
        let ghost nw = self.spec_network();
        let vehicle_keys = vehicle_map_keys(&self.vehicles);
        let tour_keys = tour_map_keys(&self.tours);
        let dummy_keys = tour_map_keys(&self.dummy_tours);
        let formation_keys = formation_map_keys(&self.train_formations);
        let usage_keys = usage_map_keys(&self.depot_usage);
        if !self.check_vehicles(&vehicle_keys) {
            return false;
        }
        if !self.check_tours(&tour_keys) {
            return false;
        }
        if !self.check_dummies(&dummy_keys) {
            return false;
        }
        if !self.check_formation_keys(&formation_keys) {
            return false;
        }
        if !self.check_formations() {
            return false;
        }
        if !self.check_covered(&tour_keys) {
            proof {
                assert(!formations_ok(m, &nw)) by {
                    if formations_ok(m, &nw) {
                        assert forall|n: NodeIdx, k: Idx|
                            nw.coverable(n) && m.tours.contains_key(k) && m.tours[k].nodes.contains(
                                n,
                            ) implies #[trigger] has_id(m.formations[n], VehicleIdx::Vehicle(k)) by {}
                    }
                }
            }
            return false;
        }
        proof {
            assert(formations_ok(m, &nw)) by {
                assert forall|n: NodeIdx| #[trigger] m.formations.contains_key(n) <==> nw.coverable(
                    n,
                ) by {}
                assert forall|n: NodeIdx| nw.coverable(n) implies valid_members(
                    m.vehicles,
                    #[trigger] m.formations[n],
                ) && ids_distinct(m.formations[n]) by {
                    assert(m.formations.contains_key(n));
                }
                assert forall|n: NodeIdx, k: Idx| nw.coverable(n) implies (#[trigger] has_id(
                    m.formations[n],
                    VehicleIdx::Vehicle(k),
                ) <==> (m.tours.contains_key(k) && m.tours[k].nodes.contains(n))) by {
                    assert(m.formations.contains_key(n));
                    if has_id(m.formations[n], VehicleIdx::Vehicle(k)) {
                        let f = m.formations[n];
                        let w = choose|w: int| 0 <= w < f.len() && (#[trigger] f[w]).id == VehicleIdx::Vehicle(k);
                        assert(m.vehicles.contains_key(f[w].id.idx()));
                        assert(m.vehicles.contains_key(k));
                        assert(m.tours.contains_key(k));
                    }
                }
            }
        }
        if !self.check_booked(&vehicle_keys) {
            proof {
                if usage_ok(m) {
                    assert forall|k: Idx| #[trigger] m.vehicles.contains_key(k) implies {
                        let t = m.vehicles[k].type_id.0;
                        &&& m.spawned[(start_depot_of(m.tours[k]), t)].contains(k)
                        &&& m.despawned[(end_depot_of(m.tours[k]), t)].contains(k)
                    } by {}
                }
            }
            return false;
        }
        if !self.check_books(&usage_keys) {
            return false;
        }
        proof {
            assert(usage_ok(m)) by {
                assert forall|d: Idx, t: Idx, k: Idx| #![trigger m.spawned[(d, t)].contains(k)]
                    m.spawned[(d, t)].contains(k) <==> (m.vehicles.contains_key(k)
                        && m.vehicles[k].type_id.0 == t && start_depot_of(m.tours[k]) == d) by {}
                assert forall|d: Idx, t: Idx, k: Idx| #![trigger m.despawned[(d, t)].contains(k)]
                    m.despawned[(d, t)].contains(k) <==> (m.vehicles.contains_key(k)
                        && m.vehicles[k].type_id.0 == t && end_depot_of(m.tours[k]) == d) by {}
            }
        }
        if !check_ids(&self.vehicle_ids_sorted, &vehicle_keys, false) {
            return false;
        }
        if !check_ids(&self.dummy_ids_sorted, &dummy_keys, true) {
            return false;
        }
        self.check_counter(&vehicle_keys, &dummy_keys)
    }
}

} // verus!
