//! The pool of vehicle types, and the order in which they are tried.

use vstd::prelude::*;
use std::collections::HashMap;
use std::sync::Arc;
use crate::base_types::{Idx, PassengerCount, TrainLength, VehicleTypeIdx};

verus! {

broadcast use vstd::std_specs::hash::group_hash_axioms;

pub struct VehicleType {
    id: VehicleTypeIdx,
    name: String,
    seats: PassengerCount,
    capacity: PassengerCount,
    length: TrainLength,
}

/// What orders two vehicle types: seats, then capacity, then length, then id.
pub struct TypeKey {
    pub seats: int,
    pub capacity: int,
    pub length: int,
    pub id: int,
}

/// The strict lexicographic order on keys.
pub open spec fn key_lt(a: TypeKey, b: TypeKey) -> bool {
    a.seats < b.seats || (a.seats == b.seats && (a.capacity < b.capacity || (a.capacity
        == b.capacity && (a.length < b.length || (a.length == b.length && a.id < b.id)))))
}

impl VehicleType {
    pub closed spec fn spec_id(&self) -> VehicleTypeIdx {
        self.id
    }

    pub closed spec fn spec_name(&self) -> Seq<char> {
        self.name@
    }

    pub closed spec fn spec_seats(&self) -> PassengerCount {
        self.seats
    }

    pub closed spec fn spec_capacity(&self) -> PassengerCount {
        self.capacity
    }

    pub closed spec fn spec_length(&self) -> TrainLength {
        self.length
    }

    pub open spec fn key(&self) -> TypeKey {
        TypeKey {
            seats: self.spec_seats() as int,
            capacity: self.spec_capacity() as int,
            length: self.spec_length() as int,
            id: self.spec_id().0 as int,
        }
    }

    pub fn new(
        id: VehicleTypeIdx,
        name: String,
        number_of_seats: PassengerCount,
        capacity_of_passengers: PassengerCount,
        vehicle_length: TrainLength,
    ) -> (vt: VehicleType)
        ensures
            vt.spec_id() == id,
            vt.spec_name() == name@,
            vt.spec_seats() == number_of_seats,
            vt.spec_capacity() == capacity_of_passengers,
            vt.spec_length() == vehicle_length,
    {
        VehicleType {
            id,
            name,
            seats: number_of_seats,
            capacity: capacity_of_passengers,
            length: vehicle_length,
        }
    }

    #[verifier::when_used_as_spec(spec_id)]
    pub fn id(&self) -> (r: VehicleTypeIdx)
        ensures
            r == self.spec_id(),
    {
        self.id
    }

    pub fn name(&self) -> (r: &String)
        ensures
            r@ == self.spec_name(),
    {
        &self.name
    }

    #[verifier::when_used_as_spec(spec_seats)]
    pub fn seats(&self) -> (r: PassengerCount)
        ensures
            r == self.spec_seats(),
    {
        self.seats
    }

    #[verifier::when_used_as_spec(spec_capacity)]
    pub fn capacity(&self) -> (r: PassengerCount)
        ensures
            r == self.spec_capacity(),
    {
        self.capacity
    }

    #[verifier::when_used_as_spec(spec_length)]
    pub fn length(&self) -> (r: TrainLength)
        ensures
            r == self.spec_length(),
    {
        self.length
    }

    /// Whether this type comes strictly before `other` in the order of types.
    pub fn before(&self, other: &VehicleType) -> (b: bool)
        ensures
            b == key_lt(self.key(), other.key()),
    {
        if self.seats != other.seats {
            self.seats < other.seats
        } else if self.capacity != other.capacity {
            self.capacity < other.capacity
        } else if self.length != other.length {
            self.length < other.length
        } else {
            self.id.0 < other.id.0
        }
    }
}

pub struct VehicleTypes {
    vehicle_types: HashMap<Idx, Arc<VehicleType>>,
    ids_sorted: Vec<VehicleTypeIdx>,
}

/// The types that a list of types leaves behind, by id: of two with one id
/// the later one stays.
pub open spec fn types_of(list: Seq<VehicleType>) -> Map<Idx, VehicleType>
    decreases list.len(),
{
    if list.len() == 0 {
        Map::empty()
    } else {
        types_of(list.drop_last()).insert(list.last().spec_id().0, list.last())
    }
}

/// `ids` lists exactly the ids of `types`, each once, in the order of types.
pub open spec fn sorted_ids_of(types: Map<Idx, VehicleType>, ids: Seq<VehicleTypeIdx>) -> bool {
    &&& forall|i: int| 0 <= i < ids.len() ==> types.contains_key(#[trigger] ids[i].0)
    &&& forall|i: int, j: int|
        0 <= i < j < ids.len() ==> key_lt(
            #[trigger] types[ids[i].0].key(),
            #[trigger] types[ids[j].0].key(),
        )
    &&& forall|k: Idx| types.contains_key(k) ==> ids.contains(VehicleTypeIdx(k))
}

impl VehicleTypes {
    /// The types by id.
    pub closed spec fn types(&self) -> Map<Idx, VehicleType> {
        Map::new(
            |k: Idx| self.vehicle_types@.contains_key(k),
            |k: Idx| *self.vehicle_types@[k],
        )
    }

    /// The ids in the order of types.
    pub closed spec fn ids(&self) -> Seq<VehicleTypeIdx> {
        self.ids_sorted@
    }

    pub open spec fn wf(&self) -> bool {
        &&& sorted_ids_of(self.types(), self.ids())
        &&& forall|k: Idx| #[trigger]
            self.types().contains_key(k) ==> self.types()[k].spec_id() == VehicleTypeIdx(k)
    }

    /// The type that serves `demand` best: the first in the order of types
    /// with that many seats, or the last type if none has them.
    pub open spec fn spec_best_for(&self, demand: PassengerCount) -> VehicleTypeIdx
        recommends
            self.ids().len() > 0,
    {
        let ids = self.ids();
        let types = self.types();
        if exists|i: int| 0 <= i < ids.len() && types[ids[i].0].spec_seats() >= demand {
            let i = choose|i: int|
                0 <= i < ids.len() && types[ids[i].0].spec_seats() >= demand && forall|j: int|
                    0 <= j < i ==> types[ids[j].0].spec_seats() < demand;
            ids[i]
        } else {
            ids.last()
        }
    }

    /// The pool has no more types than there are numbers for them.
    pub proof fn lemma_few_types(&self)
        requires
            self.wf(),
        ensures
            self.ids().len() <= 0x10000,
    {
        let ids = self.ids();
        let types = self.types();
        let q = Seq::new(ids.len(), |i: int| ids[i].0);
        assert forall|i: int, j: int| 0 <= i < q.len() && 0 <= j < q.len() && i != j implies q[i]
            != q[j] by {
            if i < j {
                assert(key_lt(types[ids[i].0].key(), types[ids[j].0].key()));
            } else {
                assert(key_lt(types[ids[j].0].key(), types[ids[i].0].key()));
            }
        }
        crate::base_types::lemma_distinct_ids_few(q);
    }

    pub fn new(vehicle_types_vec: Vec<VehicleType>) -> (vts: VehicleTypes)
        ensures
            vts.wf(),
            vts.types() == types_of(vehicle_types_vec@),
    {
        let mut vehicle_types: HashMap<Idx, Arc<VehicleType>> = HashMap::new();
        let mut ids_sorted: Vec<VehicleTypeIdx> = Vec::new();
        let ghost list = vehicle_types_vec@;
        let mut rest = vehicle_types_vec;
        let ghost mut done: Seq<VehicleType> = Seq::empty();
        // the list is consumed from its front: turn it round first
        let mut stack: Vec<VehicleType> = Vec::new();
        while rest.len() > 0
            invariant
                stack@.len() + rest@.len() == list.len(),
                forall|i: int| 0 <= i < rest@.len() ==> rest@[i] == list[i],
                forall|i: int|
                    0 <= i < stack@.len() ==> stack@[i] == list[list.len() - 1 - i],
            decreases rest.len(),
        {
            let vt = rest.pop().unwrap();
            stack.push(vt);
        }
        while stack.len() > 0
            invariant
                done.len() + stack@.len() == list.len(),
                forall|i: int| 0 <= i < done.len() ==> done[i] == list[i],
                forall|i: int|
                    0 <= i < stack@.len() ==> stack@[i] == list[list.len() - 1 - i],
                sorted_ids_of(
                    Map::new(
                        |k: Idx| vehicle_types@.contains_key(k),
                        |k: Idx| *vehicle_types@[k],
                    ),
                    ids_sorted@,
                ),
                forall|k: Idx| #[trigger]
                    vehicle_types@.contains_key(k) ==> vehicle_types@[k].spec_id()
                        == VehicleTypeIdx(k),
                Map::new(|k: Idx| vehicle_types@.contains_key(k), |k: Idx| *vehicle_types@[k])
                    == types_of(done),
            decreases stack.len(),
        {
            let vt = stack.pop().unwrap();
            let id = vt.id;
            let ghost old_map = Map::new(
                |k: Idx| vehicle_types@.contains_key(k),
                |k: Idx| *vehicle_types@[k],
            );
            let ghost old_ids = ids_sorted@;
            // an earlier type of the same id gives way
            if vehicle_types.contains_key(&id.0) {
                let mut p: usize = 0;
                while p < ids_sorted.len() && ids_sorted[p].0 != id.0
                    invariant
                        p <= ids_sorted.len(),
                        forall|j: int| 0 <= j < p ==> ids_sorted@[j].0 != id.0,
                    decreases ids_sorted.len() - p,
                {
                    p += 1;
                }
                proof {
                    assert(old_map.contains_key(id.0));
                    assert(old_ids.contains(VehicleTypeIdx(id.0)));
                    let w = choose|w: int| 0 <= w < old_ids.len() && old_ids[w] == VehicleTypeIdx(id.0);
                    assert(old_ids[w].0 == id.0);
                }
                ids_sorted.remove(p);
            }
            let ghost mid_ids = ids_sorted@;
            proof {
                assert forall|i: int| 0 <= i < mid_ids.len() implies mid_ids[i].0 != id.0
                    && old_map.contains_key(#[trigger] mid_ids[i].0) && old_ids.contains(
                    mid_ids[i],
                ) by {
                    if old_map.contains_key(id.0) {
                        let w = choose|w: int|
                            0 <= w < old_ids.len() && old_ids[w].0 == id.0 && mid_ids
                                == old_ids.remove(w);
                        let j = if i < w { i } else { i + 1 };
                        assert(mid_ids[i] == old_ids[j]);
                        if old_ids[j].0 == id.0 {
                            if j < w {
                                assert(key_lt(
                                    old_map[old_ids[j].0].key(),
                                    old_map[old_ids[w].0].key(),
                                ));
                            } else {
                                assert(key_lt(
                                    old_map[old_ids[w].0].key(),
                                    old_map[old_ids[j].0].key(),
                                ));
                            }
                        }
                    } else {
                        assert(mid_ids[i] == old_ids[i]);
                    }
                }
                assert forall|i: int, j: int| 0 <= i < j < mid_ids.len() implies key_lt(
                    #[trigger] old_map[mid_ids[i].0].key(),
                    #[trigger] old_map[mid_ids[j].0].key(),
                ) by {
                    if old_map.contains_key(id.0) {
                        let w = choose|w: int|
                            0 <= w < old_ids.len() && old_ids[w].0 == id.0 && mid_ids
                                == old_ids.remove(w);
                        let i2 = if i < w { i } else { i + 1 };
                        let j2 = if j < w { j } else { j + 1 };
                        assert(mid_ids[i] == old_ids[i2]);
                        assert(mid_ids[j] == old_ids[j2]);
                    }
                }
                assert forall|k: Idx| old_map.contains_key(k) && k != id.0 implies mid_ids.contains(
                    VehicleTypeIdx(k),
                ) by {
                    assert(old_ids.contains(VehicleTypeIdx(k)));
                    let u = choose|u: int| 0 <= u < old_ids.len() && old_ids[u] == VehicleTypeIdx(k);
                    if old_map.contains_key(id.0) {
                        let w = choose|w: int|
                            0 <= w < old_ids.len() && old_ids[w].0 == id.0 && mid_ids
                                == old_ids.remove(w);
                        let u2 = if u < w { u } else { u - 1 };
                        assert(mid_ids[u2] == old_ids[u]);
                    } else {
                        assert(mid_ids[u] == old_ids[u]);
                    }
                }
            }
            // the place of the new type in the order
            let mut q: usize = 0;
            while q < ids_sorted.len() && vehicle_types.get(&ids_sorted[q].0).unwrap().before(&vt)
                invariant
                    q <= ids_sorted.len(),
                    ids_sorted@ == mid_ids,
                    forall|i: int|
                        0 <= i < mid_ids.len() ==> vehicle_types@.contains_key(
                            #[trigger] mid_ids[i].0,
                        ),
                    forall|i: int|
                        0 <= i < q ==> key_lt(
                            (#[trigger] vehicle_types@[mid_ids[i].0]).key(),
                            vt.key(),
                        ),
                decreases ids_sorted.len() - q,
            {
                q += 1;
            }
            ids_sorted.insert(q, id);
            let ghost vt_val = vt;
            vehicle_types.insert(id.0, Arc::new(vt));
            proof {
                let new_map = Map::new(
                    |k: Idx| vehicle_types@.contains_key(k),
                    |k: Idx| *vehicle_types@[k],
                );
                let new_ids = ids_sorted@;
                assert(new_ids == mid_ids.insert(q as int, id));
                assert(new_map =~= old_map.insert(id.0, vt_val));
                assert(types_of(done.push(vt_val)) == new_map) by {
                    assert(done.push(vt_val).drop_last() =~= done);
                }
                assert forall|i: int| 0 <= i < new_ids.len() implies new_map.contains_key(
                    #[trigger] new_ids[i].0,
                ) by {
                    if i < q {
                        assert(new_ids[i] == mid_ids[i]);
                    } else if i > q {
                        assert(new_ids[i] == mid_ids[i - 1]);
                    }
                }
                assert forall|i: int, j: int| 0 <= i < j < new_ids.len() implies key_lt(
                    #[trigger] new_map[new_ids[i].0].key(),
                    #[trigger] new_map[new_ids[j].0].key(),
                ) by {
                    let a = if i < q { i } else { i - 1 };
                    let b = if j < q { j } else { j - 1 };
                    if i != q as int {
                        assert(new_ids[i] == mid_ids[a]);
                        assert(new_map[new_ids[i].0] == old_map[mid_ids[a].0]);
                    }
                    if j != q as int {
                        assert(new_ids[j] == mid_ids[b]);
                        assert(new_map[new_ids[j].0] == old_map[mid_ids[b].0]);
                    }
                    if i == q as int {
                        // every later one is at or after q in the old list
                        assert(b >= q);
                        if q < mid_ids.len() {
                            assert(!key_lt(old_map[mid_ids[q as int].0].key(), vt_val.key()));
                            if b > q {
                                assert(key_lt(
                                    old_map[mid_ids[q as int].0].key(),
                                    old_map[mid_ids[b].0].key(),
                                ));
                            }
                            assert(mid_ids[b].0 != id.0);
                            assert(old_map[mid_ids[b].0].spec_id() == VehicleTypeIdx(mid_ids[b].0));
                        }
                    }
                }
                assert forall|k: Idx| new_map.contains_key(k) implies new_ids.contains(
                    VehicleTypeIdx(k),
                ) by {
                    if k == id.0 {
                        assert(new_ids[q as int] == VehicleTypeIdx(k));
                    } else {
                        assert(mid_ids.contains(VehicleTypeIdx(k)));
                        let u = choose|u: int|
                            0 <= u < mid_ids.len() && mid_ids[u] == VehicleTypeIdx(k);
                        let u2 = if u < q { u } else { u + 1 };
                        assert(new_ids[u2] == mid_ids[u]);
                    }
                }
                done = done.push(vt_val);
            }
        }
        proof {
            assert(done =~= list);
        }
        VehicleTypes { vehicle_types, ids_sorted }
    }

    pub fn get(&self, id: VehicleTypeIdx) -> (r: Option<Arc<VehicleType>>)
        ensures
            r.is_some() == self.types().contains_key(id.0),
            r.is_some() ==> *r.unwrap() == self.types()[id.0],
    {
        match self.vehicle_types.get(&id.0) {
            Some(vt) => Some(vt.clone()),
            None => None,
        }
    }

    /// The ids of all types, in the order of types.
    pub fn iter(&self) -> (r: &Vec<VehicleTypeIdx>)
        ensures
            r@ == self.ids(),
    {
        &self.ids_sorted
    }

    pub fn best_for(&self, demand: PassengerCount) -> (r: VehicleTypeIdx)
        requires
            self.wf(),
            self.ids().len() > 0,
        ensures
            r == self.spec_best_for(demand),
            self.types().contains_key(r.0),
    {
        let mut i: usize = 0;
        while i < self.ids_sorted.len()
            invariant
                i <= self.ids_sorted.len(),
                self.wf(),
                forall|j: int|
                    0 <= j < i ==> self.types()[self.ids()[j].0].spec_seats() < demand,
            decreases self.ids_sorted.len() - i,
        {
            let id = self.ids_sorted[i];
            assert(self.types().contains_key(self.ids()[i as int].0));
            if self.vehicle_types.get(&id.0).unwrap().seats >= demand {
                proof {
                    let ids = self.ids();
                    let types = self.types();
                    let w = choose|w: int|
                        0 <= w < ids.len() && types[ids[w].0].spec_seats() >= demand && forall|
                            j: int,
                        |
                            0 <= j < w ==> types[ids[j].0].spec_seats() < demand;
                    assert(w == i as int) by {
                        if w < i {
                        } else if w > i {
                        }
                    }
                }
                return id;
            }
            i += 1;
        }
        assert(self.types().contains_key(self.ids()[self.ids().len() - 1].0));
        self.ids_sorted[self.ids_sorted.len() - 1]
    }
}

} // verus!
