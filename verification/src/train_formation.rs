//! Vehicles, and the train formation of a node: the vehicles that cover it,
//! in the order in which they are coupled.

use vstd::prelude::*;
use crate::base_types::{PassengerCount, VehicleIdx, VehicleTypeIdx};
use crate::vehicle_types::VehicleTypes;

verus! {

/// A vehicle as a formation holds it: its id, its type, and what it takes.
#[derive(Debug, Clone, Copy, PartialEq, Eq, Structural)]
pub struct Vehicle {
    pub id: VehicleIdx,
    pub type_id: VehicleTypeIdx,
    pub seats: PassengerCount,
    pub capacity: PassengerCount,
}

impl Vehicle {
    /// The vehicle with this id of a type of the pool; none if the pool has
    /// no such type.
    pub fn new(id: VehicleIdx, type_id: VehicleTypeIdx, vehicle_types: &VehicleTypes) -> (r: Option<
        Vehicle,
    >)
        ensures
            r.is_some() == vehicle_types.types().contains_key(type_id.0),
            r matches Some(v) ==> v == (Vehicle {
                id,
                type_id,
                seats: vehicle_types.types()[type_id.0].spec_seats(),
                capacity: vehicle_types.types()[type_id.0].spec_capacity(),
            }),
    {
        match vehicle_types.get(type_id) {
            Some(vt) => Some(Vehicle { id, type_id, seats: vt.seats(), capacity: vt.capacity() }),
            None => None,
        }
    }

    pub fn id(&self) -> (r: VehicleIdx)
        ensures
            r == self.id,
    {
        self.id
    }

    pub fn type_id(&self) -> (r: VehicleTypeIdx)
        ensures
            r == self.type_id,
    {
        self.type_id
    }

    pub fn seats(&self) -> (r: PassengerCount)
        ensures
            r == self.seats,
    {
        self.seats
    }

    pub fn capacity(&self) -> (r: PassengerCount)
        ensures
            r == self.capacity,
    {
        self.capacity
    }
}

/// The vehicle asked for is not in the formation.
#[derive(Debug, Clone, Copy, PartialEq, Eq, Structural)]
pub struct NotInFormation(pub VehicleIdx);

/// The position of the first vehicle with this id at or after `lo`, or the
/// length of the formation.
pub open spec fn position_of_id(f: Seq<Vehicle>, id: VehicleIdx, lo: int) -> int
    decreases f.len() - lo,
{
    if lo >= f.len() {
        f.len() as int
    } else if lo >= 0 && f[lo].id == id {
        lo
    } else {
        position_of_id(f, id, lo + 1)
    }
}

/// Whether a vehicle with this id is in the formation.
pub open spec fn has_id(f: Seq<Vehicle>, id: VehicleIdx) -> bool {
    exists|i: int| 0 <= i < f.len() && (#[trigger] f[i]).id == id
}

/// Whether no id stands twice in the formation.
pub open spec fn ids_distinct(f: Seq<Vehicle>) -> bool {
    forall|i: int, j: int|
        #![trigger f[i], f[j]]
        0 <= i < j < f.len() ==> f[i].id != f[j].id
}

/// The seats of all vehicles of a formation together.
pub open spec fn seats_sum(f: Seq<Vehicle>) -> int
    decreases f.len(),
{
    if f.len() == 0 {
        0
    } else {
        seats_sum(f.drop_last()) + f.last().seats
    }
}

/// The capacities of all vehicles of a formation together.
pub open spec fn capacity_sum(f: Seq<Vehicle>) -> int
    decreases f.len(),
{
    if f.len() == 0 {
        0
    } else {
        capacity_sum(f.drop_last()) + f.last().capacity
    }
}

/// A count of passengers, cut off at the largest that the type holds.
pub open spec fn clip(n: int) -> PassengerCount {
    if n >= PassengerCount::MAX {
        PassengerCount::MAX
    } else if n <= 0 {
        0
    } else {
        n as PassengerCount
    }
}

pub proof fn lemma_position_of_id(f: Seq<Vehicle>, id: VehicleIdx, lo: int)
    requires
        0 <= lo <= f.len(),
    ensures
        lo <= position_of_id(f, id, lo) <= f.len(),
        position_of_id(f, id, lo) < f.len() ==> f[position_of_id(f, id, lo)].id == id,
        forall|j: int| lo <= j < position_of_id(f, id, lo) ==> (#[trigger] f[j]).id != id,
        position_of_id(f, id, 0) < f.len() <==> has_id(f, id),
    decreases f.len() - lo,
{
    if lo < f.len() && f[lo].id != id {
        lemma_position_of_id(f, id, lo + 1);
    }
    lemma_position_of_id_zero(f, id);
}

proof fn lemma_position_of_id_zero(f: Seq<Vehicle>, id: VehicleIdx)
    ensures
        position_of_id(f, id, 0) < f.len() <==> has_id(f, id),
{
    lemma_position_bounds(f, id, 0);
    let p = position_of_id(f, id, 0);
    if has_id(f, id) {
        let w = choose|w: int| 0 <= w < f.len() && (#[trigger] f[w]).id == id;
        if p >= f.len() {
            assert(f[w].id != id);
        }
    }
}

proof fn lemma_position_bounds(f: Seq<Vehicle>, id: VehicleIdx, lo: int)
    requires
        0 <= lo <= f.len(),
    ensures
        lo <= position_of_id(f, id, lo) <= f.len(),
        position_of_id(f, id, lo) < f.len() ==> f[position_of_id(f, id, lo)].id == id,
        forall|j: int| lo <= j < position_of_id(f, id, lo) ==> (#[trigger] f[j]).id != id,
    decreases f.len() - lo,
{
    if lo < f.len() && f[lo].id != id {
        lemma_position_bounds(f, id, lo + 1);
    }
}

pub proof fn lemma_sums_not_negative(f: Seq<Vehicle>)
    ensures
        seats_sum(f) >= 0,
        capacity_sum(f) >= 0,
    decreases f.len(),
{
    if f.len() > 0 {
        lemma_sums_not_negative(f.drop_last());
    }
}

pub struct TrainFormation {
    formation: Vec<Vehicle>,
}

impl View for TrainFormation {
    type V = Seq<Vehicle>;

    closed spec fn view(&self) -> Seq<Vehicle> {
        self.formation@
    }
}

impl Clone for TrainFormation {
    fn clone(&self) -> (r: TrainFormation)
        ensures
            r@ == self@,
    {
        TrainFormation { formation: copy_vehicles(&self.formation, 0, self.formation.len()) }
    }
}

fn copy_vehicles(v: &Vec<Vehicle>, from: usize, to: usize) -> (r: Vec<Vehicle>)
    requires
        from <= to <= v@.len(),
    ensures
        r@ == v@.subrange(from as int, to as int),
        from == 0 && to == v@.len() ==> r@ == v@,
{
    let mut r: Vec<Vehicle> = Vec::new();
    let mut i: usize = from;
    while i < to
        invariant
            from <= i <= to <= v@.len(),
            r@ == v@.subrange(from as int, i as int),
        decreases to - i,
    {
        r.push(v[i]);
        proof {
            assert(r@ =~= v@.subrange(from as int, i + 1));
        }
        i += 1;
    }
    proof {
        if from == 0 && to == v@.len() {
            assert(r@ =~= v@);
        }
    }
    r
}

impl TrainFormation {
    pub fn empty() -> (f: TrainFormation)
        ensures
            f@ == Seq::<Vehicle>::empty(),
    {
        TrainFormation { formation: Vec::new() }
    }

    pub fn new(formation: Vec<Vehicle>) -> (f: TrainFormation)
        ensures
            f@ == formation@,
    {
        TrainFormation { formation }
    }

    /// The formation with one more vehicle at its tail. Nothing is done to
    /// keep a vehicle from standing in it twice.
    pub fn add_at_tail(&self, vehicle: Vehicle) -> (f: TrainFormation)
        ensures
            f@ == self@.push(vehicle),
    {
        let mut formation = copy_vehicles(&self.formation, 0, self.formation.len());
        formation.push(vehicle);
        TrainFormation { formation }
    }

    /// The position of the first vehicle with this id.
    pub fn position(&self, id: VehicleIdx) -> (r: Option<usize>)
        ensures
            r.is_some() == has_id(self@, id),
            r matches Some(p) ==> p == position_of_id(self@, id, 0) && p < self@.len(),
    {
        proof {
            lemma_position_of_id(self@, id, 0);
        }
        let mut i: usize = 0;
        while i < self.formation.len()
            invariant
                i <= self.formation.len(),
                position_of_id(self@, id, 0) == position_of_id(self@, id, i as int),
            decreases self.formation.len() - i,
        {
            if self.formation[i].id == id {
                return Some(i);
            }
            i += 1;
        }
        None
    }

    /// The formation without the first vehicle with this id.
    pub fn remove(&self, id: VehicleIdx) -> (r: Result<TrainFormation, NotInFormation>)
        ensures
            match r {
                Ok(f) => has_id(self@, id) && f@ == self@.remove(position_of_id(self@, id, 0)),
                Err(e) => !has_id(self@, id) && e == NotInFormation(id),
            },
    {
        match self.position(id) {
            None => Err(NotInFormation(id)),
            Some(p) => {
                let mut formation = copy_vehicles(&self.formation, 0, self.formation.len());
                formation.remove(p);
                Ok(TrainFormation { formation })
            },
        }
    }

    /// The formation with `new` in the place of the first vehicle with the
    /// id `old`.
    pub fn replace(&self, old: VehicleIdx, new: Vehicle) -> (r: Result<TrainFormation, NotInFormation>)
        ensures
            match r {
                Ok(f) => has_id(self@, old) && f@ == self@.update(
                    position_of_id(self@, old, 0),
                    new,
                ),
                Err(e) => !has_id(self@, old) && e == NotInFormation(old),
            },
    {
        match self.position(old) {
            None => Err(NotInFormation(old)),
            Some(p) => {
                let mut formation = copy_vehicles(&self.formation, 0, self.formation.len());
                formation.set(p, new);
                Ok(TrainFormation { formation })
            },
        }
    }

    /// The seats of the formation, cut off at the largest count.
    pub fn seats(&self) -> (r: PassengerCount)
        ensures
            r == clip(seats_sum(self@)),
    {
        let mut total: PassengerCount = 0;
        let mut i: usize = 0;
        proof {
            assert(self@.subrange(0, 0) =~= Seq::<Vehicle>::empty());
        }
        while i < self.formation.len()
            invariant
                i <= self.formation.len(),
                total == clip(seats_sum(self@.subrange(0, i as int))),
            decreases self.formation.len() - i,
        {
            proof {
                lemma_sums_not_negative(self@.subrange(0, i as int));
                assert(self@.subrange(0, i + 1).drop_last() =~= self@.subrange(0, i as int));
            }
            let s = self.formation[i].seats;
            total = if total > PassengerCount::MAX - s {
                PassengerCount::MAX
            } else {
                total + s
            };
            i += 1;
        }
        proof {
            assert(self@.subrange(0, self@.len() as int) =~= self@);
        }
        total
    }

    /// The capacity of the formation, cut off at the largest count.
    pub fn capacity(&self) -> (r: PassengerCount)
        ensures
            r == clip(capacity_sum(self@)),
    {
        let mut total: PassengerCount = 0;
        let mut i: usize = 0;
        proof {
            assert(self@.subrange(0, 0) =~= Seq::<Vehicle>::empty());
        }
        while i < self.formation.len()
            invariant
                i <= self.formation.len(),
                total == clip(capacity_sum(self@.subrange(0, i as int))),
            decreases self.formation.len() - i,
        {
            proof {
                lemma_sums_not_negative(self@.subrange(0, i as int));
                assert(self@.subrange(0, i + 1).drop_last() =~= self@.subrange(0, i as int));
            }
            let s = self.formation[i].capacity;
            total = if total > PassengerCount::MAX - s {
                PassengerCount::MAX
            } else {
                total + s
            };
            i += 1;
        }
        proof {
            assert(self@.subrange(0, self@.len() as int) =~= self@);
        }
        total
    }

    /// The ids of the vehicles, head first.
    pub fn ids(&self) -> (r: Vec<VehicleIdx>)
        ensures
            r@.len() == self@.len(),
            forall|i: int| 0 <= i < r@.len() ==> r@[i] == self@[i].id,
    {
        let mut r: Vec<VehicleIdx> = Vec::new();
        let mut i: usize = 0;
        while i < self.formation.len()
            invariant
                i <= self.formation.len(),
                r@.len() == i,
                forall|j: int| 0 <= j < i ==> r@[j] == self@[j].id,
            decreases self.formation.len() - i,
        {
            r.push(self.formation[i].id);
            i += 1;
        }
        r
    }

    /// The vehicles, head first.
    pub fn iter(&self) -> (r: &Vec<Vehicle>)
        ensures
            r@ == self@,
    {
        &self.formation
    }

    pub fn len(&self) -> (n: usize)
        ensures
            n == self@.len(),
    {
        self.formation.len()
    }
}

} // verus!
