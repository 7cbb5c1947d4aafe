//! The persistent maps and sets of `im` that a schedule is made of. A
//! schedule is never changed in place: every change makes a new map that
//! shares what is unchanged with the old one. Verus does not look into these
//! collections; what it knows of them is stated here and believed.

use vstd::prelude::*;
use crate::base_types::Idx;
use crate::tour::{Tour, TourModel};
use crate::train_formation::{TrainFormation, Vehicle};

verus! {

#[verifier::external_type_specification]
#[verifier::external_body]
#[verifier::reject_recursive_types(K)]
#[verifier::reject_recursive_types(V)]
#[verifier::reject_recursive_types(S)]
pub struct ExImHashMap<K, V, S>(im::HashMap<K, V, S>);

#[verifier::external_type_specification]
#[verifier::external_body]
#[verifier::reject_recursive_types(A)]
#[verifier::reject_recursive_types(S)]
pub struct ExImHashSet<A, S>(im::HashSet<A, S>);

/// The vehicles that a map of vehicles holds, by the number of their id.
pub uninterp spec fn vehicle_entries(m: im::HashMap<Idx, Vehicle>) -> Map<Idx, Vehicle>;

/// The tours that a map of tours holds, by the number of the vehicle's id.
pub uninterp spec fn tour_entries(m: im::HashMap<Idx, Tour>) -> Map<Idx, TourModel>;

/// The formations that a map of formations holds, by the key of the node.
pub uninterp spec fn formation_entries(m: im::HashMap<u32, TrainFormation>) -> Map<
    u32,
    Seq<Vehicle>,
>;

/// The numbers that a set of vehicle ids holds.
pub uninterp spec fn id_set(s: im::HashSet<Idx>) -> Set<Idx>;

/// Which vehicles of one type start at a depot, and which end there.
pub struct DepotUse {
    pub spawned: im::HashSet<Idx>,
    pub despawned: im::HashSet<Idx>,
}

/// What a record of a depot's use holds: the numbers of the vehicles that
/// start there and of those that end there.
pub struct DepotUseModel {
    pub spawned: Set<Idx>,
    pub despawned: Set<Idx>,
}

impl View for DepotUse {
    type V = DepotUseModel;

    open spec fn view(&self) -> DepotUseModel {
        DepotUseModel { spawned: id_set(self.spawned), despawned: id_set(self.despawned) }
    }
}

/// The records that a map of depot use holds, by depot and vehicle type.
pub uninterp spec fn usage_entries(m: im::HashMap<(Idx, Idx), DepotUse>) -> Map<
    (Idx, Idx),
    DepotUseModel,
>;

// ---------------------------------------------------------------- vehicles

/// `im::HashMap::new`: a map that holds nothing.
#[verifier::external_body]
pub(crate) fn vehicle_map_new() -> (r: im::HashMap<Idx, Vehicle>)
    ensures
        vehicle_entries(r) == (Map::<Idx, Vehicle>::empty()),
{
    im::HashMap::new()
}

/// `im::HashMap::get`: the vehicle under a key, if the map has the key.
#[verifier::external_body]
pub(crate) fn vehicle_map_get(m: &im::HashMap<Idx, Vehicle>, k: Idx) -> (r: Option<Vehicle>)
    ensures
        r.is_some() == vehicle_entries(*m).contains_key(k),
        r matches Some(v) ==> v == vehicle_entries(*m)[k],
{
    m.get(&k).copied()
}

/// `im::HashMap::update`: a map that holds `v` under `k` and is otherwise as
/// the map given.
#[verifier::external_body]
pub(crate) fn vehicle_map_update(m: &im::HashMap<Idx, Vehicle>, k: Idx, v: Vehicle) -> (r:
    im::HashMap<Idx, Vehicle>)
    ensures
        vehicle_entries(r) == vehicle_entries(*m).insert(k, v),
{
    m.update(k, v)
}

/// `im::HashMap::without`: a map that lacks `k` and is otherwise as the map
/// given.
#[verifier::external_body]
pub(crate) fn vehicle_map_without(m: &im::HashMap<Idx, Vehicle>, k: Idx) -> (r: im::HashMap<
    Idx,
    Vehicle,
>)
    ensures
        vehicle_entries(r) == vehicle_entries(*m).remove(k),
{
    m.without(&k)
}

/// `im::HashMap::len`: the number of keys.
#[verifier::external_body]
pub(crate) fn vehicle_map_len(m: &im::HashMap<Idx, Vehicle>) -> (r: usize)
    ensures
        r == vehicle_entries(*m).dom().len(),
{
    m.len()
}

/// `Clone` of `im::HashMap`: a map that holds the same.
#[verifier::external_body]
pub(crate) fn vehicle_map_clone(m: &im::HashMap<Idx, Vehicle>) -> (r: im::HashMap<Idx, Vehicle>)
    ensures
        vehicle_entries(r) == vehicle_entries(*m),
{
    m.clone()
}

/// `im::HashMap::keys`: every key of the map once, in an order that is not
/// stated.
#[verifier::external_body]
pub(crate) fn vehicle_map_keys(m: &im::HashMap<Idx, Vehicle>) -> (r: Vec<Idx>)
    ensures
        r@.no_duplicates() && r@.to_set() == vehicle_entries(*m).dom(),
{
    m.keys().copied().collect()
}

// ------------------------------------------------------------------- tours

/// `im::HashMap::new`: a map that holds nothing.
#[verifier::external_body]
pub(crate) fn tour_map_new() -> (r: im::HashMap<Idx, Tour>)
    ensures
        tour_entries(r) == (Map::<Idx, TourModel>::empty()),
{
    im::HashMap::new()
}

/// `im::HashMap::get`: the tour under a key, if the map has the key.
#[verifier::external_body]
pub(crate) fn tour_map_get(m: &im::HashMap<Idx, Tour>, k: Idx) -> (r: Option<&Tour>)
    ensures
        r.is_some() == tour_entries(*m).contains_key(k),
        r matches Some(t) ==> t@ == tour_entries(*m)[k],
{
    m.get(&k)
}

/// `im::HashMap::update`: a map that holds `v` under `k` and is otherwise as
/// the map given.
#[verifier::external_body]
pub(crate) fn tour_map_update(m: &im::HashMap<Idx, Tour>, k: Idx, v: Tour) -> (r: im::HashMap<
    Idx,
    Tour,
>)
    ensures
        tour_entries(r) == tour_entries(*m).insert(k, v@),
{
    m.update(k, v)
}

/// `im::HashMap::without`: a map that lacks `k` and is otherwise as the map
/// given.
#[verifier::external_body]
pub(crate) fn tour_map_without(m: &im::HashMap<Idx, Tour>, k: Idx) -> (r: im::HashMap<Idx, Tour>)
    ensures
        tour_entries(r) == tour_entries(*m).remove(k),
{
    m.without(&k)
}

/// `im::HashMap::len`: the number of keys.
#[verifier::external_body]
pub(crate) fn tour_map_len(m: &im::HashMap<Idx, Tour>) -> (r: usize)
    ensures
        r == tour_entries(*m).dom().len(),
{
    m.len()
}

/// `Clone` of `im::HashMap`: a map that holds the same.
#[verifier::external_body]
pub(crate) fn tour_map_clone(m: &im::HashMap<Idx, Tour>) -> (r: im::HashMap<Idx, Tour>)
    ensures
        tour_entries(r) == tour_entries(*m),
{
    m.clone()
}

/// `im::HashMap::keys`: every key of the map once, in an order that is not
/// stated.
#[verifier::external_body]
pub(crate) fn tour_map_keys(m: &im::HashMap<Idx, Tour>) -> (r: Vec<Idx>)
    ensures
        r@.no_duplicates() && r@.to_set() == tour_entries(*m).dom(),
{
    m.keys().copied().collect()
}

// -------------------------------------------------------------- formations

/// `im::HashMap::new`: a map that holds nothing.
#[verifier::external_body]
pub(crate) fn formation_map_new() -> (r: im::HashMap<u32, TrainFormation>)
    ensures
        formation_entries(r) == (Map::<u32, Seq<Vehicle>>::empty()),
{
    im::HashMap::new()
}

/// `im::HashMap::get`: the formation under a key, if the map has the key.
#[verifier::external_body]
pub(crate) fn formation_map_get(m: &im::HashMap<u32, TrainFormation>, k: u32) -> (r: Option<
    &TrainFormation,
>)
    ensures
        r.is_some() == formation_entries(*m).contains_key(k),
        r matches Some(f) ==> f@ == formation_entries(*m)[k],
{
    m.get(&k)
}

/// `im::HashMap::update`: a map that holds `v` under `k` and is otherwise as
/// the map given.
#[verifier::external_body]
pub(crate) fn formation_map_update(
    m: &im::HashMap<u32, TrainFormation>,
    k: u32,
    v: TrainFormation,
) -> (r: im::HashMap<u32, TrainFormation>)
    ensures
        formation_entries(r) == formation_entries(*m).insert(k, v@),
{
    m.update(k, v)
}

/// `Clone` of `im::HashMap`: a map that holds the same.
#[verifier::external_body]
pub(crate) fn formation_map_clone(m: &im::HashMap<u32, TrainFormation>) -> (r: im::HashMap<
    u32,
    TrainFormation,
>)
    ensures
        formation_entries(r) == formation_entries(*m),
{
    m.clone()
}

/// `im::HashMap::keys`: every key of the map once, in an order that is not
/// stated.
#[verifier::external_body]
pub(crate) fn formation_map_keys(m: &im::HashMap<u32, TrainFormation>) -> (r: Vec<u32>)
    ensures
        r@.no_duplicates() && r@.to_set() == formation_entries(*m).dom(),
{
    m.keys().copied().collect()
}

// ------------------------------------------------------------------ id sets

/// `im::HashSet::new`: a set that holds nothing.
#[verifier::external_body]
pub(crate) fn id_set_new() -> (r: im::HashSet<Idx>)
    ensures
        id_set(r) == (Set::<Idx>::empty()),
{
    im::HashSet::new()
}

/// `im::HashSet::contains`: whether the set holds the number.
#[verifier::external_body]
pub(crate) fn id_set_contains(s: &im::HashSet<Idx>, k: Idx) -> (r: bool)
    ensures
        r == id_set(*s).contains(k),
{
    s.contains(&k)
}

/// `im::HashSet::update`: a set that holds `k` and is otherwise as the set
/// given.
#[verifier::external_body]
pub(crate) fn id_set_update(s: &im::HashSet<Idx>, k: Idx) -> (r: im::HashSet<Idx>)
    ensures
        id_set(r) == id_set(*s).insert(k),
{
    s.update(k)
}

/// `im::HashSet::without`: a set that lacks `k` and is otherwise as the set
/// given.
#[verifier::external_body]
pub(crate) fn id_set_without(s: &im::HashSet<Idx>, k: Idx) -> (r: im::HashSet<Idx>)
    ensures
        id_set(r) == id_set(*s).remove(k),
{
    s.without(&k)
}

/// `im::HashSet::len`: the number of numbers in the set.
#[verifier::external_body]
pub(crate) fn id_set_len(s: &im::HashSet<Idx>) -> (r: usize)
    ensures
        r == id_set(*s).len(),
{
    s.len()
}

/// `Clone` of `im::HashSet`: a set that holds the same.
#[verifier::external_body]
pub(crate) fn id_set_clone(s: &im::HashSet<Idx>) -> (r: im::HashSet<Idx>)
    ensures
        id_set(r) == id_set(*s),
{
    s.clone()
}

/// `im::HashSet::iter`: every number of the set once, in an order that is
/// not stated.
#[verifier::external_body]
pub(crate) fn id_set_elements(s: &im::HashSet<Idx>) -> (r: Vec<Idx>)
    ensures
        r@.no_duplicates() && r@.to_set() == id_set(*s),
{
    s.iter().copied().collect()
}

// ---------------------------------------------------------------- depot use

/// `im::HashMap::new`: a map that holds nothing.
#[verifier::external_body]
pub(crate) fn usage_map_new() -> (r: im::HashMap<(Idx, Idx), DepotUse>)
    ensures
        usage_entries(r) == (Map::<(Idx, Idx), DepotUseModel>::empty()),
{
    im::HashMap::new()
}

/// `im::HashMap::get`: the record under a key, if the map has the key.
#[verifier::external_body]
pub(crate) fn usage_map_get(m: &im::HashMap<(Idx, Idx), DepotUse>, k: (Idx, Idx)) -> (r: Option<
    &DepotUse,
>)
    ensures
        r.is_some() == usage_entries(*m).contains_key(k),
        r matches Some(u) ==> u@ == usage_entries(*m)[k],
{
    m.get(&k)
}

/// `im::HashMap::update`: a map that holds `v` under `k` and is otherwise as
/// the map given.
#[verifier::external_body]
pub(crate) fn usage_map_update(m: &im::HashMap<(Idx, Idx), DepotUse>, k: (Idx, Idx), v: DepotUse) -> (r:
    im::HashMap<(Idx, Idx), DepotUse>)
    ensures
        usage_entries(r) == usage_entries(*m).insert(k, v@),
{
    m.update(k, v)
}

/// `Clone` of `im::HashMap`: a map that holds the same.
#[verifier::external_body]
pub(crate) fn usage_map_clone(m: &im::HashMap<(Idx, Idx), DepotUse>) -> (r: im::HashMap<
    (Idx, Idx),
    DepotUse,
>)
    ensures
        usage_entries(r) == usage_entries(*m),
{
    m.clone()
}

/// `im::HashMap::keys`: every key of the map once, in an order that is not
/// stated.
#[verifier::external_body]
pub(crate) fn usage_map_keys(m: &im::HashMap<(Idx, Idx), DepotUse>) -> (r: Vec<(Idx, Idx)>)
    ensures
        r@.no_duplicates() && r@.to_set() == usage_entries(*m).dom(),
{
    m.keys().copied().collect()
}

impl Clone for DepotUse {
    fn clone(&self) -> (r: DepotUse)
        ensures
            r@ == self@,
    {
        DepotUse { spawned: id_set_clone(&self.spawned), despawned: id_set_clone(&self.despawned) }
    }
}

} // verus!
