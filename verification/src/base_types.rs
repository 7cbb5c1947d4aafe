//! Identifiers and the small numeric types shared by every module.

use vstd::prelude::*;

verus! {

pub type Idx = u16;

pub type VehicleCount = u32;

pub type PassengerCount = u32;

pub type TrainLength = u32;

pub type Meter = u64;

pub type Cost = u64;

pub type SeatDistance = u64;

pub type MaintenanceCounter = i64;

/// What an infinite distance adds to a maintenance counter.
pub const MAINT_COUNTER_FOR_INF_DIST: Meter = 1_000;

#[derive(Debug, Clone, Copy, PartialEq, Eq, Structural, PartialOrd, Ord, Hash)]
pub struct LocationIdx(pub Idx);

#[derive(Debug, Clone, Copy, PartialEq, Eq, Structural, PartialOrd, Ord, Hash)]
pub struct VehicleTypeIdx(pub Idx);

#[derive(Debug, Clone, Copy, PartialEq, Eq, Structural, PartialOrd, Ord, Hash)]
pub struct DepotIdx(pub Idx);

/// A vehicle of the schedule: a real one, or a dummy that only holds
/// uncovered trips.
#[derive(Debug, Clone, Copy, PartialEq, Eq, Structural, PartialOrd, Ord, Hash)]
pub enum VehicleIdx {
    Vehicle(Idx),
    Dummy(Idx),
}

impl VehicleIdx {
    pub fn vehicle_from(idx: Idx) -> (v: VehicleIdx)
        ensures
            v == VehicleIdx::Vehicle(idx),
    {
        VehicleIdx::Vehicle(idx)
    }

    pub fn dummy_from(idx: Idx) -> (v: VehicleIdx)
        ensures
            v == VehicleIdx::Dummy(idx),
    {
        VehicleIdx::Dummy(idx)
    }

    pub open spec fn spec_idx(&self) -> Idx {
        match *self {
            VehicleIdx::Vehicle(idx) => idx,
            VehicleIdx::Dummy(idx) => idx,
        }
    }

    pub open spec fn spec_is_dummy(&self) -> bool {
        *self is Dummy
    }

    #[verifier::when_used_as_spec(spec_idx)]
    pub fn idx(&self) -> (i: Idx)
        ensures
            i == self.spec_idx(),
    {
        match self {
            VehicleIdx::Vehicle(idx) => *idx,
            VehicleIdx::Dummy(idx) => *idx,
        }
    }

    #[verifier::when_used_as_spec(spec_is_dummy)]
    pub fn is_dummy(&self) -> (b: bool)
        ensures
            b == self.spec_is_dummy(),
    {
        match self {
            VehicleIdx::Vehicle(_) => false,
            VehicleIdx::Dummy(_) => true,
        }
    }
}

/// A node of the network. Depot `i` appears twice: as the start depot node
/// `StartDepot(i)` and as the end depot node `EndDepot(i)`.
#[derive(Debug, Clone, Copy, PartialEq, Eq, Structural, PartialOrd, Ord, Hash)]
pub enum NodeIdx {
    StartDepot(Idx),
    Service(Idx),
    Maintenance(Idx),
    EndDepot(Idx),
}

impl NodeIdx {
    pub fn start_depot_from(idx: Idx) -> (n: NodeIdx)
        ensures
            n == NodeIdx::StartDepot(idx),
    {
        NodeIdx::StartDepot(idx)
    }

    pub fn end_depot_from(idx: Idx) -> (n: NodeIdx)
        ensures
            n == NodeIdx::EndDepot(idx),
    {
        NodeIdx::EndDepot(idx)
    }

    pub fn service_from(idx: Idx) -> (n: NodeIdx)
        ensures
            n == NodeIdx::Service(idx),
    {
        NodeIdx::Service(idx)
    }

    pub fn maintenance_from(idx: Idx) -> (n: NodeIdx)
        ensures
            n == NodeIdx::Maintenance(idx),
    {
        NodeIdx::Maintenance(idx)
    }

    pub fn smallest() -> (n: NodeIdx)
        ensures
            n == NodeIdx::StartDepot(0),
    {
        NodeIdx::StartDepot(0)
    }

    pub open spec fn spec_idx(&self) -> Idx {
        match *self {
            NodeIdx::StartDepot(idx) => idx,
            NodeIdx::Service(idx) => idx,
            NodeIdx::Maintenance(idx) => idx,
            NodeIdx::EndDepot(idx) => idx,
        }
    }

    #[verifier::when_used_as_spec(spec_idx)]
    pub fn idx(&self) -> (i: Idx)
        ensures
            i == self.spec_idx(),
    {
        match self {
            NodeIdx::StartDepot(idx) => *idx,
            NodeIdx::Service(idx) => *idx,
            NodeIdx::Maintenance(idx) => *idx,
            NodeIdx::EndDepot(idx) => *idx,
        }
    }

    pub open spec fn spec_is_depot(&self) -> bool {
        *self is StartDepot || *self is EndDepot
    }

    #[verifier::when_used_as_spec(spec_is_depot)]
    pub fn is_depot(&self) -> (b: bool)
        ensures
            b == self.spec_is_depot(),
    {
        match self {
            NodeIdx::StartDepot(_) => true,
            NodeIdx::EndDepot(_) => true,
            _ => false,
        }
    }
}

/// A place a vehicle can be at: a station, or nowhere, from where and to
/// where every distance is infinite.
#[derive(Debug, Clone, Copy, PartialEq, Eq, Structural, Hash)]
pub enum Location {
    Station(LocationIdx),
    Nowhere,
}

impl Location {
    pub fn of(station: LocationIdx) -> (l: Location)
        ensures
            l == Location::Station(station),
    {
        Location::Station(station)
    }

    /// The station of a location that is one.
    pub fn as_station(&self) -> (s: LocationIdx)
        requires
            *self is Station,
        ensures
            *self == Location::Station(s),
    {
        match self {
            Location::Station(s) => *s,
            Location::Nowhere => LocationIdx(0),
        }
    }
}

/// The side on which a vehicle leaves or enters a station.
#[derive(Debug, Clone, Copy, PartialEq, Eq, Structural, Hash)]
pub enum StationSide {
    Back,
    Front,
}

/// A set of index numbers has no more members than there are numbers.
pub proof fn lemma_id_set_small(s: Set<Idx>)
    requires
        s.finite(),
    ensures
        s.len() <= 0x10000,
{
    let r = vstd::set_lib::set_int_range(0, 0x10000);
    vstd::set_lib::lemma_int_range(0, 0x10000);
    let f = |i: int| i as Idx;
    let y = r.map(f);
    vstd::set_lib::lemma_map_size_bound(r, y, f);
    assert forall|k: Idx| s.contains(k) implies y.contains(k) by {
        assert(r.contains(k as int));
        assert(f(k as int) == k);
    }
    vstd::set_lib::lemma_len_subset(s, y);
}

/// A sequence of index numbers without repetition is no longer than there
/// are numbers.
pub proof fn lemma_distinct_ids_few(q: Seq<Idx>)
    requires
        q.no_duplicates(),
    ensures
        q.len() <= 0x10000,
{
    q.unique_seq_to_set();
    vstd::seq_lib::seq_to_set_is_finite(q);
    lemma_id_set_small(q.to_set());
}

} // verus!
