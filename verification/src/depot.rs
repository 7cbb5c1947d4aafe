//! A depot: where vehicles of the allowed types start and end their tours.

use vstd::prelude::*;
use std::collections::HashMap;
use crate::base_types::{DepotIdx, Idx, Location, VehicleCount, VehicleTypeIdx};

verus! {

broadcast use vstd::std_specs::hash::group_hash_axioms;

pub struct Depot {
    depot_id: DepotIdx,
    location: Location,
    total_capacity: VehicleCount,
    /// How many vehicles of a type may start here. A type without an entry
    /// is not allowed; `None` sets no limit of its own.
    allowed_types: HashMap<Idx, Option<VehicleCount>>,
}

/// The capacity a depot has for a type: the smaller of the type's own limit
/// and the depot's total, and nothing for a type that is not allowed.
pub open spec fn effective_capacity(
    total: VehicleCount,
    allowed: Map<Idx, Option<VehicleCount>>,
    vehicle_type: VehicleTypeIdx,
) -> VehicleCount {
    if allowed.contains_key(vehicle_type.0) {
        match allowed[vehicle_type.0] {
            Some(c) => if c <= total {
                c
            } else {
                total
            },
            None => total,
        }
    } else {
        0
    }
}

impl Depot {
    pub closed spec fn spec_depot_id(&self) -> DepotIdx {
        self.depot_id
    }

    pub closed spec fn spec_location(&self) -> Location {
        self.location
    }

    pub closed spec fn spec_total_capacity(&self) -> VehicleCount {
        self.total_capacity
    }

    pub closed spec fn spec_allowed_types(&self) -> Map<Idx, Option<VehicleCount>> {
        self.allowed_types@
    }

    pub open spec fn spec_capacity_for(&self, vehicle_type: VehicleTypeIdx) -> VehicleCount {
        effective_capacity(self.spec_total_capacity(), self.spec_allowed_types(), vehicle_type)
    }

    pub fn new(
        depot_id: DepotIdx,
        location: Location,
        total_capacity: VehicleCount,
        allowed_types: HashMap<Idx, Option<VehicleCount>>,
    ) -> (d: Depot)
        ensures
            d.spec_depot_id() == depot_id,
            d.spec_location() == location,
            d.spec_total_capacity() == total_capacity,
            d.spec_allowed_types() == allowed_types@,
    {
        Depot { depot_id, location, total_capacity, allowed_types }
    }

    #[verifier::when_used_as_spec(spec_depot_id)]
    pub fn depot_id(&self) -> (r: DepotIdx)
        ensures
            r == self.spec_depot_id(),
    {
        self.depot_id
    }

    #[verifier::when_used_as_spec(spec_location)]
    pub fn location(&self) -> (r: Location)
        ensures
            r == self.spec_location(),
    {
        self.location
    }

    #[verifier::when_used_as_spec(spec_total_capacity)]
    pub fn total_capacity(&self) -> (r: VehicleCount)
        ensures
            r == self.spec_total_capacity(),
    {
        self.total_capacity
    }

    #[verifier::when_used_as_spec(spec_capacity_for)]
    pub fn capacity_for(&self, vehicle_type: VehicleTypeIdx) -> (r: VehicleCount)
        ensures
            r == self.spec_capacity_for(vehicle_type),
    {
        match self.allowed_types.get(&vehicle_type.0) {
            Some(Some(capacity)) => if *capacity <= self.total_capacity {
                *capacity
            } else {
                self.total_capacity
            },
            Some(None) => self.total_capacity,
            None => 0,
        }
    }
}

} // verus!
