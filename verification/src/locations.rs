//! The stations and the table of dead-head trips between them.

use vstd::prelude::*;
use std::collections::HashMap;
use std::collections::HashSet;
use crate::base_types::{Idx, Location, LocationIdx, StationSide};
use crate::distance::Distance;
use crate::time::Duration;

verus! {

broadcast use vstd::std_specs::hash::group_hash_axioms;

/// An empty run from one station to another.
#[derive(Debug, Clone, Copy, PartialEq, Eq, Structural)]
pub struct DeadHeadTrip {
    pub distance: Distance,
    pub travel_time: Duration,
    pub origin_side: StationSide,
    pub destination_side: StationSide,
}

impl DeadHeadTrip {
    pub fn new(
        distance: Distance,
        travel_time: Duration,
        origin_side: StationSide,
        destination_side: StationSide,
    ) -> (t: DeadHeadTrip)
        ensures
            t == (DeadHeadTrip { distance, travel_time, origin_side, destination_side }),
    {
        DeadHeadTrip { distance, travel_time, origin_side, destination_side }
    }
}

/// The stations, and for each pair of them the dead-head trip from the
/// first to the second. Distances and travel times are meant to satisfy the
/// triangle inequality; nothing here depends on it.
pub struct Locations {
    stations: HashSet<Idx>,
    dead_head_trips: HashMap<Idx, HashMap<Idx, DeadHeadTrip>>,
}

impl Locations {
    pub closed spec fn spec_stations(&self) -> Set<Idx> {
        self.stations@
    }

    /// Whether the table holds a trip from station `a` to station `b`.
    pub closed spec fn has_entry(&self, a: Idx, b: Idx) -> bool {
        self.dead_head_trips@.contains_key(a) && self.dead_head_trips@[a]@.contains_key(b)
    }

    /// The trip that the table holds from station `a` to station `b`.
    pub closed spec fn entry(&self, a: Idx, b: Idx) -> DeadHeadTrip {
        self.dead_head_trips@[a]@[b]
    }

    /// Whether the way from `a` to `b` can be looked up: it can unless both
    /// are stations and the table has no trip between them.
    pub open spec fn has_trip(&self, a: Location, b: Location) -> bool {
        match (a, b) {
            (Location::Station(x), Location::Station(y)) => self.has_entry(x.0, y.0),
            _ => true,
        }
    }

    pub open spec fn spec_trip(&self, a: Location, b: Location) -> Option<DeadHeadTrip> {
        match (a, b) {
            (Location::Station(x), Location::Station(y)) => Some(self.entry(x.0, y.0)),
            _ => None,
        }
    }

    pub open spec fn spec_distance(&self, a: Location, b: Location) -> Distance {
        match self.spec_trip(a, b) {
            Some(t) => t.distance,
            None => Distance::Infinity,
        }
    }

    pub open spec fn spec_travel_time(&self, a: Location, b: Location) -> Duration {
        match self.spec_trip(a, b) {
            Some(t) => t.travel_time,
            None => Duration::Infinity,
        }
    }

    pub fn new(
        stations: HashSet<Idx>,
        dead_head_trips: HashMap<Idx, HashMap<Idx, DeadHeadTrip>>,
    ) -> (l: Locations)
        ensures
            l.spec_stations() == stations@,
            forall|a: Idx, b: Idx|
                l.has_entry(a, b) == (dead_head_trips@.contains_key(a)
                    && dead_head_trips@[a]@.contains_key(b)),
            forall|a: Idx, b: Idx|
                #![trigger l.entry(a, b)]
                l.has_entry(a, b) ==> l.entry(a, b) == dead_head_trips@[a]@[b],
    {
        Locations { stations, dead_head_trips }
    }

    pub fn is_station(&self, location_id: LocationIdx) -> (b: bool)
        ensures
            b == self.spec_stations().contains(location_id.0),
    {
        self.stations.contains(&location_id.0)
    }

    /// The location of a station that this table knows.
    pub fn get_location(&self, location_id: LocationIdx) -> (l: Location)
        requires
            self.spec_stations().contains(location_id.0),
        ensures
            l == Location::Station(location_id),
    {
        Location::of(location_id)
    }

    /// Whether the way from `a` to `b` can be looked up.
    pub fn knows(&self, a: Location, b: Location) -> (r: bool)
        ensures
            r == self.has_trip(a, b),
    {
        match (a, b) {
            (Location::Station(x), Location::Station(y)) => match self.dead_head_trips.get(&x.0) {
                Some(row) => row.contains_key(&y.0),
                None => false,
            },
            _ => true,
        }
    }

    pub fn get_dead_head_trip(&self, a: Location, b: Location) -> (r: Option<&DeadHeadTrip>)
        requires
            self.has_trip(a, b),
        ensures
            r.is_some() == self.spec_trip(a, b).is_some(),
            r.is_some() ==> *r.unwrap() == self.spec_trip(a, b).unwrap(),
    {
        match (a, b) {
            (Location::Station(x), Location::Station(y)) => {
                let row = self.dead_head_trips.get(&x.0).unwrap();
                row.get(&y.0)
            },
            _ => None,
        }
    }

    pub fn distance(&self, a: Location, b: Location) -> (d: Distance)
        requires
            self.has_trip(a, b),
        ensures
            d == self.spec_distance(a, b),
    {
        match self.get_dead_head_trip(a, b) {
            Some(t) => t.distance,
            None => Distance::Infinity,
        }
    }

    pub fn travel_time(&self, a: Location, b: Location) -> (d: Duration)
        requires
            self.has_trip(a, b),
        ensures
            d == self.spec_travel_time(a, b),
    {
        match self.get_dead_head_trip(a, b) {
            Some(t) => t.travel_time,
            None => Duration::Infinity,
        }
    }

    /// The side on which a vehicle leaves `a` and the side on which it
    /// enters `b`. Where one of the two is nowhere the sides play no role.
    pub fn station_sides(&self, a: Location, b: Location) -> (r: (StationSide, StationSide))
        requires
            self.has_trip(a, b),
        ensures
            r == match self.spec_trip(a, b) {
                Some(t) => (t.origin_side, t.destination_side),
                None => (StationSide::Front, StationSide::Back),
            },
    {
        match self.get_dead_head_trip(a, b) {
            Some(t) => (t.origin_side, t.destination_side),
            None => (StationSide::Front, StationSide::Back),
        }
    }
}

} // verus!
