//! An instance as it is handed in, and what is built from it: the stations,
//! the vehicle types, the configuration and the network. Names that the
//! instance gives its parts become numbers: the position of the part in its
//! list.

use vstd::prelude::*;
use std::collections::{HashMap, HashSet};
use std::sync::Arc;
use crate::base_types::{DepotIdx, Idx, Location, LocationIdx, StationSide, VehicleTypeIdx};
use crate::config::Config;
use crate::depot::Depot as ModelDepot;
use crate::distance::Distance;
use crate::iso_time::{iso_seconds, parse_iso};
use crate::locations::{DeadHeadTrip, Locations};
use crate::network::{input_fault, InvalidInput, Network, ServiceTrip as ModelServiceTrip};
use crate::time::{time_after, DateTime, Duration};
use crate::vehicle_types::{types_of, VehicleType as ModelVehicleType, VehicleTypes};

verus! {

broadcast use vstd::std_specs::hash::group_hash_axioms;

pub type Integer = u32;

pub struct VehicleType {
    pub id: String,
    pub name: String,
    pub seats: Integer,
    pub capacity: Integer,
    pub length: Integer,
}

pub struct JsonLocation {
    pub id: String,
    pub name: String,
}

pub struct Capacities {
    pub vehicle_type: String,
    pub upper_bound: Integer,
}

pub struct Depot {
    pub id: String,
    pub location: String,
    pub capacities: Vec<Capacities>,
}

pub struct Route {
    pub id: String,
    pub line: String,
    pub origin: String,
    pub destination: String,
    pub distance: Integer,
    pub duration: Integer,
    pub maximal_formation_length: Option<Integer>,
}

pub struct ServiceTrip {
    pub id: String,
    pub route: String,
    pub name: String,
    pub departure: String,
    pub passengers: Integer,
}

pub struct DeadHeadTrips {
    pub indices: Vec<String>,
    pub durations: Vec<Vec<Integer>>,
    pub distances: Vec<Vec<Integer>>,
}

pub struct Shunting {
    pub minimal_duration: Integer,
    pub dead_head_trip_duration: Integer,
}

pub struct Defaults {
    pub maximal_formation_length: Integer,
}

pub struct Parameters {
    pub shunting: Shunting,
    pub defaults: Defaults,
}

pub struct JsonInput {
    pub vehicle_types: Vec<VehicleType>,
    pub locations: Vec<JsonLocation>,
    pub depots: Vec<Depot>,
    pub routes: Vec<Route>,
    pub service_trips: Vec<ServiceTrip>,
    pub dead_head_trips: DeadHeadTrips,
    pub parameters: Parameters,
}

/// What is wrong with an instance.
#[derive(Debug, Clone, Copy, PartialEq, Eq, Structural)]
pub enum JsonError {
    /// A list has more entries than there are numbers for them.
    TooMany,
    /// The table of dead-head trips has a row or column too few or too many.
    BadMatrix,
    /// A name of a location that the instance does not have.
    UnknownLocation,
    /// A name of a vehicle type that the instance does not have.
    UnknownVehicleType,
    /// A name of a route that the instance does not have.
    UnknownRoute,
    /// A departure that is no point in time.
    BadDeparture,
    /// The parts do not make a network.
    Network(InvalidInput),
}

/// The position of the first location with a name.
pub open spec fn location_at(locations: Seq<JsonLocation>, id: Seq<char>, from: int) -> int
    decreases locations.len() - from,
{
    if from < 0 || from >= locations.len() {
        locations.len() as int
    } else if locations[from].id@ == id {
        from
    } else {
        location_at(locations, id, from + 1)
    }
}

/// The position of the first vehicle type with a name.
pub open spec fn type_at(types: Seq<VehicleType>, id: Seq<char>, from: int) -> int
    decreases types.len() - from,
{
    if from < 0 || from >= types.len() {
        types.len() as int
    } else if types[from].id@ == id {
        from
    } else {
        type_at(types, id, from + 1)
    }
}

/// The position of the first route with a name.
pub open spec fn route_at(routes: Seq<Route>, id: Seq<char>, from: int) -> int
    decreases routes.len() - from,
{
    if from < 0 || from >= routes.len() {
        routes.len() as int
    } else if routes[from].id@ == id {
        from
    } else {
        route_at(routes, id, from + 1)
    }
}

pub fn find_location(locations: &Vec<JsonLocation>, id: &String) -> (r: Option<usize>)
    ensures
        match r {
            Some(i) => i == location_at(locations@, id@, 0) && i < locations@.len(),
            None => location_at(locations@, id@, 0) == locations@.len(),
        },
{
    let mut i: usize = 0;
    while i < locations.len()
        invariant
            i <= locations.len(),
            location_at(locations@, id@, 0) == location_at(locations@, id@, i as int),
        decreases locations.len() - i,
    {
        if locations[i].id == *id {
            return Some(i);
        }
        i += 1;
    }
    None
}

pub fn find_type(types: &Vec<VehicleType>, id: &String) -> (r: Option<usize>)
    ensures
        match r {
            Some(i) => i == type_at(types@, id@, 0) && i < types@.len(),
            None => type_at(types@, id@, 0) == types@.len(),
        },
{
    let mut i: usize = 0;
    while i < types.len()
        invariant
            i <= types.len(),
            type_at(types@, id@, 0) == type_at(types@, id@, i as int),
        decreases types.len() - i,
    {
        if types[i].id == *id {
            return Some(i);
        }
        i += 1;
    }
    None
}

pub fn find_route(routes: &Vec<Route>, id: &String) -> (r: Option<usize>)
    ensures
        match r {
            Some(i) => i == route_at(routes@, id@, 0) && i < routes@.len(),
            None => route_at(routes@, id@, 0) == routes@.len(),
        },
{
    let mut i: usize = 0;
    while i < routes.len()
        invariant
            i <= routes.len(),
            route_at(routes@, id@, 0) == route_at(routes@, id@, i as int),
        decreases routes.len() - i,
    {
        if routes[i].id == *id {
            return Some(i);
        }
        i += 1;
    }
    None
}

/// The vehicle type that the instance lists at a position.
pub open spec fn type_from(json: &JsonInput, i: int) -> ModelVehicleType {
    choose|t: ModelVehicleType|
        t.spec_id() == VehicleTypeIdx(i as Idx) && t.spec_name() == json.vehicle_types@[i].name@
            && t.spec_seats() == json.vehicle_types@[i].seats && t.spec_capacity()
            == json.vehicle_types@[i].capacity && t.spec_length() == json.vehicle_types@[i].length
}

/// The vehicle types of an instance. The type at position `i` gets the
/// number `i`.
pub fn create_vehicle_types(json_input: &JsonInput) -> (r: Result<VehicleTypes, JsonError>)
    ensures
        match r {
            Ok(vts) => {
                &&& json_input.vehicle_types@.len() <= 0x10000
                &&& vts.wf()
                &&& forall|k: Idx|
                    vts.types().contains_key(k) <==> k < json_input.vehicle_types@.len()
                &&& forall|k: Idx|
                    k < json_input.vehicle_types@.len() ==> {
                        let t = #[trigger] vts.types()[k];
                        let given = json_input.vehicle_types@[k as int];
                        &&& t.spec_id() == VehicleTypeIdx(k)
                        &&& t.spec_name() == given.name@
                        &&& t.spec_seats() == given.seats
                        &&& t.spec_capacity() == given.capacity
                        &&& t.spec_length() == given.length
                    }
            },
            Err(e) => e == JsonError::TooMany && json_input.vehicle_types@.len() > 0x10000,
        },
{
    let given = &json_input.vehicle_types;
    if given.len() > 0x10000 {
        return Err(JsonError::TooMany);
    }
    let mut list: Vec<ModelVehicleType> = Vec::new();
    let mut i: usize = 0;
    while i < given.len()
        invariant
            i <= given.len() <= 0x10000,
            given == &json_input.vehicle_types,
            list@.len() == i,
            forall|j: int|
                0 <= j < i ==> {
                    let t = #[trigger] list@[j];
                    &&& t.spec_id() == VehicleTypeIdx(j as Idx)
                    &&& t.spec_name() == given@[j].name@
                    &&& t.spec_seats() == given@[j].seats
                    &&& t.spec_capacity() == given@[j].capacity
                    &&& t.spec_length() == given@[j].length
                },
        decreases given.len() - i,
    {
        let t = &given[i];
        list.push(
            ModelVehicleType::new(
                VehicleTypeIdx(i as Idx),
                t.name.clone(),
                t.seats,
                t.capacity,
                t.length,
            ),
        );
        i += 1;
    }
    let ghost all = list@;
    let vts = VehicleTypes::new(list);
    proof {
        lemma_types_by_position(all, all.len() as int);
    }
    Ok(vts)
}

/// The types that a list of types leaves behind, where the type at
/// position `i` has the number `i`, are the types of the list by position.
pub proof fn lemma_types_by_position(list: Seq<ModelVehicleType>, n: int)
    requires
        0 <= n <= list.len() <= 0x10000,
        forall|j: int| 0 <= j < list.len() ==> (#[trigger] list[j]).spec_id() == VehicleTypeIdx(j as Idx),
    ensures
        forall|k: Idx| types_of(list.subrange(0, n)).contains_key(k) <==> k < n,
        forall|k: Idx| k < n ==> #[trigger] types_of(list.subrange(0, n))[k] == list[k as int],
        n == list.len() ==> list.subrange(0, n) == list,
    decreases n,
{
    let part = list.subrange(0, n);
    if n > 0 {
        lemma_types_by_position(list, n - 1);
        let front = list.subrange(0, n - 1);
        assert(part.drop_last() =~= front);
        assert(part.last() == list[n - 1]);
        assert(list[n - 1].spec_id() == VehicleTypeIdx((n - 1) as Idx));
        let key = (n - 1) as Idx;
        assert(types_of(part) == types_of(front).insert(key, list[n - 1]));
        assert forall|k: Idx| types_of(part).contains_key(k) <==> k < n by {
            assert(types_of(front).contains_key(k) <==> k < n - 1);
        }
        assert forall|k: Idx| k < n implies #[trigger] types_of(part)[k] == list[k as int] by {
            if k < n - 1 {
                assert(types_of(front)[k] == list[k as int]);
            }
        }
    } else {
        assert(part.len() == 0);
    }
    if n == list.len() {
        assert(part =~= list);
    }
}

/// The configuration of an instance.
pub fn create_config(json_input: &JsonInput) -> (c: Config)
    ensures
        c.shunting_minimal_duration == Duration::Length(
            json_input.parameters.shunting.minimal_duration as u64,
        ),
        c.shunting_dead_head_trip_duration == Duration::Length(
            json_input.parameters.shunting.dead_head_trip_duration as u64,
        ),
        c.default_maximal_formation_length == Distance::Distance(
            json_input.parameters.defaults.maximal_formation_length as u64,
        ),
{
    Config::new(
        Duration::from_seconds(json_input.parameters.shunting.minimal_duration as u64),
        Duration::from_seconds(json_input.parameters.shunting.dead_head_trip_duration as u64),
        Distance::from_meter(json_input.parameters.defaults.maximal_formation_length as u64),
    )
}

/// Whether the table of dead-head trips is square and as large as its list
/// of names.
pub open spec fn matrix_ok(trips: &DeadHeadTrips) -> bool {
    let n = trips.indices@.len();
    &&& trips.durations@.len() == n
    &&& trips.distances@.len() == n
    &&& forall|i: int| 0 <= i < n ==> (#[trigger] trips.durations@[i])@.len() == n
    &&& forall|i: int| 0 <= i < n ==> (#[trigger] trips.distances@[i])@.len() == n
}

/// Whether every name in the list of names of the table is the name of a
/// location.
pub open spec fn names_known(json: &JsonInput) -> bool {
    forall|i: int|
        0 <= i < json.dead_head_trips.indices@.len() ==> location_at(
            json.locations@,
            (#[trigger] json.dead_head_trips.indices@[i])@,
            0,
        ) < json.locations@.len()
}

pub fn check_matrix(trips: &DeadHeadTrips) -> (b: bool)
    ensures
        b == matrix_ok(trips),
{
    let n = trips.indices.len();
    if trips.durations.len() != n || trips.distances.len() != n {
        return false;
    }
    let mut i: usize = 0;
    while i < n
        invariant
            i <= n,
            n == trips.indices@.len(),
            trips.durations@.len() == n,
            trips.distances@.len() == n,
            forall|j: int| 0 <= j < i ==> (#[trigger] trips.durations@[j])@.len() == n,
            forall|j: int| 0 <= j < i ==> (#[trigger] trips.distances@[j])@.len() == n,
        decreases n - i,
    {
        if trips.durations[i].len() != n || trips.distances[i].len() != n {
            return false;
        }
        i += 1;
    }
    true
}

/// The dead-head trip that row `i` and column `j` of the table describe.
pub open spec fn trip_at(trips: &DeadHeadTrips, i: int, j: int) -> DeadHeadTrip {
    DeadHeadTrip {
        distance: Distance::Distance(trips.distances@[i]@[j] as u64),
        travel_time: Duration::Length(trips.durations@[i]@[j] as u64),
        origin_side: StationSide::Back,
        destination_side: StationSide::Front,
    }
}

/// The number of the station that the table names at position `i`.
pub open spec fn named(json: &JsonInput, i: int) -> int {
    location_at(json.locations@, json.dead_head_trips.indices@[i]@, 0)
}

/// Whether the table names station `x`.
pub open spec fn is_named(json: &JsonInput, x: int) -> bool {
    exists|i: int| 0 <= i < json.dead_head_trips.indices@.len() && #[trigger] named(json, i) == x
}

/// No position behind `i` and before `hi` names the station that position
/// `i` names.
pub open spec fn named_last(json: &JsonInput, i: int, hi: int) -> bool {
    forall|k: int| i < k < hi ==> #[trigger] named(json, k) != named(json, i)
}

/// The stations of an instance and the dead-head trips between them. The
/// location at position `i` is station `i`. The table has a trip for every
/// two stations that it names and for no others. Where it names a station
/// more than once, the last row and the last column of that name count.
pub fn create_locations(json_input: &JsonInput) -> (r: Result<Locations, JsonError>)
    ensures
        match r {
            Ok(l) => {
                &&& json_input.locations@.len() <= 0x10000
                &&& matrix_ok(&json_input.dead_head_trips)
                &&& names_known(json_input)
                &&& forall|k: Idx| l.spec_stations().contains(k) <==> k < json_input.locations@.len()
                &&& forall|a: Idx, b: Idx|
                    l.has_entry(a, b) <==> is_named(json_input, a as int) && is_named(
                        json_input,
                        b as int,
                    )
                &&& forall|i: int, j: int|
                    #![trigger trip_at(&json_input.dead_head_trips, i, j)]
                    0 <= i < json_input.dead_head_trips.indices@.len() && 0 <= j
                        < json_input.dead_head_trips.indices@.len() && named_last(
                        json_input,
                        i,
                        json_input.dead_head_trips.indices@.len() as int,
                    ) && named_last(json_input, j, json_input.dead_head_trips.indices@.len() as int)
                        ==> l.entry(named(json_input, i) as Idx, named(json_input, j) as Idx)
                        == trip_at(&json_input.dead_head_trips, i, j)
            },
            Err(e) => if json_input.locations@.len() > 0x10000 {
                e == JsonError::TooMany
            } else if !matrix_ok(&json_input.dead_head_trips) {
                e == JsonError::BadMatrix
            } else {
                e == JsonError::UnknownLocation && !names_known(json_input)
            },
        },
{
    let locations = &json_input.locations;
    let trips = &json_input.dead_head_trips;
    if locations.len() > 0x10000 {
        return Err(JsonError::TooMany);
    }
    if !check_matrix(trips) {
        return Err(JsonError::BadMatrix);
    }
    let n = trips.indices.len();
    let mut numbers: Vec<Idx> = Vec::new();
    let mut i: usize = 0;
    while i < n
        invariant
            i <= n,
            n == trips.indices@.len(),
            locations == &json_input.locations,
            trips == &json_input.dead_head_trips,
            locations@.len() <= 0x10000,
            matrix_ok(&json_input.dead_head_trips),
            numbers@.len() == i,
            forall|j: int|
                0 <= j < i ==> (#[trigger] numbers@[j]) == named(json_input, j) && numbers@[j]
                    < locations@.len(),
        decreases n - i,
    {
        match find_location(locations, &trips.indices[i]) {
            Some(k) => {
                numbers.push(k as Idx);
            },
            None => {
                proof {
                    assert(location_at(
                        json_input.locations@,
                        json_input.dead_head_trips.indices@[i as int]@,
                        0,
                    ) == json_input.locations@.len());
                }
                return Err(JsonError::UnknownLocation);
            },
        }
        i += 1;
    }
    proof {
        assert forall|j: int| 0 <= j < json_input.dead_head_trips.indices@.len() implies location_at(
            json_input.locations@,
            (#[trigger] json_input.dead_head_trips.indices@[j])@,
            0,
        ) < json_input.locations@.len() by {
            assert(numbers@[j] < locations@.len());
        }
    }
    let mut stations: HashSet<Idx> = HashSet::new();
    let mut k: usize = 0;
    while k < locations.len()
        invariant
            k <= locations.len() <= 0x10000,
            forall|x: Idx| stations@.contains(x) <==> x < k,
        decreases locations.len() - k,
    {
        stations.insert(k as Idx);
        k += 1;
    }
    let mut table: HashMap<Idx, HashMap<Idx, DeadHeadTrip>> = HashMap::new();
    let mut i: usize = 0;
    while i < n
        invariant
            i <= n,
            n == trips.indices@.len(),
            numbers@.len() == n,
            trips == &json_input.dead_head_trips,
            matrix_ok(trips),
            forall|j: int| 0 <= j < n ==> (#[trigger] numbers@[j]) == named(json_input, j),
            forall|a: int, b: int|
                #![trigger numbers@[a], numbers@[b]]
                0 <= a < i && 0 <= b < n ==> table@.contains_key(numbers@[a])
                    && table@[numbers@[a]]@.contains_key(numbers@[b]),
            forall|x: Idx, y: Idx|
                #![trigger table@[x]@.contains_key(y)]
                table@.contains_key(x) && table@[x]@.contains_key(y) ==> is_named(
                    json_input,
                    x as int,
                ) && is_named(json_input, y as int),
            forall|a: int, b: int|
                #![trigger trip_at(trips, a, b)]
                0 <= a < i && 0 <= b < n && named_last(json_input, a, i as int) && named_last(
                    json_input,
                    b,
                    n as int,
                ) ==> table@[numbers@[a]]@[numbers@[b]] == trip_at(trips, a, b),
        decreases n - i,
    {
        let origin = numbers[i];
        let ghost at_start = table@;
        let mut row: HashMap<Idx, DeadHeadTrip> = HashMap::new();
        let mut j: usize = 0;
        while j < n
            invariant
                j <= n,
                i < n,
                n == trips.indices@.len(),
                numbers@.len() == n,
                trips == &json_input.dead_head_trips,
                matrix_ok(trips),
                forall|b: int| 0 <= b < n ==> (#[trigger] numbers@[b]) == named(json_input, b),
                forall|b: int| 0 <= b < j ==> row@.contains_key(#[trigger] numbers@[b]),
                forall|y: Idx| #[trigger] row@.contains_key(y) ==> is_named(json_input, y as int),
                forall|b: int|
                    #![trigger trip_at(trips, i as int, b)]
                    0 <= b < j && named_last(json_input, b, j as int) ==> row@[numbers@[b]]
                        == trip_at(trips, i as int, b),
            decreases n - j,
        {
            assert(trips.distances@[i as int]@.len() == n);
            assert(trips.durations@[i as int]@.len() == n);
            let ghost earlier = row@;
            row.insert(
                numbers[j],
                DeadHeadTrip::new(
                    Distance::from_meter(trips.distances[i][j] as u64),
                    Duration::from_seconds(trips.durations[i][j] as u64),
                    StationSide::Back,
                    StationSide::Front,
                ),
            );
            proof {
                assert(numbers@[j as int] == named(json_input, j as int));
                assert forall|b: int| 0 <= b < j + 1 implies row@.contains_key(
                    #[trigger] numbers@[b],
                ) by {
                    if b < j {
                        assert(earlier.contains_key(numbers@[b]));
                    }
                }
                assert forall|y: Idx| #[trigger] row@.contains_key(y) implies is_named(
                    json_input,
                    y as int,
                ) by {
                    if y != numbers@[j as int] {
                        assert(earlier.contains_key(y));
                    }
                }
                assert forall|b: int|
                    #![trigger trip_at(trips, i as int, b)]
                    0 <= b < j + 1 && named_last(json_input, b, j + 1) implies row@[numbers@[b]]
                        == trip_at(trips, i as int, b) by {
                    if b < j {
                        assert(named(json_input, j as int) != named(json_input, b));
                        assert(numbers@[b] == named(json_input, b));
                        assert(named_last(json_input, b, j as int));
                        assert(earlier[numbers@[b]] == trip_at(trips, i as int, b));
                    }
                }
            }
            j += 1;
        }
        table.insert(origin, row);
        proof {
            assert(numbers@[i as int] == named(json_input, i as int));
            assert forall|a: int, b: int| #![trigger numbers@[a], numbers@[b]] 0 <= a < i + 1 && 0
                <= b < n implies table@.contains_key(numbers@[a]) && table@[numbers@[a]]@.contains_key(
                numbers@[b],
            ) by {
                if numbers@[a] != origin {
                    assert(at_start.contains_key(numbers@[a]));
                }
            }
            assert forall|x: Idx, y: Idx|
                #![trigger table@[x]@.contains_key(y)]
                table@.contains_key(x) && table@[x]@.contains_key(y) implies is_named(
                json_input,
                x as int,
            ) && is_named(json_input, y as int) by {
                if x != origin {
                    assert(at_start.contains_key(x) && at_start[x]@.contains_key(y));
                } else {
                    assert(row@.contains_key(y));
                }
            }
            assert forall|a: int, b: int|
                #![trigger trip_at(trips, a, b)]
                0 <= a < i + 1 && 0 <= b < n && named_last(json_input, a, i + 1) && named_last(
                    json_input,
                    b,
                    n as int,
                ) implies table@[numbers@[a]]@[numbers@[b]] == trip_at(trips, a, b) by {
                if a < i {
                    assert(named(json_input, i as int) != named(json_input, a));
                    assert(numbers@[a] == named(json_input, a));
                    assert(named_last(json_input, a, i as int));
                    assert(at_start[numbers@[a]]@[numbers@[b]] == trip_at(trips, a, b));
                }
            }
        }
        i += 1;
    }
    let ghost rows = table@;
    let l = Locations::new(stations, table);
    proof {
        assert forall|a: Idx, b: Idx|
            l.has_entry(a, b) <==> is_named(json_input, a as int) && is_named(
                json_input,
                b as int,
            ) by {
            assert(l.has_entry(a, b) == (rows.contains_key(a) && rows[a]@.contains_key(b)));
            if is_named(json_input, a as int) && is_named(json_input, b as int) {
                let i = choose|i: int| 0 <= i < n && #[trigger] named(json_input, i) == a as int;
                let j = choose|j: int| 0 <= j < n && #[trigger] named(json_input, j) == b as int;
                assert(numbers@[i] == a && numbers@[j] == b);
            }
            if rows.contains_key(a) && rows[a]@.contains_key(b) {
                assert(is_named(json_input, a as int));
            }
        }
        assert forall|i: int, j: int|
            #![trigger trip_at(&json_input.dead_head_trips, i, j)]
            0 <= i < n && 0 <= j < n && named_last(json_input, i, n as int) && named_last(
                json_input,
                j,
                n as int,
            ) implies l.entry(named(json_input, i) as Idx, named(json_input, j) as Idx) == trip_at(
            &json_input.dead_head_trips,
            i,
            j,
        ) by {
            assert(numbers@[i] == named(json_input, i) && numbers@[j] == named(json_input, j));
            assert(rows[numbers@[i]]@[numbers@[j]] == trip_at(trips, i, j));
            assert(rows.contains_key(numbers@[i]) && rows[numbers@[i]]@.contains_key(numbers@[j]));
            assert(l.has_entry(numbers@[i], numbers@[j]));
        }
    }
    Ok(l)
}

/// The sum of the upper bounds of the first `n` capacities of a depot, cut
/// off at the largest count.
pub open spec fn bounds_sum(capacities: Seq<Capacities>, n: int) -> int
    decreases n,
{
    if n <= 0 {
        0
    } else {
        bounds_sum(capacities, n - 1) + capacities[n - 1].upper_bound
    }
}

/// The bounds of the first `n` capacities of a depot by the number of their
/// type; of two for one type the later one counts.
pub open spec fn bounds_by_type(types: Seq<VehicleType>, capacities: Seq<Capacities>, n: int) -> Map<
    Idx,
    Option<u32>,
>
    decreases n,
{
    if n <= 0 {
        Map::empty()
    } else {
        bounds_by_type(types, capacities, n - 1).insert(
            type_at(types, capacities[n - 1].vehicle_type@, 0) as Idx,
            Some(capacities[n - 1].upper_bound),
        )
    }
}

/// Whether the location and the vehicle types of a depot are known.
pub open spec fn depot_known(json: &JsonInput, i: int) -> bool {
    let d = json.depots@[i];
    &&& location_at(json.locations@, d.location@, 0) < json.locations@.len()
    &&& forall|c: int|
        0 <= c < d.capacities@.len() ==> type_at(
            json.vehicle_types@,
            (#[trigger] d.capacities@[c]).vehicle_type@,
            0,
        ) < json.vehicle_types@.len()
}

/// The depots of an instance. The depot at position `i` gets the number
/// `i`; it has room for as many vehicles as its types together, and for a
/// type as the instance says.
pub fn create_depots(json_input: &JsonInput, loc: &Locations) -> (r: Result<Vec<ModelDepot>, JsonError>)
    requires
        json_input.locations@.len() <= 0x10000,
        json_input.vehicle_types@.len() <= 0x10000,
    ensures
        match r {
            Ok(depots) => {
                &&& depots@.len() == json_input.depots@.len()
                &&& depots@.len() <= 0x10000
                &&& forall|i: int|
                    0 <= i < depots@.len() ==> {
                        let d = #[trigger] depots@[i];
                        let given = json_input.depots@[i];
                        &&& depot_known(json_input, i)
                        &&& d.spec_depot_id() == DepotIdx(i as Idx)
                        &&& d.spec_location() == Location::Station(
                            LocationIdx(location_at(json_input.locations@, given.location@, 0) as Idx),
                        )
                        &&& d.spec_total_capacity() == crate::train_formation::clip(
                            bounds_sum(given.capacities@, given.capacities@.len() as int),
                        )
                        &&& d.spec_allowed_types() == bounds_by_type(
                            json_input.vehicle_types@,
                            given.capacities@,
                            given.capacities@.len() as int,
                        )
                    }
            },
            Err(e) => if json_input.depots@.len() > 0x10000 {
                e == JsonError::TooMany
            } else {
                (e == JsonError::UnknownLocation || e == JsonError::UnknownVehicleType)
                    && exists|i: int|
                    0 <= i < json_input.depots@.len() && !#[trigger] depot_known(json_input, i)
            },
        },
{
    let given = &json_input.depots;
    if given.len() > 0x10000 {
        return Err(JsonError::TooMany);
    }
    let mut depots: Vec<ModelDepot> = Vec::new();
    let mut i: usize = 0;
    while i < given.len()
        invariant
            i <= given.len() <= 0x10000,
            given == &json_input.depots,
            json_input.locations@.len() <= 0x10000,
            json_input.vehicle_types@.len() <= 0x10000,
            depots@.len() == i,
            forall|j: int|
                0 <= j < i ==> {
                    let d = #[trigger] depots@[j];
                    let g = json_input.depots@[j];
                    &&& depot_known(json_input, j)
                    &&& d.spec_depot_id() == DepotIdx(j as Idx)
                    &&& d.spec_location() == Location::Station(
                        LocationIdx(location_at(json_input.locations@, g.location@, 0) as Idx),
                    )
                    &&& d.spec_total_capacity() == crate::train_formation::clip(
                        bounds_sum(g.capacities@, g.capacities@.len() as int),
                    )
                    &&& d.spec_allowed_types() == bounds_by_type(
                        json_input.vehicle_types@,
                        g.capacities@,
                        g.capacities@.len() as int,
                    )
                },
        decreases given.len() - i,
    {
        let depot = &given[i];
        let place = match find_location(&json_input.locations, &depot.location) {
            Some(k) => k,
            None => {
                assert(!depot_known(json_input, i as int));
                return Err(JsonError::UnknownLocation);
            },
        };
        let mut allowed: HashMap<Idx, Option<u32>> = HashMap::new();
        let mut total: u64 = 0;
        let mut c: usize = 0;
        while c < depot.capacities.len()
            invariant
                c <= depot.capacities.len(),
                i < given.len() <= 0x10000,
                given == &json_input.depots,
                depot == &given@[i as int],
                json_input.vehicle_types@.len() <= 0x10000,
                total == crate::train_formation::clip(bounds_sum(depot.capacities@, c as int)),
                bounds_sum(depot.capacities@, c as int) >= 0,
                forall|x: int|
                    0 <= x < c ==> type_at(
                        json_input.vehicle_types@,
                        (#[trigger] depot.capacities@[x]).vehicle_type@,
                        0,
                    ) < json_input.vehicle_types@.len(),
                allowed@ == bounds_by_type(json_input.vehicle_types@, depot.capacities@, c as int),
            decreases depot.capacities.len() - c,
        {
            let capacity = &depot.capacities[c];
            let t = match find_type(&json_input.vehicle_types, &capacity.vehicle_type) {
                Some(k) => k,
                None => {
                    proof {
                        assert(type_at(
                            json_input.vehicle_types@,
                            json_input.depots@[i as int].capacities@[c as int].vehicle_type@,
                            0,
                        ) == json_input.vehicle_types@.len());
                        assert(!depot_known(json_input, i as int));
                    }
                    return Err(JsonError::UnknownVehicleType);
                },
            };
            allowed.insert(t as Idx, Some(capacity.upper_bound));
            let sum = total + capacity.upper_bound as u64;
            total = if sum > u32::MAX as u64 {
                u32::MAX as u64
            } else {
                sum
            };
            c += 1;
        }
        depots.push(
            ModelDepot::new(
                DepotIdx(i as Idx),
                Location::of(LocationIdx(place as Idx)),
                total as u32,
                allowed,
            ),
        );
        i += 1;
    }
    Ok(depots)
}

/// Whether the route of a trip, the two ends of the route and the departure
/// of the trip are known.
pub open spec fn trip_known(json: &JsonInput, i: int) -> bool {
    let t = json.service_trips@[i];
    let r = route_at(json.routes@, t.route@, 0);
    &&& r < json.routes@.len()
    &&& location_at(json.locations@, json.routes@[r].origin@, 0) < json.locations@.len()
    &&& location_at(json.locations@, json.routes@[r].destination@, 0) < json.locations@.len()
    &&& iso_seconds(vstd::utf8::encode_utf8(t.departure@)) is Some
}

/// The trips of an instance. A trip runs on its route: from the origin of
/// the route to its destination, over its distance, and arrives after its
/// duration.
pub fn create_service_trip(json_input: &JsonInput, locations: &Locations) -> (r: Result<
    Vec<ModelServiceTrip>,
    JsonError,
>)
    requires
        json_input.locations@.len() <= 0x10000,
    ensures
        match r {
            Ok(trips) => {
                &&& trips@.len() == json_input.service_trips@.len()
                &&& forall|i: int|
                    0 <= i < trips@.len() ==> {
                        let t = #[trigger] trips@[i];
                        let given = json_input.service_trips@[i];
                        let route = json_input.routes@[route_at(json_input.routes@, given.route@, 0)];
                        let departure = DateTime::Point(
                            iso_seconds(vstd::utf8::encode_utf8(given.departure@))->Some_0 as u64,
                        );
                        &&& trip_known(json_input, i)
                        &&& t.origin == Location::Station(
                            LocationIdx(location_at(json_input.locations@, route.origin@, 0) as Idx),
                        )
                        &&& t.destination == Location::Station(
                            LocationIdx(
                                location_at(json_input.locations@, route.destination@, 0) as Idx,
                            ),
                        )
                        &&& t.departure == departure
                        &&& t.arrival == time_after(departure, Duration::Length(route.duration as u64))
                        &&& t.distance == Distance::Distance(route.distance as u64)
                        &&& t.demand == given.passengers
                        &&& t.name@ == given.name@
                    }
            },
            Err(e) => (e == JsonError::UnknownRoute || e == JsonError::UnknownLocation || e
                == JsonError::BadDeparture) && exists|i: int|
                0 <= i < json_input.service_trips@.len() && !#[trigger] trip_known(json_input, i),
        },
{
    let given = &json_input.service_trips;
    let mut trips: Vec<ModelServiceTrip> = Vec::new();
    let mut i: usize = 0;
    while i < given.len()
        invariant
            i <= given.len(),
            given == &json_input.service_trips,
            json_input.locations@.len() <= 0x10000,
            trips@.len() == i,
            forall|j: int|
                0 <= j < i ==> {
                    let t = #[trigger] trips@[j];
                    let g = json_input.service_trips@[j];
                    let route = json_input.routes@[route_at(json_input.routes@, g.route@, 0)];
                    let departure = DateTime::Point(
                        iso_seconds(vstd::utf8::encode_utf8(g.departure@))->Some_0 as u64,
                    );
                    &&& trip_known(json_input, j)
                    &&& t.origin == Location::Station(
                        LocationIdx(location_at(json_input.locations@, route.origin@, 0) as Idx),
                    )
                    &&& t.destination == Location::Station(
                        LocationIdx(location_at(json_input.locations@, route.destination@, 0) as Idx),
                    )
                    &&& t.departure == departure
                    &&& t.arrival == time_after(departure, Duration::Length(route.duration as u64))
                    &&& t.distance == Distance::Distance(route.distance as u64)
                    &&& t.demand == g.passengers
                    &&& t.name@ == g.name@
                },
        decreases given.len() - i,
    {
        let trip = &given[i];
        let route = match find_route(&json_input.routes, &trip.route) {
            Some(k) => &json_input.routes[k],
            None => {
                assert(!trip_known(json_input, i as int));
                return Err(JsonError::UnknownRoute);
            },
        };
        let origin = match find_location(&json_input.locations, &route.origin) {
            Some(k) => k,
            None => {
                assert(!trip_known(json_input, i as int));
                return Err(JsonError::UnknownLocation);
            },
        };
        let destination = match find_location(&json_input.locations, &route.destination) {
            Some(k) => k,
            None => {
                assert(!trip_known(json_input, i as int));
                return Err(JsonError::UnknownLocation);
            },
        };
        let departure = match parse_iso(trip.departure.as_str().as_bytes()) {
            Some(t) => t,
            None => {
                assert(!trip_known(json_input, i as int));
                return Err(JsonError::BadDeparture);
            },
        };
        trips.push(
            ModelServiceTrip::new(
                Location::of(LocationIdx(origin as Idx)),
                Location::of(LocationIdx(destination as Idx)),
                departure,
                departure.plus(Duration::from_seconds(route.duration as u64)),
                Distance::from_meter(route.distance as u64),
                trip.passengers,
                trip.name.clone(),
            ),
        );
        i += 1;
    }
    Ok(trips)
}

/// Whether depots are the depots of an instance: the depot at position `i`
/// has the number `i`, stands where the instance says, and has room for as
/// many vehicles as the instance says, of all types together and of each.
pub open spec fn depots_from(json: &JsonInput, depots: Seq<ModelDepot>) -> bool {
    &&& depots.len() == json.depots@.len()
    &&& forall|i: int|
        0 <= i < depots.len() ==> {
            let d = #[trigger] depots[i];
            let given = json.depots@[i];
            &&& d.spec_depot_id() == DepotIdx(i as Idx)
            &&& d.spec_location() == Location::Station(
                LocationIdx(location_at(json.locations@, given.location@, 0) as Idx),
            )
            &&& d.spec_total_capacity() == crate::train_formation::clip(
                bounds_sum(given.capacities@, given.capacities@.len() as int),
            )
            &&& d.spec_allowed_types() == bounds_by_type(
                json.vehicle_types@,
                given.capacities@,
                given.capacities@.len() as int,
            )
        }
}

/// Whether trips are the trips of an instance: the trip at position `i`
/// runs on its route, from the origin of the route to its destination, over
/// its distance, and arrives after its duration.
pub open spec fn trips_from(json: &JsonInput, trips: Seq<ModelServiceTrip>) -> bool {
    &&& trips.len() == json.service_trips@.len()
    &&& forall|i: int|
        0 <= i < trips.len() ==> {
            let t = #[trigger] trips[i];
            let given = json.service_trips@[i];
            let route = json.routes@[route_at(json.routes@, given.route@, 0)];
            let departure = DateTime::Point(
                iso_seconds(vstd::utf8::encode_utf8(given.departure@))->Some_0 as u64,
            );
            &&& t.origin == Location::Station(
                LocationIdx(location_at(json.locations@, route.origin@, 0) as Idx),
            )
            &&& t.destination == Location::Station(
                LocationIdx(location_at(json.locations@, route.destination@, 0) as Idx),
            )
            &&& t.departure == departure
            &&& t.arrival == time_after(departure, Duration::Length(route.duration as u64))
            &&& t.distance == Distance::Distance(route.distance as u64)
            &&& t.demand == given.passengers
            &&& t.name@ == given.name@
        }
}

/// Whether every depot of an instance names a location and vehicle types
/// that the instance has.
pub open spec fn depots_known(json: &JsonInput) -> bool {
    forall|i: int| 0 <= i < json.depots@.len() ==> #[trigger] depot_known(json, i)
}

/// Whether every trip of an instance names a route with ends that the
/// instance has, and departs at a point in time.
pub open spec fn trips_known(json: &JsonInput) -> bool {
    forall|i: int| 0 <= i < json.service_trips@.len() ==> #[trigger] trip_known(json, i)
}

/// Whether a network cannot be built from some depots and trips of an
/// instance for the reason `fault`.
pub open spec fn parts_fault(
    json: &JsonInput,
    locations: Locations,
    depots: Seq<ModelDepot>,
    trips: Seq<ModelServiceTrip>,
    fault: InvalidInput,
) -> bool {
    &&& depots_from(json, depots)
    &&& trips_from(json, trips)
    &&& input_fault(locations, depots, trips, Seq::empty()) == Some(fault)
}

/// The network of an instance: its depots and its trips; slots for
/// maintenance it has none. Fails where the instance has too many depots,
/// where a depot or, if all depots are known, a trip names something that
/// the instance does not have, and else where the depots and trips make no
/// network.
pub fn create_network(json_input: &JsonInput, locations: Arc<Locations>, config: Arc<Config>) -> (r:
    Result<Network, JsonError>)
    requires
        json_input.locations@.len() <= 0x10000,
        json_input.vehicle_types@.len() <= 0x10000,
    ensures
        match r {
            Ok(nw) => {
                &&& nw.wf()
                &&& nw.spec_locations() == *locations
                &&& nw.spec_config() == *config
                &&& nw.spec_depots().len() == json_input.depots@.len()
                &&& nw.spec_services().len() == json_input.service_trips@.len()
                &&& nw.spec_slots().len() == 0
                &&& json_input.depots@.len() <= 0x10000
                &&& depots_known(json_input)
                &&& trips_known(json_input)
                &&& depots_from(json_input, nw.spec_depots())
                &&& trips_from(json_input, nw.spec_services())
            },
            Err(e) => if json_input.depots@.len() > 0x10000 {
                e == JsonError::TooMany
            } else if !depots_known(json_input) {
                e == JsonError::UnknownLocation || e == JsonError::UnknownVehicleType
            } else if !trips_known(json_input) {
                e == JsonError::UnknownRoute || e == JsonError::UnknownLocation || e
                    == JsonError::BadDeparture
            } else {
                exists|depots: Seq<ModelDepot>, trips: Seq<ModelServiceTrip>, fault: InvalidInput|
                    #[trigger] parts_fault(json_input, *locations, depots, trips, fault) && e
                        == JsonError::Network(fault)
            },
        },
{
    let depots = match create_depots(json_input, &locations) {
        Ok(d) => d,
        Err(e) => {
            return Err(e);
        },
    };
    proof {
        assert(depots_from(json_input, depots@));
        assert(depots_known(json_input)) by {
            assert forall|i: int| 0 <= i < json_input.depots@.len() implies #[trigger] depot_known(
                json_input,
                i,
            ) by {
                let d = depots@[i];
            }
        }
    }
    let service_trips = match create_service_trip(json_input, &locations) {
        Ok(t) => t,
        Err(e) => {
            return Err(e);
        },
    };
    proof {
        assert(trips_from(json_input, service_trips@));
        assert(trips_known(json_input)) by {
            assert forall|i: int|
                0 <= i < json_input.service_trips@.len() implies #[trigger] trip_known(
                json_input,
                i,
            ) by {
                let t = service_trips@[i];
            }
        }
    }
    let ghost d = depots@;
    let ghost t = service_trips@;
    match Network::new(depots, service_trips, Vec::new(), config, locations) {
        Ok(nw) => Ok(nw),
        Err(e) => {
            proof {
                assert(parts_fault(json_input, *locations, d, t, e));
            }
            Err(JsonError::Network(e))
        },
    }
}

} // verus!
