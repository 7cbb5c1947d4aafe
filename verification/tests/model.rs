use rolling_stock::base_types::{DepotIdx, Location, LocationIdx, NodeIdx, StationSide, VehicleTypeIdx};
use rolling_stock::config::Config;
use rolling_stock::depot::Depot;
use rolling_stock::distance::Distance;
use rolling_stock::iso_time::parse_iso;
use rolling_stock::locations::{DeadHeadTrip, Locations};
use rolling_stock::network::{InvalidInput, MaintenanceSlot, Network, ServiceTrip};
use rolling_stock::time::{DateTime, Duration};
use rolling_stock::vehicle_types::{VehicleType, VehicleTypes};
use std::collections::{HashMap, HashSet};
use std::sync::Arc;

#[test]
fn distances_add_up_to_infinity() {
    let a = Distance::from_meter(7);
    let b = Distance::from_meter(5);
    assert_eq!(a.plus(b), Distance::from_meter(12));
    assert_eq!(a.plus(Distance::Infinity), Distance::Infinity);
    assert_eq!(Distance::from_meter(u64::MAX).plus(Distance::from_meter(1)), Distance::Infinity);
    assert_eq!(Distance::zero().plus(a), a);
    assert!(b.le(a));
    assert!(b.lt(a));
    assert!(!a.lt(a));
    assert!(a.le(Distance::Infinity));
    assert!(!Distance::Infinity.le(a));
    assert_eq!(a.in_meter(), Some(7));
    assert_eq!(Distance::Infinity.in_meter(), None);
}

#[test]
fn durations_add_up_to_infinity() {
    let a = Duration::from_seconds(90);
    assert_eq!(a.plus(Duration::from_seconds(10)), Duration::from_seconds(100));
    assert_eq!(a.plus(Duration::Infinity), Duration::Infinity);
    assert_eq!(Duration::from_seconds(u64::MAX).plus(a), Duration::Infinity);
    assert_eq!(Duration::zero().in_sec(), Some(0));
    assert_eq!(Duration::Infinity.in_sec(), None);
    assert!(a.le(Duration::Infinity));
    assert!(!Duration::Infinity.le(a));
}

#[test]
fn time_runs_from_the_earliest_to_the_latest_point() {
    let t = DateTime::from_seconds(1000);
    assert_eq!(t.plus(Duration::from_seconds(5)), DateTime::from_seconds(1005));
    assert_eq!(t.plus(Duration::Infinity), DateTime::Latest);
    assert_eq!(DateTime::from_seconds(u64::MAX).plus(Duration::from_seconds(1)), DateTime::Latest);
    assert_eq!(DateTime::Earliest.plus(Duration::from_seconds(5)), DateTime::Earliest);
    assert_eq!(DateTime::Earliest.plus(Duration::Infinity), DateTime::Earliest);
    assert_eq!(DateTime::Latest.plus(Duration::zero()), DateTime::Latest);
    assert!(DateTime::Earliest.lt(t));
    assert!(t.lt(DateTime::Latest));
    assert!(t.le(t));
    assert!(!t.lt(t));
    assert!(!DateTime::Latest.le(t));
}

#[test]
fn timetable_times_are_read_as_seconds() {
    assert_eq!(parse_iso(b"1970-01-01T00:00:00"), Some(DateTime::from_seconds(0)));
    assert_eq!(parse_iso(b"1970-01-02T00:00"), Some(DateTime::from_seconds(86_400)));
    assert_eq!(parse_iso(b"2000-03-01T12:30:15"), Some(DateTime::from_seconds(951_913_815)));
    assert_eq!(parse_iso(b"2024-02-29T08:00:00Z"), Some(DateTime::from_seconds(1_709_193_600)));
    assert_eq!(parse_iso(b"2023-02-29T08:00:00"), None);
    assert_eq!(parse_iso(b"2024-13-01T08:00:00"), None);
    assert_eq!(parse_iso(b"2024-01-01T24:00:00"), None);
    assert_eq!(parse_iso(b"2024-01-01 08:00:00"), None);
    assert_eq!(parse_iso(b"1969-12-31T23:59:59"), None);
    assert_eq!(parse_iso(b"2024-01-01T08:0"), None);
    assert_eq!(parse_iso(b""), None);
    assert_eq!(parse_iso(b"2o24-01-01T08:00:00"), None);
}

fn small(id: u16, seats: u32, capacity: u32, length: u32) -> VehicleType {
    VehicleType::new(VehicleTypeIdx(id), format!("type{}", id), seats, capacity, length)
}

#[test]
fn vehicle_types_come_in_the_order_of_their_seats() {
    let types = VehicleTypes::new(vec![small(0, 100, 150, 75), small(1, 50, 80, 50), small(2, 50, 70, 50), small(3, 50, 70, 50)]);
    assert_eq!(
        types.iter(),
        &vec![VehicleTypeIdx(2), VehicleTypeIdx(3), VehicleTypeIdx(1), VehicleTypeIdx(0)]
    );
    assert_eq!(types.best_for(0), VehicleTypeIdx(2));
    assert_eq!(types.best_for(50), VehicleTypeIdx(2));
    assert_eq!(types.best_for(51), VehicleTypeIdx(0));
    assert_eq!(types.best_for(100), VehicleTypeIdx(0));
    assert_eq!(types.best_for(101), VehicleTypeIdx(0));
    let t = types.get(VehicleTypeIdx(1)).unwrap();
    assert_eq!(t.id(), VehicleTypeIdx(1));
    assert_eq!(t.name(), "type1");
    assert_eq!(t.seats(), 50);
    assert_eq!(t.capacity(), 80);
    assert_eq!(t.length(), 50);
    assert!(types.get(VehicleTypeIdx(9)).is_none());
    assert!(small(2, 50, 70, 50).before(&small(3, 50, 70, 50)));
    assert!(!small(3, 50, 70, 50).before(&small(3, 50, 70, 50)));
}

#[test]
fn a_later_type_replaces_an_earlier_one_with_its_id() {
    let types = VehicleTypes::new(vec![small(0, 100, 150, 75), small(1, 50, 80, 50), small(0, 10, 15, 7)]);
    assert_eq!(types.iter(), &vec![VehicleTypeIdx(0), VehicleTypeIdx(1)]);
    assert_eq!(types.get(VehicleTypeIdx(0)).unwrap().seats(), 10);
}

#[test]
fn a_depot_has_room_for_the_types_it_allows() {
    let mut allowed = HashMap::new();
    allowed.insert(0u16, Some(3u32));
    allowed.insert(1u16, Some(9u32));
    allowed.insert(2u16, None);
    let depot = Depot::new(DepotIdx(4), Location::of(LocationIdx(7)), 5, allowed);
    assert_eq!(depot.depot_id(), DepotIdx(4));
    assert_eq!(depot.location(), Location::of(LocationIdx(7)));
    assert_eq!(depot.total_capacity(), 5);
    assert_eq!(depot.capacity_for(VehicleTypeIdx(0)), 3);
    assert_eq!(depot.capacity_for(VehicleTypeIdx(1)), 5);
    assert_eq!(depot.capacity_for(VehicleTypeIdx(2)), 5);
    assert_eq!(depot.capacity_for(VehicleTypeIdx(3)), 0);
}

fn two_stations() -> Locations {
    let mut stations = HashSet::new();
    stations.insert(0u16);
    stations.insert(1u16);
    let mut table: HashMap<u16, HashMap<u16, DeadHeadTrip>> = HashMap::new();
    for a in [0u16, 1] {
        let mut row = HashMap::new();
        for b in [0u16, 1] {
            let (d, t) = if a == b { (0, 0) } else { (10_000, 600) };
            row.insert(
                b,
                DeadHeadTrip::new(Distance::from_meter(d), Duration::from_seconds(t), StationSide::Back, StationSide::Front),
            );
        }
        table.insert(a, row);
    }
    Locations::new(stations, table)
}

#[test]
fn locations_know_their_dead_head_trips() {
    let l = two_stations();
    let a = l.get_location(LocationIdx(0));
    let b = l.get_location(LocationIdx(1));
    assert_eq!(a, Location::Station(LocationIdx(0)));
    assert_eq!(a.as_station(), LocationIdx(0));
    assert!(l.is_station(LocationIdx(1)));
    assert!(!l.is_station(LocationIdx(2)));
    assert_eq!(l.distance(a, b), Distance::from_meter(10_000));
    assert_eq!(l.distance(a, a), Distance::zero());
    assert_eq!(l.travel_time(b, a), Duration::from_seconds(600));
    assert_eq!(l.distance(a, Location::Nowhere), Distance::Infinity);
    assert_eq!(l.travel_time(Location::Nowhere, b), Duration::Infinity);
    assert_eq!(l.station_sides(a, b), (StationSide::Back, StationSide::Front));
    assert_eq!(l.station_sides(a, Location::Nowhere), (StationSide::Front, StationSide::Back));
    assert!(l.get_dead_head_trip(a, b).is_some());
    assert!(l.get_dead_head_trip(Location::Nowhere, b).is_none());
    assert!(l.knows(a, b));
    assert!(!l.knows(a, Location::of(LocationIdx(5))));
    assert!(l.knows(a, Location::Nowhere));
}

fn config(shunting: u64, setting_out: u64) -> Arc<Config> {
    Arc::new(Config::new(
        Duration::from_seconds(shunting),
        Duration::from_seconds(setting_out),
        Distance::from_meter(400),
    ))
}

fn depot_at(id: u16, station: u16) -> Depot {
    let mut allowed = HashMap::new();
    allowed.insert(0u16, Some(2u32));
    Depot::new(DepotIdx(id), Location::of(LocationIdx(station)), 2, allowed)
}

fn trip(from: u16, to: u16, dep: u64, arr: u64) -> ServiceTrip {
    ServiceTrip::new(
        Location::of(LocationIdx(from)),
        Location::of(LocationIdx(to)),
        DateTime::from_seconds(dep),
        DateTime::from_seconds(arr),
        Distance::from_meter(1000),
        9,
        String::from("t"),
    )
}

#[test]
fn a_network_is_not_built_from_faulty_parts() {
    let build = |depots: Vec<Depot>, trips: Vec<ServiceTrip>, slots: Vec<MaintenanceSlot>| {
        Network::new(depots, trips, slots, config(0, 0), Arc::new(two_stations())).err()
    };
    assert_eq!(build(vec![depot_at(0, 0)], vec![trip(0, 1, 10, 20)], vec![]), None);
    assert_eq!(build(vec![depot_at(1, 0)], vec![], vec![]), Some(InvalidInput::BadDepot(0)));
    assert_eq!(build(vec![depot_at(0, 0), depot_at(1, 7)], vec![], vec![]), Some(InvalidInput::BadDepot(1)));
    assert_eq!(
        build(vec![depot_at(0, 0)], vec![trip(0, 1, 10, 20), trip(0, 1, 20, 20)], vec![]),
        Some(InvalidInput::BadServiceTrip(1))
    );
    assert_eq!(
        build(vec![depot_at(0, 0)], vec![trip(0, 3, 10, 20)], vec![]),
        Some(InvalidInput::BadServiceTrip(0))
    );
    let slot = MaintenanceSlot {
        location: Location::Nowhere,
        start: DateTime::from_seconds(1),
        end: DateTime::from_seconds(2),
        distance_budget: 5,
    };
    assert_eq!(build(vec![depot_at(0, 0)], vec![], vec![slot]), Some(InvalidInput::BadMaintenanceSlot(0)));
    // a station in use without its dead-head trips
    let mut stations = HashSet::new();
    stations.insert(0u16);
    stations.insert(1u16);
    let mut table: HashMap<u16, HashMap<u16, DeadHeadTrip>> = HashMap::new();
    let mut row = HashMap::new();
    row.insert(0u16, DeadHeadTrip::new(Distance::zero(), Duration::zero(), StationSide::Back, StationSide::Front));
    table.insert(0u16, row);
    let holes = Locations::new(stations, table);
    assert_eq!(
        Network::new(vec![depot_at(0, 0)], vec![trip(0, 1, 10, 20)], vec![], config(0, 0), Arc::new(holes)).err(),
        Some(InvalidInput::MissingDeadHeadTrip)
    );
}

#[test]
fn a_node_reaches_what_a_vehicle_can_be_in_time_for() {
    let network = Network::new(
        vec![depot_at(0, 0)],
        vec![trip(0, 1, 1000, 2000), trip(1, 0, 2300, 3000), trip(0, 1, 3500, 4000), trip(1, 0, 5000, 6000)],
        vec![],
        config(300, 100),
        Arc::new(two_stations()),
    )
    .unwrap();
    let s = |i: u16| NodeIdx::Service(i);
    // at one station: the shunting time of 300
    assert!(network.can_reach(s(0), s(1)));
    assert!(network.can_reach(s(1), s(2)));
    assert_eq!(network.minimal_duration_between_nodes(s(0), s(1)), Duration::from_seconds(300));
    // between stations: 600 to travel and 100 to set out
    assert_eq!(network.minimal_duration_between_nodes(s(0), s(2)), Duration::from_seconds(700));
    assert!(network.can_reach(s(0), s(2)));
    assert!(!network.can_reach(s(2), s(0)));
    assert!(!network.can_reach(s(0), s(0)));
    // exactly in time, and a second late
    assert!(network.can_reach(s(2), s(3)));
    let late = Network::new(
        vec![depot_at(0, 0)],
        vec![trip(0, 1, 1000, 2000), trip(1, 0, 2299, 3000)],
        vec![],
        config(300, 100),
        Arc::new(two_stations()),
    )
    .unwrap();
    assert!(!late.can_reach(s(0), s(1)));
    // depots
    assert!(network.can_reach(NodeIdx::StartDepot(0), s(3)));
    assert!(network.can_reach(s(3), NodeIdx::EndDepot(0)));
    assert!(network.can_reach(NodeIdx::StartDepot(0), NodeIdx::EndDepot(0)));
    assert!(!network.can_reach(NodeIdx::EndDepot(0), s(0)));
    assert!(!network.can_reach(s(0), NodeIdx::StartDepot(0)));
    assert_eq!(
        network.minimal_duration_between_nodes(NodeIdx::StartDepot(0), s(0)),
        Duration::from_seconds(0)
    );
    assert_eq!(network.size(), 6);
    assert_eq!(network.number_of_service_nodes(), 4);
    assert_eq!(network.service_nodes(), vec![s(0), s(1), s(2), s(3)]);
    assert_eq!(network.coverable_nodes(), vec![s(0), s(1), s(2), s(3)]);
    assert_eq!(network.start_time(s(0)), DateTime::from_seconds(1000));
    assert_eq!(network.end_time(s(0)), DateTime::from_seconds(2000));
    assert_eq!(network.start_time(NodeIdx::StartDepot(0)), DateTime::Earliest);
    assert_eq!(network.end_time(NodeIdx::EndDepot(0)), DateTime::Latest);
    assert_eq!(network.demand(s(0)), 9);
    assert_eq!(network.demand(NodeIdx::EndDepot(0)), 0);
    assert_eq!(network.travel_distance(s(1)), Distance::from_meter(1000));
    assert_eq!(network.dead_head_distance_between(s(0), s(2)), Distance::from_meter(10_000));
    assert_eq!(network.start_location(s(1)), Location::of(LocationIdx(1)));
    assert_eq!(network.end_location(s(1)), Location::of(LocationIdx(0)));
    assert_eq!(network.get_depot_id(NodeIdx::EndDepot(0)), DepotIdx(0));
    assert_eq!(network.capacity_of(DepotIdx(0), VehicleTypeIdx(0)), 2);
    assert_eq!(network.capacity_of(DepotIdx(0), VehicleTypeIdx(1)), 0);
    assert_eq!(network.capacity_of(DepotIdx(3), VehicleTypeIdx(0)), 0);
    assert!(network.has_node(s(3)));
    assert!(!network.has_node(s(4)));
    assert_eq!(network.name_of(s(0)).unwrap(), "t");
}
