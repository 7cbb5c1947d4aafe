use rolling_stock::base_types::{DepotIdx, Location, LocationIdx, NodeIdx, StationSide, VehicleIdx, VehicleTypeIdx};
use rolling_stock::config::Config;
use rolling_stock::depot::Depot;
use rolling_stock::distance::Distance;
use rolling_stock::locations::{DeadHeadTrip, Locations};
use rolling_stock::network::{Network, ServiceTrip};
use rolling_stock::schedule::{Schedule, ScheduleError};
use rolling_stock::time::{DateTime, Duration};
use rolling_stock::vehicle_types::{VehicleType, VehicleTypes};
use std::collections::{HashMap, HashSet};
use std::sync::Arc;

const A: u16 = 0;
const B: u16 = 1;

fn hm(h: u64, m: u64) -> DateTime {
    DateTime::from_seconds(h * 3600 + m * 60)
}

fn two_stations() -> Locations {
    let mut stations = HashSet::new();
    stations.insert(A);
    stations.insert(B);
    let mut table: HashMap<u16, HashMap<u16, DeadHeadTrip>> = HashMap::new();
    for a in [A, B] {
        let mut row = HashMap::new();
        for b in [A, B] {
            let (d, t) = if a == b { (0, 0) } else { (10_000, 600) };
            row.insert(
                b,
                DeadHeadTrip::new(
                    Distance::from_meter(d),
                    Duration::from_seconds(t),
                    StationSide::Back,
                    StationSide::Front,
                ),
            );
        }
        table.insert(a, row);
    }
    Locations::new(stations, table)
}

fn station(s: u16) -> Location {
    Location::of(LocationIdx(s))
}

fn out_and_back(depot_capacity: u32) -> (Arc<VehicleTypes>, Arc<Network>, Arc<Config>) {
    let config = Arc::new(Config::new(
        Duration::from_seconds(0),
        Duration::from_seconds(0),
        Distance::from_meter(400),
    ));
    let mut allowed = HashMap::new();
    allowed.insert(0u16, Some(depot_capacity));
    let depots = vec![Depot::new(DepotIdx(0), station(A), depot_capacity, allowed)];
    let trips = vec![
        ServiceTrip::new(station(A), station(B), hm(8, 0), hm(9, 0), Distance::from_meter(50_000), 40, String::from("s1")),
        ServiceTrip::new(station(B), station(A), hm(9, 30), hm(10, 30), Distance::from_meter(50_000), 40, String::from("s2")),
    ];
    let network = Network::new(depots, trips, vec![], config.clone(), Arc::new(two_stations())).unwrap();
    let types = VehicleTypes::new(vec![VehicleType::new(VehicleTypeIdx(0), String::from("T"), 50, 80, 100)]);
    (Arc::new(types), Arc::new(network), config)
}

#[test]
fn one_vehicle_serves_out_and_back() {
    let (types, network, config) = out_and_back(1);
    let empty = Schedule::empty(types, network, config);
    assert_eq!(empty.number_of_vehicles(), 0);
    assert_eq!(empty.number_of_unserved_passengers(), 80);
    let s = empty
        .spawn_vehicle_for_path(VehicleTypeIdx(0), vec![NodeIdx::Service(0), NodeIdx::Service(1)])
        .unwrap();
    assert_eq!(s.number_of_vehicles(), 1);
    assert_eq!(s.vehicles_iter(), &vec![VehicleIdx::Vehicle(0)]);
    let tour = s.tour_of(VehicleIdx::Vehicle(0)).unwrap();
    assert_eq!(
        tour.all_nodes_iter(),
        &vec![NodeIdx::StartDepot(0), NodeIdx::Service(0), NodeIdx::Service(1), NodeIdx::EndDepot(0)]
    );
    assert_eq!(s.number_of_unserved_passengers(), 0);
    assert_eq!(s.depot_balance(DepotIdx(0), VehicleTypeIdx(0)), 0);
    assert_eq!(s.total_depot_balance_violation(), 0);
    assert_eq!(s.train_formation_of(NodeIdx::Service(0)).ids(), vec![VehicleIdx::Vehicle(0)]);
    assert_eq!(s.train_formation_of(NodeIdx::Service(1)).seats(), 50);
    assert!(s.is_fully_covered(NodeIdx::Service(0)));
    assert_eq!(s.number_of_vehicles_of_same_type_spawned_at(DepotIdx(0), VehicleTypeIdx(0)), 1);
    // the old schedule is untouched
    assert_eq!(empty.number_of_vehicles(), 0);
    assert_eq!(empty.train_formation_of(NodeIdx::Service(0)).len(), 0);
}

#[test]
fn a_full_depot_spawns_no_vehicle() {
    let (types, network, config) = out_and_back(1);
    let s = Schedule::empty(types, network, config)
        .spawn_vehicle_for_path(VehicleTypeIdx(0), vec![NodeIdx::Service(0)])
        .unwrap();
    let second = s.spawn_vehicle_for_path(VehicleTypeIdx(0), vec![NodeIdx::Service(1)]);
    assert_eq!(second.err(), Some(ScheduleError::NoCapacity(VehicleTypeIdx(0))));
    let (types, network, config) = out_and_back(0);
    let none = Schedule::empty(types, network, config)
        .spawn_vehicle_for_path(VehicleTypeIdx(0), vec![NodeIdx::Service(0)]);
    assert_eq!(none.err(), Some(ScheduleError::NoCapacity(VehicleTypeIdx(0))));
}

#[test]
fn spawn_then_delete_restores_the_schedule() {
    let (types, network, config) = out_and_back(1);
    let empty = Schedule::empty(types, network, config);
    let s = empty
        .spawn_vehicle_for_path(VehicleTypeIdx(0), vec![NodeIdx::Service(0), NodeIdx::Service(1)])
        .unwrap();
    let back = s.delete_vehicle(VehicleIdx::Vehicle(0)).unwrap();
    assert_eq!(back.number_of_vehicles(), 0);
    assert!(back.vehicles_iter().is_empty());
    assert!(!back.is_vehicle(VehicleIdx::Vehicle(0)));
    assert_eq!(back.train_formation_of(NodeIdx::Service(0)).len(), 0);
    assert_eq!(back.train_formation_of(NodeIdx::Service(1)).len(), 0);
    assert_eq!(back.number_of_vehicles_of_same_type_spawned_at(DepotIdx(0), VehicleTypeIdx(0)), 0);
    assert_eq!(back.depot_balance(DepotIdx(0), VehicleTypeIdx(0)), 0);
    assert_eq!(back.number_of_unserved_passengers(), 80);
    // the number of the vehicle is not given out again
    let again = back.spawn_vehicle_for_path(VehicleTypeIdx(0), vec![NodeIdx::Service(0)]).unwrap();
    assert_eq!(again.vehicles_iter(), &vec![VehicleIdx::Vehicle(1)]);
}

#[test]
fn deleting_what_is_no_vehicle_fails() {
    let (types, network, config) = out_and_back(1);
    let empty = Schedule::empty(types, network, config);
    assert_eq!(
        empty.delete_vehicle(VehicleIdx::Vehicle(3)).err(),
        Some(ScheduleError::NotAVehicle(VehicleIdx::Vehicle(3)))
    );
    assert_eq!(
        empty.delete_vehicle(VehicleIdx::Dummy(0)).err(),
        Some(ScheduleError::NotAVehicle(VehicleIdx::Dummy(0)))
    );
    assert_eq!(
        empty.delete_dummy(VehicleIdx::Dummy(0)).err(),
        Some(ScheduleError::NotADummy(VehicleIdx::Dummy(0)))
    );
}

#[test]
fn end_depots_are_reassigned_once_and_for_all() {
    let (types, network, config) = out_and_back(1);
    let s = Schedule::empty(types, network, config)
        .spawn_vehicle_for_path(VehicleTypeIdx(0), vec![NodeIdx::Service(0)])
        .unwrap();
    let once = s.reassign_end_depots_greedily().unwrap();
    let twice = once.reassign_end_depots_greedily().unwrap();
    let a = once.tour_of(VehicleIdx::Vehicle(0)).unwrap().all_nodes_iter().clone();
    let b = twice.tour_of(VehicleIdx::Vehicle(0)).unwrap().all_nodes_iter().clone();
    assert_eq!(a, vec![NodeIdx::StartDepot(0), NodeIdx::Service(0), NodeIdx::EndDepot(0)]);
    assert_eq!(a, b);
    assert_eq!(twice.depot_balance(DepotIdx(0), VehicleTypeIdx(0)), 0);
}
