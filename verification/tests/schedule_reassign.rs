use rolling_stock::base_types::{DepotIdx, Location, LocationIdx, NodeIdx, StationSide, VehicleIdx, VehicleTypeIdx};
use rolling_stock::config::Config;
use rolling_stock::depot::Depot;
use rolling_stock::distance::Distance;
use rolling_stock::locations::{DeadHeadTrip, Locations};
use rolling_stock::network::{Network, ServiceTrip};
use rolling_stock::path::Path;
use rolling_stock::schedule::{Schedule, ScheduleError};
use rolling_stock::segment::Segment;
use rolling_stock::time::{DateTime, Duration};
use rolling_stock::vehicle_types::{VehicleType, VehicleTypes};
use std::collections::{HashMap, HashSet};
use std::sync::Arc;

const A: u16 = 0;
const B: u16 = 1;
const C: u16 = 2;

fn hm(h: u64, m: u64) -> DateTime {
    DateTime::from_seconds(h * 3600 + m * 60)
}

fn station(s: u16) -> Location {
    Location::of(LocationIdx(s))
}

fn three_stations() -> Locations {
    let mut stations = HashSet::new();
    let mut table: HashMap<u16, HashMap<u16, DeadHeadTrip>> = HashMap::new();
    for a in [A, B, C] {
        stations.insert(a);
        let mut row = HashMap::new();
        for b in [A, B, C] {
            let (d, t) = if a == b { (0, 0) } else { (10_000, 600) };
            row.insert(
                b,
                DeadHeadTrip::new(
                    Distance::from_meter(d),
                    Duration::from_seconds(t),
                    StationSide::Back,
                    StationSide::Front,
                ),
            );
        }
        table.insert(a, row);
    }
    Locations::new(stations, table)
}

fn trip(from: u16, to: u16, dep: DateTime, arr: DateTime, name: &str) -> ServiceTrip {
    ServiceTrip::new(station(from), station(to), dep, arr, Distance::from_meter(50_000), 5, String::from(name))
}

const S0: NodeIdx = NodeIdx::Service(0);
const S1: NodeIdx = NodeIdx::Service(1);
const S2: NodeIdx = NodeIdx::Service(2);
const S3: NodeIdx = NodeIdx::Service(3);
const S4: NodeIdx = NodeIdx::Service(4);
const V0: VehicleIdx = VehicleIdx::Vehicle(0);
const V1: VehicleIdx = VehicleIdx::Vehicle(1);
const T: VehicleTypeIdx = VehicleTypeIdx(0);

/// Two depots, at A and at C, and five trips: S0 A-B 8:00, S1 B-C 9:15,
/// S2 C-B 10:30, S3 C-A 6:00 and S4 B-C 9:00, which overlaps S1.
fn instance() -> Schedule {
    let config = Arc::new(Config::new(
        Duration::from_seconds(0),
        Duration::from_seconds(0),
        Distance::from_meter(400),
    ));
    let mut allowed = HashMap::new();
    allowed.insert(0u16, Some(5u32));
    let mut allowed_c = HashMap::new();
    allowed_c.insert(0u16, None);
    let depots = vec![
        Depot::new(DepotIdx(0), station(A), 5, allowed),
        Depot::new(DepotIdx(1), station(C), 5, allowed_c),
    ];
    let trips = vec![
        trip(A, B, hm(8, 0), hm(9, 0), "s0"),
        trip(B, C, hm(9, 15), hm(10, 15), "s1"),
        trip(C, B, hm(10, 30), hm(11, 30), "s2"),
        trip(C, A, hm(6, 0), hm(7, 0), "s3"),
        trip(B, C, hm(9, 0), hm(10, 0), "s4"),
    ];
    let network = Network::new(depots, trips, vec![], config.clone(), Arc::new(three_stations())).unwrap();
    let types = VehicleTypes::new(vec![VehicleType::new(T, String::from("T"), 10, 20, 100)]);
    Schedule::empty(Arc::new(types), Arc::new(network), config)
}

fn nodes_of(s: &Schedule, v: VehicleIdx) -> Vec<NodeIdx> {
    s.tour_of(v).unwrap().all_nodes_iter().clone()
}

fn ids_at(s: &Schedule, n: NodeIdx) -> Vec<VehicleIdx> {
    s.train_formation_of(n).ids()
}

#[test]
fn override_moves_a_segment_without_conflict() {
    let s = instance()
        .spawn_vehicle_for_path(T, vec![S0, S1, S2])
        .unwrap()
        .spawn_vehicle_for_path(T, vec![S3])
        .unwrap();
    assert_eq!(nodes_of(&s, V0), vec![NodeIdx::StartDepot(0), S0, S1, S2, NodeIdx::EndDepot(0)]);
    assert_eq!(nodes_of(&s, V1), vec![NodeIdx::StartDepot(1), S3, NodeIdx::EndDepot(0)]);
    let (r, dummy) = s.override_reassign(Segment::new(S1, S2), V0, V1).unwrap();
    assert_eq!(dummy, None);
    assert_eq!(nodes_of(&r, V0), vec![NodeIdx::StartDepot(0), S0, NodeIdx::EndDepot(0)]);
    assert_eq!(nodes_of(&r, V1), vec![NodeIdx::StartDepot(1), S3, S1, S2, NodeIdx::EndDepot(0)]);
    assert_eq!(ids_at(&r, S0), vec![V0]);
    assert_eq!(ids_at(&r, S1), vec![V1]);
    assert_eq!(ids_at(&r, S2), vec![V1]);
    assert_eq!(ids_at(&r, S3), vec![V1]);
    assert_eq!(r.number_of_dummy_tours(), 0);
    assert_eq!(r.depot_balance(DepotIdx(0), T), -1);
    assert_eq!(r.depot_balance(DepotIdx(1), T), 1);
    assert_eq!(r.total_depot_balance_violation(), 2);
    assert!(r.verify_consistency());
    // the schedule that was changed is as it was
    assert_eq!(ids_at(&s, S1), vec![V0]);
    assert!(s.verify_consistency());
}

#[test]
fn override_turns_what_gives_way_into_a_dummy() {
    let s = instance()
        .spawn_vehicle_for_path(T, vec![S0, S1, S2])
        .unwrap()
        .spawn_vehicle_for_path(T, vec![S3, S4])
        .unwrap();
    let (r, dummy) = s.override_reassign(Segment::new(S1, S1), V0, V1).unwrap();
    assert_eq!(dummy, Some(VehicleIdx::Dummy(2)));
    assert_eq!(nodes_of(&r, V0), vec![NodeIdx::StartDepot(0), S0, S2, NodeIdx::EndDepot(0)]);
    assert_eq!(nodes_of(&r, V1), vec![NodeIdx::StartDepot(1), S3, S1, NodeIdx::EndDepot(1)]);
    assert_eq!(nodes_of(&r, VehicleIdx::Dummy(2)), vec![S4]);
    assert!(r.is_dummy(VehicleIdx::Dummy(2)));
    assert_eq!(r.dummy_iter(), &vec![VehicleIdx::Dummy(2)]);
    assert!(ids_at(&r, S4).is_empty());
    assert_eq!(ids_at(&r, S1), vec![V1]);
    assert_eq!(r.number_of_unserved_passengers(), 5);
    assert!(r.verify_consistency());
    // a vehicle takes the dummy's tour over
    let t = r.spawn_vehicle_to_replace_dummy_tour(VehicleIdx::Dummy(2), T).unwrap();
    assert_eq!(t.number_of_dummy_tours(), 0);
    assert_eq!(
        nodes_of(&t, VehicleIdx::Vehicle(3)),
        vec![NodeIdx::StartDepot(0), S4, NodeIdx::EndDepot(1)]
    );
    assert_eq!(t.number_of_unserved_passengers(), 0);
    assert!(t.verify_consistency());
}

#[test]
fn cautious_reassign_stops_at_a_conflict() {
    let s = instance()
        .spawn_vehicle_for_path(T, vec![S0, S1, S2])
        .unwrap()
        .spawn_vehicle_for_path(T, vec![S3, S4])
        .unwrap();
    assert_eq!(s.cautious_reassign(Segment::new(S1, S1), V0, V1).err(), Some(ScheduleError::Conflict));
    let r = s.cautious_reassign(Segment::new(S2, S2), V0, V1).unwrap();
    assert_eq!(nodes_of(&r, V1), vec![NodeIdx::StartDepot(1), S3, S4, S2, NodeIdx::EndDepot(0)]);
    assert!(r.verify_consistency());
}

#[test]
fn fit_reassign_moves_what_fits() {
    let s = instance()
        .spawn_vehicle_for_path(T, vec![S0, S1, S2])
        .unwrap()
        .spawn_vehicle_for_path(T, vec![S3, S4])
        .unwrap();
    let r = s.fit_reassign(Segment::new(S1, S2), V0, V1).unwrap();
    // S1 overlaps S4 and stays; S2 fits behind S4 and moves
    assert_eq!(nodes_of(&r, V0), vec![NodeIdx::StartDepot(0), S0, S1, NodeIdx::EndDepot(1)]);
    assert_eq!(nodes_of(&r, V1), vec![NodeIdx::StartDepot(1), S3, S4, S2, NodeIdx::EndDepot(0)]);
    assert_eq!(ids_at(&r, S1), vec![V0]);
    assert_eq!(ids_at(&r, S2), vec![V1]);
    assert_eq!(r.number_of_dummy_tours(), 0);
    assert_eq!(r.number_of_unserved_passengers(), 0);
    assert!(r.verify_consistency());
}

#[test]
fn a_provider_left_with_nothing_is_deleted() {
    let s = instance()
        .spawn_vehicle_for_path(T, vec![S1, S2])
        .unwrap()
        .spawn_vehicle_for_path(T, vec![S3])
        .unwrap();
    let r = s.fit_reassign(Segment::new(S1, S2), V0, V1).unwrap();
    assert!(!r.is_vehicle(V0));
    assert_eq!(r.number_of_vehicles(), 1);
    assert_eq!(r.vehicles_iter(), &vec![V1]);
    assert_eq!(nodes_of(&r, V1), vec![NodeIdx::StartDepot(1), S3, S1, S2, NodeIdx::EndDepot(0)]);
    assert_eq!(r.number_of_vehicles_of_same_type_spawned_at(DepotIdx(0), T), 0);
    assert!(r.verify_consistency());
}

#[test]
fn reassigning_fails_for_what_is_not_there() {
    let s = instance().spawn_vehicle_for_path(T, vec![S0, S1]).unwrap();
    assert_eq!(
        s.override_reassign(Segment::new(S0, S0), V0, V0).err(),
        Some(ScheduleError::SameVehicle(V0))
    );
    assert_eq!(
        s.override_reassign(Segment::new(S0, S0), V0, V1).err(),
        Some(ScheduleError::UnknownVehicle(V1))
    );
    assert_eq!(
        s.fit_reassign(Segment::new(S0, S0), VehicleIdx::Dummy(9), V0).err(),
        Some(ScheduleError::UnknownVehicle(VehicleIdx::Dummy(9)))
    );
    let t = s.spawn_vehicle_for_path(T, vec![S3]).unwrap();
    assert!(matches!(
        t.override_reassign(Segment::new(S2, S2), V0, V1).err(),
        Some(ScheduleError::TourInfeasible(_))
    ));
    assert!(matches!(
        t.cautious_reassign(Segment::new(NodeIdx::Service(77), S0), V0, V1).err(),
        Some(ScheduleError::TourInfeasible(_))
    ));
}

#[test]
fn a_path_goes_into_a_tour_at_its_place_in_time() {
    let s = instance().spawn_vehicle_for_path(T, vec![S0, S2]).unwrap();
    let network = s.get_network();
    let path = Path::new(vec![S1], network).unwrap().unwrap();
    let r = s.add_path_to_vehicle_tour(V0, path).unwrap();
    assert_eq!(nodes_of(&r, V0), vec![NodeIdx::StartDepot(0), S0, S1, S2, NodeIdx::EndDepot(0)]);
    assert_eq!(ids_at(&r, S1), vec![V0]);
    assert!(r.verify_consistency());
    // S4 overlaps S1: S1 gives way and is covered no longer
    let path = Path::new(vec![S4], r.get_network()).unwrap().unwrap();
    let q = r.add_path_to_vehicle_tour(V0, path).unwrap();
    assert_eq!(nodes_of(&q, V0), vec![NodeIdx::StartDepot(0), S0, S4, S2, NodeIdx::EndDepot(0)]);
    assert!(ids_at(&q, S1).is_empty());
    assert_eq!(ids_at(&q, S4), vec![V0]);
    assert!(q.verify_consistency());
    let path = Path::new(vec![S1], q.get_network()).unwrap().unwrap();
    assert_eq!(
        q.add_path_to_vehicle_tour(V1, path).err(),
        Some(ScheduleError::NotAVehicle(V1))
    );
}

#[test]
fn two_vehicles_share_a_trip() {
    let s = instance()
        .spawn_vehicle_for_path(T, vec![S0])
        .unwrap()
        .spawn_vehicle_for_path(T, vec![S0, S1])
        .unwrap();
    assert_eq!(ids_at(&s, S0), vec![V0, V1]);
    assert_eq!(s.train_formation_of(S0).seats(), 20);
    assert_eq!(s.train_formation_of(S0).capacity(), 40);
    // V1 hands S0 over to V0, which covers it already
    let (r, dummy) = s.override_reassign(Segment::new(S0, S0), V1, V0).unwrap();
    assert_eq!(ids_at(&r, S0), vec![V0]);
    assert_eq!(dummy, Some(VehicleIdx::Dummy(2)));
    assert_eq!(nodes_of(&r, VehicleIdx::Dummy(2)), vec![S0]);
    assert_eq!(nodes_of(&r, V1), vec![NodeIdx::StartDepot(0), S1, NodeIdx::EndDepot(1)]);
    assert!(r.verify_consistency());
}
