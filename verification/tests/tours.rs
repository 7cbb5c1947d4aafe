use rolling_stock::base_types::{DepotIdx, Location, LocationIdx, NodeIdx, StationSide, VehicleIdx, VehicleTypeIdx};
use rolling_stock::chain::TourError;
use rolling_stock::config::Config;
use rolling_stock::depot::Depot;
use rolling_stock::distance::Distance;
use rolling_stock::locations::{DeadHeadTrip, Locations};
use rolling_stock::network::{MaintenanceSlot, Network, ServiceTrip};
use rolling_stock::path::Path;
use rolling_stock::segment::Segment;
use rolling_stock::time::{DateTime, Duration};
use rolling_stock::tour::Tour;
use rolling_stock::train_formation::{NotInFormation, TrainFormation, Vehicle};
use rolling_stock::vehicle_types::{VehicleType, VehicleTypes};
use std::collections::{HashMap, HashSet};
use std::sync::Arc;

const A: u16 = 0;
const B: u16 = 1;
const C: u16 = 2;

fn hm(h: u64, m: u64) -> DateTime {
    DateTime::from_seconds(h * 3600 + m * 60)
}

fn station(s: u16) -> Location {
    Location::of(LocationIdx(s))
}

fn stations() -> Locations {
    let mut set = HashSet::new();
    let mut table: HashMap<u16, HashMap<u16, DeadHeadTrip>> = HashMap::new();
    for a in [A, B, C] {
        set.insert(a);
        let mut row = HashMap::new();
        for b in [A, B, C] {
            let (d, t) = if a == b { (0, 0) } else { (10_000, 600) };
            row.insert(
                b,
                DeadHeadTrip::new(Distance::from_meter(d), Duration::from_seconds(t), StationSide::Back, StationSide::Front),
            );
        }
        table.insert(a, row);
    }
    Locations::new(set, table)
}

fn trip(from: u16, to: u16, dep: DateTime, arr: DateTime) -> ServiceTrip {
    ServiceTrip::new(station(from), station(to), dep, arr, Distance::from_meter(50_000), 5, String::from("trip"))
}

const S0: NodeIdx = NodeIdx::Service(0);
const S1: NodeIdx = NodeIdx::Service(1);
const S2: NodeIdx = NodeIdx::Service(2);
const S3: NodeIdx = NodeIdx::Service(3);
const S4: NodeIdx = NodeIdx::Service(4);
const M0: NodeIdx = NodeIdx::Maintenance(0);
const SD: NodeIdx = NodeIdx::StartDepot(0);
const ED: NodeIdx = NodeIdx::EndDepot(0);

/// S0 A-B 8:00, S1 B-C 9:15, S2 C-B 10:30, S3 C-A 6:00, S4 B-C 9:00, which
/// overlaps S1, and a maintenance slot at B from 12:00 to 13:00.
fn network() -> Network {
    let config = Arc::new(Config::new(
        Duration::from_seconds(0),
        Duration::from_seconds(0),
        Distance::from_meter(400),
    ));
    let mut allowed = HashMap::new();
    allowed.insert(0u16, Some(5u32));
    let depots = vec![
        Depot::new(DepotIdx(0), station(A), 5, allowed.clone()),
        Depot::new(DepotIdx(1), station(C), 5, allowed),
    ];
    let trips = vec![
        trip(A, B, hm(8, 0), hm(9, 0)),
        trip(B, C, hm(9, 15), hm(10, 15)),
        trip(C, B, hm(10, 30), hm(11, 30)),
        trip(C, A, hm(6, 0), hm(7, 0)),
        trip(B, C, hm(9, 0), hm(10, 0)),
    ];
    let slots = vec![MaintenanceSlot { location: station(B), start: hm(12, 0), end: hm(13, 0), distance_budget: 200_000 }];
    Network::new(depots, trips, slots, config, Arc::new(stations())).unwrap()
}

#[test]
fn a_tour_leads_from_depot_to_depot() {
    let nw = network();
    let tour = Tour::new(vec![SD, S0, S1, S2, ED], &nw).unwrap();
    assert!(!tour.is_dummy());
    assert_eq!(tour.len(), 5);
    assert_eq!(tour.start_depot(), Some(SD));
    assert_eq!(tour.end_depot(), Some(ED));
    assert_eq!(tour.first_non_depot(&nw), Some(S0));
    assert_eq!(tour.last_non_depot(&nw), Some(S2));
    assert_eq!(tour.nth_node(2), Some(S1));
    assert_eq!(tour.nth_node(5), None);
    assert_eq!(tour.first_node(), SD);
    assert_eq!(tour.last_node(), ED);
    assert_eq!(tour.position_of(S2), Some(3));
    assert_eq!(tour.position_of(S4), None);
    assert!(tour.is_valid(&nw));
    assert_eq!(Tour::new(vec![S0, S1, ED], &nw).err(), Some(TourError::BadDepotStructure));
    assert_eq!(Tour::new(vec![SD, S0, S1], &nw).err(), Some(TourError::BadDepotStructure));
    assert_eq!(Tour::new(vec![SD, ED], &nw).err(), Some(TourError::BadDepotStructure));
    assert_eq!(Tour::new(vec![SD, S0, ED, S1, ED], &nw).err(), Some(TourError::BadDepotStructure));
    assert_eq!(Tour::new(vec![SD, S1, S0, ED], &nw).err(), Some(TourError::NotReachable(S1, S0)));
    assert_eq!(Tour::new(vec![SD, S4, S1, ED], &nw).err(), Some(TourError::NotReachable(S4, S1)));
    assert_eq!(
        Tour::new(vec![SD, NodeIdx::Service(9), ED], &nw).err(),
        Some(TourError::UnknownNode(NodeIdx::Service(9)))
    );
    let dummy = Tour::new_dummy(vec![S0, S1], &nw).unwrap();
    assert!(dummy.is_dummy());
    assert_eq!(dummy.start_depot(), None);
    assert_eq!(dummy.first_non_depot(&nw), Some(S0));
    assert_eq!(Tour::new_dummy(vec![SD, S0], &nw).err(), Some(TourError::BadDepotStructure));
    assert_eq!(Tour::new_dummy(vec![], &nw).err(), Some(TourError::BadDepotStructure));
}

#[test]
fn the_first_node_behind_which_none_reaches_is_found() {
    let nw = network();
    let tour = Tour::new(vec![SD, S3, S0, S1, S2, ED], &nw).unwrap();
    // S4 departs at B at 9:00: the depot, S3 and S0 reach it, S1 does not
    assert_eq!(tour.latest_node_reaching(S4, &nw), Some(2));
    assert_eq!(tour.latest_not_reaching_node(S4, &nw), Some(3));
    // nothing but the depot reaches S3, the earliest trip
    assert_eq!(tour.latest_node_reaching(S3, &nw), Some(0));
    assert_eq!(tour.latest_not_reaching_node(S3, &nw), Some(1));
    // everything but the end depot reaches the slot
    assert_eq!(tour.latest_not_reaching_node(M0, &nw), Some(5));
    // every node of a dummy's tour reaches the slot
    let dummy = Tour::new_dummy(vec![S0, S1], &nw).unwrap();
    assert_eq!(dummy.latest_not_reaching_node(M0, &nw), None);
    assert_eq!(dummy.latest_node_reaching(S3, &nw), None);
    assert_eq!(dummy.latest_not_reaching_node(S3, &nw), Some(0));
    assert_eq!(tour.latest_arrival_before(S4, &nw), 3);
    assert_eq!(tour.earliest_node_reached_by(S4, 0, &nw), 4);
    assert_eq!(tour.earliest_node_reached_by(S4, 5, &nw), 5);
    assert_eq!(tour.earliest_node_reached_by(ED, 0, &nw), 6);
    // the depot, S3, S0 and S1 start before S4 has arrived at 10:00
    assert_eq!(tour.earliest_departure_after(S4, &nw), 4);
    assert_eq!(tour.earliest_departure_after(S3, &nw), 2);
    assert_eq!(tour.earliest_departure_after(SD, &nw), 0);
    assert_eq!(tour.earliest_departure_after(ED, &nw), 5);
}

#[test]
fn a_path_goes_into_a_tour_and_what_is_in_its_way_comes_out() {
    let nw = network();
    let tour = Tour::new(vec![SD, S0, S1, S2, ED], &nw).unwrap();
    let (grown, replaced) = tour.insert_path(Path::new(vec![S3], &nw).unwrap().unwrap(), &nw).unwrap();
    assert_eq!(grown.all_nodes_iter(), &vec![SD, S3, S0, S1, S2, ED]);
    assert!(replaced.is_none());
    let (grown, replaced) = tour.insert_path(Path::new(vec![S4], &nw).unwrap().unwrap(), &nw).unwrap();
    assert_eq!(grown.all_nodes_iter(), &vec![SD, S0, S4, S2, ED]);
    assert_eq!(replaced.unwrap().iter(), &vec![S1]);
    assert!(tour.conflict(Segment::new(S3, S3), &nw).is_none());
    assert_eq!(tour.conflict(Segment::new(S4, S4), &nw).unwrap().iter(), &vec![S1]);
    assert_eq!(tour.conflict(Segment::new(S3, S4), &nw).unwrap().iter(), &vec![S0, S1]);
    assert_eq!(tour.positions_for(S4, S4, &nw), (2, 3));
    // a path with its own depots replaces the depots of the tour
    let path = Path::new(vec![NodeIdx::StartDepot(1), S3], &nw).unwrap().unwrap();
    let (grown, replaced) = tour.insert_path(path, &nw).unwrap();
    assert_eq!(grown.all_nodes_iter(), &vec![NodeIdx::StartDepot(1), S3, S0, S1, S2, ED]);
    assert!(replaced.is_none());
    // what comes out must be a tour
    let dummy = Tour::new_dummy(vec![S0], &nw).unwrap();
    let path = Path::new(vec![NodeIdx::StartDepot(1), S3], &nw).unwrap().unwrap();
    assert_eq!(dummy.insert_path(path, &nw).err(), Some(TourError::BadDepotStructure));
    let (grown, _) = dummy.insert_path(Path::new(vec![S1, S2], &nw).unwrap().unwrap(), &nw).unwrap();
    assert_eq!(grown.all_nodes_iter(), &vec![S0, S1, S2]);
    assert!(grown.is_dummy());
}

#[test]
fn a_segment_comes_out_of_a_tour() {
    let nw = network();
    let tour = Tour::new(vec![SD, S0, S1, S2, ED], &nw).unwrap();
    let (rest, taken) = tour.remove(Segment::new(S1, S1), &nw).unwrap();
    assert_eq!(rest.unwrap().all_nodes_iter(), &vec![SD, S0, S2, ED]);
    assert_eq!(taken.iter(), &vec![S1]);
    let (rest, taken) = tour.remove(Segment::new(S0, S2), &nw).unwrap();
    assert!(rest.is_none());
    assert_eq!(taken.iter(), &vec![S0, S1, S2]);
    assert_eq!(tour.remove(Segment::new(S2, S1), &nw).err(), Some(TourError::SegmentNotInTour));
    assert_eq!(tour.remove(Segment::new(S3, S3), &nw).err(), Some(TourError::SegmentNotInTour));
    assert_eq!(tour.remove(Segment::new(SD, S0), &nw).err(), Some(TourError::BadDepotStructure));
    assert_eq!(tour.check_removable(Segment::new(S1, S2), &nw), Ok(()));
    assert_eq!(tour.check_removable(Segment::new(S1, ED), &nw).err(), Some(TourError::BadDepotStructure));
    assert_eq!(tour.range_of(Segment::new(S0, S1)), Some((1, 2)));
    assert_eq!(tour.sub_path(Segment::new(S0, S1), &nw).unwrap().iter(), &vec![S0, S1]);
    assert_eq!(tour.sub_path(Segment::new(SD, SD), &nw).err(), Some(TourError::BadDepotStructure));
    assert_eq!(tour.sub_path(Segment::new(S4, S4), &nw).err(), Some(TourError::SegmentNotInTour));
    // the tour closes over the gap only if its nodes reach each other
    let dummy = Tour::new_dummy(vec![S3, S0, S4], &nw).unwrap();
    let (rest, _) = dummy.remove(Segment::new(S0, S0), &nw).unwrap();
    assert_eq!(rest.unwrap().all_nodes_iter(), &vec![S3, S4]);
    let (rest, _) = dummy.remove(Segment::new(S3, S4), &nw).unwrap();
    assert!(rest.is_none());
    assert_eq!(Segment::new(S0, S1).start(), S0);
    assert_eq!(Segment::new(S0, S1).end(), S1);
}

#[test]
fn the_depots_of_a_tour_are_replaced() {
    let nw = network();
    let tour = Tour::new(vec![SD, S0, ED], &nw).unwrap();
    let moved = tour.replace_start_depot(NodeIdx::StartDepot(1), &nw).unwrap();
    assert_eq!(moved.all_nodes_iter(), &vec![NodeIdx::StartDepot(1), S0, ED]);
    let moved = moved.replace_end_depot(NodeIdx::EndDepot(1), &nw).unwrap();
    assert_eq!(moved.all_nodes_iter(), &vec![NodeIdx::StartDepot(1), S0, NodeIdx::EndDepot(1)]);
    assert_eq!(tour.replace_start_depot(ED, &nw).err(), Some(TourError::BadDepotStructure));
    assert_eq!(tour.replace_end_depot(SD, &nw).err(), Some(TourError::BadDepotStructure));
    assert_eq!(
        tour.replace_start_depot(NodeIdx::StartDepot(4), &nw).err(),
        Some(TourError::UnknownNode(NodeIdx::StartDepot(4)))
    );
    let dummy = Tour::new_dummy(vec![S0], &nw).unwrap();
    assert_eq!(dummy.replace_start_depot(SD, &nw).err(), Some(TourError::BadDepotStructure));
}

#[test]
fn a_tour_adds_up_its_distances() {
    let nw = network();
    let tour = Tour::new(vec![SD, S0, S1, S2, ED], &nw).unwrap();
    // only the way back from B to the depot at A is run empty
    assert_eq!(tour.dead_head_distance(&nw), Distance::from_meter(10_000));
    assert_eq!(tour.total_distance(&nw), Distance::from_meter(160_000));
    assert_eq!(tour.maintenance_counter(&nw), 160_000);
    let maintained = Tour::new(vec![SD, S0, S1, S2, M0, ED], &nw).unwrap();
    assert_eq!(maintained.maintenance_counter(&nw), -40_000);
    let moved = Tour::new(vec![NodeIdx::StartDepot(1), S0, NodeIdx::EndDepot(1)], &nw).unwrap();
    assert_eq!(moved.dead_head_distance(&nw), Distance::from_meter(20_000));
}

#[test]
fn a_path_is_a_chain_that_covers_something() {
    let nw = network();
    let path = Path::new(vec![S0, S1, S2], &nw).unwrap().unwrap();
    assert_eq!(path.length(), 3);
    assert_eq!(path.first(), S0);
    assert_eq!(path.last(), S2);
    assert_eq!(path.iter(), &vec![S0, S1, S2]);
    assert_eq!(path.drop_first(&nw).unwrap().iter(), &vec![S1, S2]);
    assert_eq!(path.drop_last(&nw).unwrap().iter(), &vec![S0, S1]);
    assert_eq!(path.clone().consume(), vec![S0, S1, S2]);
    assert!(Path::new(vec![SD, ED], &nw).unwrap().is_none());
    assert!(Path::new(vec![], &nw).unwrap().is_none());
    assert_eq!(Path::new(vec![S1, S0], &nw).err(), Some(TourError::NotReachable(S1, S0)));
    assert_eq!(Path::new(vec![S0, SD], &nw).err(), Some(TourError::NotReachable(S0, SD)));
    assert_eq!(
        Path::new(vec![S0, NodeIdx::Maintenance(3)], &nw).err(),
        Some(TourError::UnknownNode(NodeIdx::Maintenance(3)))
    );
    let single = Path::new_from_single_node(S4, &nw);
    assert_eq!(single.iter(), &vec![S4]);
    assert!(single.drop_first(&nw).is_none());
    let with_depot = Path::new(vec![SD, S0], &nw).unwrap().unwrap();
    assert!(with_depot.drop_last(&nw).is_none());
    let dummy = Tour::new_dummy_by_path(Path::new(vec![SD, S0, S1, ED], &nw).unwrap().unwrap(), &nw);
    assert_eq!(dummy.all_nodes_iter(), &vec![S0, S1]);
}

fn vehicle(n: u16, seats: u32) -> Vehicle {
    Vehicle { id: VehicleIdx::Vehicle(n), type_id: VehicleTypeIdx(0), seats, capacity: 2 * seats }
}

#[test]
fn a_formation_keeps_its_vehicles_in_order() {
    let f = TrainFormation::empty().add_at_tail(vehicle(1, 10)).add_at_tail(vehicle(2, 20)).add_at_tail(vehicle(3, 30));
    assert_eq!(f.ids(), vec![VehicleIdx::Vehicle(1), VehicleIdx::Vehicle(2), VehicleIdx::Vehicle(3)]);
    assert_eq!(f.seats(), 60);
    assert_eq!(f.capacity(), 120);
    assert_eq!(f.len(), 3);
    assert_eq!(f.position(VehicleIdx::Vehicle(2)), Some(1));
    assert_eq!(f.position(VehicleIdx::Dummy(2)), None);
    let g = f.remove(VehicleIdx::Vehicle(2)).unwrap();
    assert_eq!(g.ids(), vec![VehicleIdx::Vehicle(1), VehicleIdx::Vehicle(3)]);
    let h = f.replace(VehicleIdx::Vehicle(2), vehicle(7, 5)).unwrap();
    assert_eq!(h.ids(), vec![VehicleIdx::Vehicle(1), VehicleIdx::Vehicle(7), VehicleIdx::Vehicle(3)]);
    assert_eq!(h.seats(), 45);
    assert_eq!(f.remove(VehicleIdx::Vehicle(9)).err(), Some(NotInFormation(VehicleIdx::Vehicle(9))));
    assert_eq!(
        f.replace(VehicleIdx::Vehicle(9), vehicle(7, 5)).err(),
        Some(NotInFormation(VehicleIdx::Vehicle(9)))
    );
    // nothing keeps a vehicle from standing in a formation twice; the first goes first
    let twice = f.add_at_tail(vehicle(1, 10));
    assert_eq!(twice.remove(VehicleIdx::Vehicle(1)).unwrap().ids(), vec![
        VehicleIdx::Vehicle(2),
        VehicleIdx::Vehicle(3),
        VehicleIdx::Vehicle(1),
    ]);
    let full = TrainFormation::new(vec![vehicle(1, u32::MAX), vehicle(2, 7)]);
    assert_eq!(full.seats(), u32::MAX);
    assert_eq!(f.iter()[0], vehicle(1, 10));
    let types = VehicleTypes::new(vec![VehicleType::new(VehicleTypeIdx(0), String::from("T"), 11, 22, 3)]);
    let v = Vehicle::new(VehicleIdx::Vehicle(4), VehicleTypeIdx(0), &types).unwrap();
    assert_eq!((v.id(), v.type_id(), v.seats(), v.capacity()), (VehicleIdx::Vehicle(4), VehicleTypeIdx(0), 11, 22));
    assert!(Vehicle::new(VehicleIdx::Vehicle(4), VehicleTypeIdx(1), &types).is_none());
}
