use rolling_stock::base_types::{DepotIdx, Location, LocationIdx, NodeIdx, StationSide, VehicleIdx, VehicleTypeIdx};
use rolling_stock::config::Config;
use rolling_stock::depot::Depot;
use rolling_stock::distance::Distance;
use rolling_stock::first_phase_objective::{build, FirstPhaseIndicator};
use rolling_stock::greedy::Greedy;
use rolling_stock::local_search::{search, LocalImprover, LocalSearchable, Minimizer, TakeFirstRecursion};
use rolling_stock::locations::{DeadHeadTrip, Locations};
use rolling_stock::min_cost_flow_solver::{
    required_vehicles, run_cost, ArcTag, InfeasibleInstance, MinCostFlowSolver, PLENTY, REWARD,
};
use rolling_stock::network::{Network, ServiceTrip};
use rolling_stock::objective::{BaseValue, Indicator};
use rolling_stock::schedule::{Schedule, ScheduleError};
use rolling_stock::segment::Segment;
use rolling_stock::time::{DateTime, Duration};
use rolling_stock::vehicle_types::{VehicleType, VehicleTypes};
use std::collections::{HashMap, HashSet};
use std::sync::Arc;

const A: u16 = 0;
const B: u16 = 1;
const C: u16 = 2;
const T: VehicleTypeIdx = VehicleTypeIdx(0);

fn hm(h: u64, m: u64) -> DateTime {
    DateTime::from_seconds(h * 3600 + m * 60)
}

fn station(s: u16) -> Location {
    Location::of(LocationIdx(s))
}

fn stations() -> Locations {
    let mut set = HashSet::new();
    let mut table: HashMap<u16, HashMap<u16, DeadHeadTrip>> = HashMap::new();
    for a in [A, B, C] {
        set.insert(a);
        let mut row = HashMap::new();
        for b in [A, B, C] {
            let (d, t) = if a == b { (0, 0) } else { (10_000, 600) };
            row.insert(
                b,
                DeadHeadTrip::new(
                    Distance::from_meter(d),
                    Duration::from_seconds(t),
                    StationSide::Back,
                    StationSide::Front,
                ),
            );
        }
        table.insert(a, row);
    }
    Locations::new(set, table)
}

fn trip(from: u16, to: u16, dep: DateTime, arr: DateTime, demand: u32) -> ServiceTrip {
    ServiceTrip::new(station(from), station(to), dep, arr, Distance::from_meter(50_000), demand, String::from("trip"))
}

fn instance(trips: Vec<ServiceTrip>, depot_capacity: u32, seats: u32) -> (Arc<VehicleTypes>, Arc<Network>, Arc<Config>) {
    let config = Arc::new(Config::new(
        Duration::from_seconds(0),
        Duration::from_seconds(0),
        Distance::from_meter(400),
    ));
    let mut allowed = HashMap::new();
    allowed.insert(0u16, Some(depot_capacity));
    let depots = vec![Depot::new(DepotIdx(0), station(A), depot_capacity, allowed)];
    let network = Network::new(depots, trips, vec![], config.clone(), Arc::new(stations())).unwrap();
    let types = VehicleTypes::new(vec![VehicleType::new(T, String::from("T"), seats, seats, 100)]);
    (Arc::new(types), Arc::new(network), config)
}

fn out_and_back() -> Vec<ServiceTrip> {
    vec![trip(A, B, hm(8, 0), hm(9, 0), 40), trip(B, A, hm(9, 30), hm(10, 30), 40)]
}

fn fork() -> Vec<ServiceTrip> {
    vec![
        trip(A, B, hm(8, 0), hm(9, 0), 5),
        trip(B, C, hm(9, 15), hm(10, 15), 5),
        trip(B, C, hm(9, 30), hm(10, 30), 5),
    ]
}

fn nodes_of(s: &Schedule, v: VehicleIdx) -> Vec<NodeIdx> {
    s.tour_of(v).unwrap().all_nodes_iter().clone()
}

#[test]
fn flow_covers_out_and_back_with_one_vehicle() {
    let (types, network, config) = instance(out_and_back(), 1, 50);
    let solver = MinCostFlowSolver::initialize(types, network, config, Arc::new(build()));
    let solution = solver.solve().unwrap();
    let s = solution.solution();
    assert_eq!(s.number_of_vehicles(), 1);
    assert_eq!(
        nodes_of(s, VehicleIdx::Vehicle(0)),
        vec![NodeIdx::StartDepot(0), NodeIdx::Service(0), NodeIdx::Service(1), NodeIdx::EndDepot(0)]
    );
    assert_eq!(s.number_of_unserved_passengers(), 0);
    assert_eq!(s.depot_balance(DepotIdx(0), T), 0);
    assert!(s.verify_consistency());
    assert_eq!(
        solution.objective_value().iter(),
        &vec![
            BaseValue::Integer(0),
            BaseValue::Integer(0),
            BaseValue::Integer(1),
            BaseValue::Integer(0),
            BaseValue::Integer(5_000_000),
        ]
    );
}

#[test]
fn flow_reports_an_instance_without_depot_room_as_infeasible() {
    let (types, network, config) = instance(out_and_back(), 0, 50);
    let solver = MinCostFlowSolver::initialize(types, network, config, Arc::new(build()));
    assert_eq!(solver.solve().err(), Some(InfeasibleInstance(80)));
}

#[test]
fn flow_covers_a_fork_with_two_vehicles() {
    let (types, network, config) = instance(fork(), 3, 10);
    let solver = MinCostFlowSolver::initialize(types, network, config, Arc::new(build()));
    let solution = solver.solve().unwrap();
    let s = solution.solution();
    assert_eq!(s.number_of_vehicles(), 2);
    assert_eq!(s.number_of_unserved_passengers(), 0);
    assert_eq!(s.number_of_vehicles_of_same_type_spawned_at(DepotIdx(0), T), 2);
    assert!(s.verify_consistency());
    for n in 0..3 {
        assert!(s.is_fully_covered(NodeIdx::Service(n)));
    }
}

#[test]
fn flow_sends_more_vehicles_where_one_has_too_few_seats() {
    let (types, network, config) = instance(out_and_back(), 4, 25);
    let solver = MinCostFlowSolver::initialize(types, network, config, Arc::new(build()));
    let solution = solver.solve().unwrap();
    let s = solution.solution();
    assert_eq!(s.number_of_vehicles(), 2);
    assert_eq!(s.train_formation_of(NodeIdx::Service(0)).seats(), 50);
    assert_eq!(s.number_of_unserved_passengers(), 0);
}

#[test]
fn so_many_vehicles_seat_so_many_passengers() {
    assert_eq!(required_vehicles(40, 50), 1);
    assert_eq!(required_vehicles(50, 50), 1);
    assert_eq!(required_vehicles(51, 50), 2);
    assert_eq!(required_vehicles(0, 50), 0);
    assert_eq!(required_vehicles(40, 0), 0);
}

#[test]
fn greedy_covers_out_and_back_with_one_vehicle() {
    let (types, network, config) = instance(out_and_back(), 1, 50);
    let greedy = Greedy::initialize(types, network, config, Arc::new(build()));
    let solution = greedy.solve().unwrap();
    let s = solution.solution();
    assert_eq!(s.number_of_vehicles(), 1);
    assert_eq!(
        nodes_of(s, VehicleIdx::Vehicle(0)),
        vec![NodeIdx::StartDepot(0), NodeIdx::Service(0), NodeIdx::Service(1), NodeIdx::EndDepot(0)]
    );
    assert_eq!(s.number_of_unserved_passengers(), 0);
    assert!(s.verify_consistency());
}

#[test]
fn greedy_fails_where_no_vehicle_can_be_spawned() {
    let (types, network, config) = instance(out_and_back(), 0, 50);
    let greedy = Greedy::initialize(types, network, config, Arc::new(build()));
    assert_eq!(greedy.solve().err(), Some(ScheduleError::NoCapacity(T)));
    let (types, network, config) = instance(out_and_back(), 5, 0);
    let greedy = Greedy::initialize(types, network, config, Arc::new(build()));
    assert_eq!(greedy.solve().err(), Some(ScheduleError::NoSeats(T)));
}

#[test]
fn greedy_couples_vehicles_until_all_passengers_sit() {
    let (types, network, config) = instance(out_and_back(), 5, 15);
    let greedy = Greedy::initialize(types, network, config, Arc::new(build()));
    let solution = greedy.solve().unwrap();
    let s = solution.solution();
    assert_eq!(s.number_of_vehicles(), 3);
    assert_eq!(s.train_formation_of(NodeIdx::Service(0)).len(), 3);
    assert_eq!(s.train_formation_of(NodeIdx::Service(1)).seats(), 45);
    assert_eq!(s.number_of_unserved_passengers(), 0);
}

fn four_trips() -> Vec<ServiceTrip> {
    vec![
        trip(A, B, hm(8, 0), hm(9, 0), 5),
        trip(B, C, hm(9, 15), hm(10, 15), 5),
        trip(C, B, hm(10, 30), hm(11, 30), 5),
        trip(C, A, hm(6, 0), hm(7, 0), 5),
    ]
}

fn three_vehicles_for_four_trips() -> Schedule {
    let (types, network, config) = instance(four_trips(), 5, 10);
    Schedule::empty(types, network, config)
        .spawn_vehicle_for_path(T, vec![NodeIdx::Service(3), NodeIdx::Service(0)])
        .unwrap()
        .spawn_vehicle_for_path(T, vec![NodeIdx::Service(1)])
        .unwrap()
        .spawn_vehicle_for_path(T, vec![NodeIdx::Service(2)])
        .unwrap()
}

#[test]
fn take_first_reaches_the_optimum_in_two_steps() {
    let objective = Arc::new(build());
    let improver = TakeFirstRecursion::new(2, Some(3), objective.clone());
    let start = objective.evaluate(three_vehicles_for_four_trips());
    let first = improver.improve(&start).unwrap();
    assert!(first.objective_value().lt(start.objective_value()));
    assert_eq!(first.solution().number_of_vehicles(), 2);
    let second = improver.improve(&first).unwrap();
    assert!(second.objective_value().lt(first.objective_value()));
    assert_eq!(second.solution().number_of_vehicles(), 1);
    assert_eq!(second.solution().number_of_unserved_passengers(), 0);
    assert!(second.solution().verify_consistency());
    let v = second.solution().vehicles_iter()[0];
    assert_eq!(
        nodes_of(second.solution(), v),
        vec![
            NodeIdx::StartDepot(0),
            NodeIdx::Service(3),
            NodeIdx::Service(0),
            NodeIdx::Service(1),
            NodeIdx::Service(2),
            NodeIdx::EndDepot(0),
        ]
    );
    assert!(improver.improve(&second).is_none());
}

#[test]
fn search_stops_when_nothing_is_better() {
    let objective = Arc::new(build());
    let improver = Minimizer::new(objective.clone());
    let start = objective.evaluate(three_vehicles_for_four_trips());
    let (last, finished) = search(&improver, start, 10);
    assert!(finished);
    assert_eq!(last.solution().number_of_vehicles(), 1);
    let start = objective.evaluate(three_vehicles_for_four_trips());
    let (last, finished) = search(&improver, start, 1);
    assert!(!finished);
    assert_eq!(last.solution().number_of_vehicles(), 2);
}

#[test]
fn every_neighbour_of_a_schedule_is_consistent() {
    let s = three_vehicles_for_four_trips();
    let neighbours = s.neighborhood();
    assert_eq!(neighbours.len(), 6);
    for n in neighbours.iter() {
        assert!(n.verify_consistency());
        assert_eq!(n.number_of_unserved_passengers(), 0);
    }
}

#[test]
fn the_first_phase_counts_what_it_is_named_for() {
    let s = three_vehicles_for_four_trips();
    assert_eq!(FirstPhaseIndicator::UnservedPassengers.evaluate(&s), BaseValue::Integer(0));
    assert_eq!(FirstPhaseIndicator::NumberOfVehicles.evaluate(&s), BaseValue::Integer(3));
    assert_eq!(FirstPhaseIndicator::DepotBalanceViolation.evaluate(&s), BaseValue::Integer(0));
    // empty runs: vehicle 0 A-C and B-A, vehicle 1 A-B and C-A, vehicle 2 A-C and B-A
    assert_eq!(FirstPhaseIndicator::DeadHeadDistance.evaluate(&s), BaseValue::Integer(60_000));
    assert_eq!(s.total_dead_head_distance(), Distance::from_meter(60_000));
    // 4 trips of 50 km and 60 km empty, with 10 seats each
    assert_eq!(FirstPhaseIndicator::SeatDistance.evaluate(&s), BaseValue::Integer(2_600_000));
    assert_eq!(s.seat_distance_traveled(), 2_600_000);
    assert_eq!(FirstPhaseIndicator::SeatDistance.name(), "seatDistance");
}

#[test]
fn the_vehicle_that_was_busy_the_longest_takes_the_trip() {
    let s = three_vehicles_for_four_trips();
    // S2 leaves C at 10:30: vehicle 0 is free at B from 9:00, vehicle 1 at C from 10:15
    let (v, vehicle) = Greedy::<FirstPhaseIndicator>::pick_vehicle(&s, NodeIdx::Service(2)).unwrap();
    assert_eq!(v, VehicleIdx::Vehicle(1));
    assert_eq!(vehicle.id, VehicleIdx::Vehicle(1));
    // S1 leaves B at 9:15: only vehicle 0 is in time
    let (v, _) = Greedy::<FirstPhaseIndicator>::pick_vehicle(&s, NodeIdx::Service(1)).unwrap();
    assert_eq!(v, VehicleIdx::Vehicle(0));
    // nothing is in time for the earliest trip
    assert!(Greedy::<FirstPhaseIndicator>::pick_vehicle(&s, NodeIdx::Service(3)).is_none());
    // of two vehicles that are free at the same time the later one is taken
    let (types, network, config) = instance(out_and_back(), 5, 15);
    let two = Schedule::empty(types, network, config)
        .spawn_vehicle_for_path(T, vec![NodeIdx::Service(0)])
        .unwrap()
        .spawn_vehicle_for_path(T, vec![NodeIdx::Service(0)])
        .unwrap();
    let (v, _) = Greedy::<FirstPhaseIndicator>::pick_vehicle(&two, NodeIdx::Service(1)).unwrap();
    assert_eq!(v, VehicleIdx::Vehicle(1));
}

#[test]
fn the_whole_tour_runs_from_the_first_trip_to_the_last() {
    let s = three_vehicles_for_four_trips();
    assert_eq!(s.whole_tour(VehicleIdx::Vehicle(0)), Some(Segment::new(NodeIdx::Service(3), NodeIdx::Service(0))));
    assert_eq!(s.whole_tour(VehicleIdx::Vehicle(2)), Some(Segment::new(NodeIdx::Service(2), NodeIdx::Service(2))));
    assert_eq!(s.whole_tour(VehicleIdx::Vehicle(7)), None);
    assert_eq!(s.whole_tour(VehicleIdx::Dummy(0)), None);
    assert_eq!(s.counter(), 3);
}

#[test]
fn a_depot_has_room_for_all_its_types_together() {
    let (types, network, config) = instance(out_and_back(), 4, 50);
    let solver = MinCostFlowSolver::initialize(types, network, config, Arc::new(build()));
    assert_eq!(solver.depot_room(0), 4);
    // a depot that is not there has no room
    assert_eq!(solver.depot_room(3), 0);
}

#[test]
fn the_flow_network_has_an_arc_for_every_run() {
    let (types, network, config) = instance(out_and_back(), 4, 50);
    let solver = MinCostFlowSolver::initialize(types, network, config, Arc::new(build()));
    let (flow, tags) = solver.build_flow_network();
    // source, sink, two nodes for each of two trips, the depot to start and to end
    assert_eq!(flow.nodes(), 8);
    assert_eq!(
        tags,
        vec![
            ArcTag::Source(0),
            ArcTag::Sink(0),
            ArcTag::Cover(0),
            ArcTag::Start(0, 0),
            ArcTag::End(0, 0),
            ArcTag::Link(0, 1),
            ArcTag::Cover(1),
            ArcTag::Start(0, 1),
            ArcTag::End(1, 0),
        ]
    );
    let arcs: Vec<(usize, usize, u64, i64, u64)> =
        flow.arcs().iter().map(|a| (a.from, a.to, a.capacity, a.cost, a.flow)).collect();
    assert_eq!(
        arcs,
        vec![
            (0, 6, 4, 0, 0),
            (7, 1, PLENTY, 0, 0),
            (2, 3, 1, -REWARD, 0),
            (6, 2, PLENTY, 0, 0),
            (3, 7, PLENTY, 10_000, 0),
            (3, 4, PLENTY, 0, 0),
            (4, 5, 1, -REWARD, 0),
            (6, 4, PLENTY, 10_000, 0),
            (5, 7, PLENTY, 0, 0),
        ]
    );
    assert_eq!(run_cost(Distance::from_meter(17)), 17);
    assert_eq!(run_cost(Distance::Infinity), 0x4000_0000);
    assert_eq!(run_cost(Distance::from_meter(0x4000_0001)), 0x4000_0000);
}

#[test]
fn the_indicators_have_their_names() {
    assert_eq!(FirstPhaseIndicator::UnservedPassengers.name(), "unservedPassengers");
    assert_eq!(FirstPhaseIndicator::DepotBalanceViolation.name(), "depotBalanceViolation");
    assert_eq!(FirstPhaseIndicator::NumberOfVehicles.name(), "numberOfVehicles");
    assert_eq!(FirstPhaseIndicator::DeadHeadDistance.name(), "deadHeadDistance");
    assert_eq!(FirstPhaseIndicator::SeatDistance.name(), "seatDistance");
}

fn tours_of(s: &Schedule) -> Vec<(VehicleIdx, Vec<NodeIdx>)> {
    let mut all = Vec::new();
    for v in s.vehicles_iter().iter().chain(s.dummy_iter().iter()) {
        all.push((*v, nodes_of(s, *v)));
    }
    all
}

#[test]
fn the_neighbours_come_in_the_order_of_the_moves() {
    // two vehicles and a dummy that holds the trip which gave way
    let start = three_vehicles_for_four_trips();
    let (types, network, config) = instance(four_trips(), 5, 10);
    let one = Schedule::empty(types, network, config)
        .spawn_vehicle_for_path(T, vec![NodeIdx::Service(3), NodeIdx::Service(0)])
        .unwrap()
        .spawn_vehicle_for_path(T, vec![NodeIdx::Service(1), NodeIdx::Service(2)])
        .unwrap();
    let with_dummy = one
        .override_reassign(
            Segment::new(NodeIdx::Service(1), NodeIdx::Service(1)),
            VehicleIdx::Vehicle(1),
            VehicleIdx::Vehicle(0),
        )
        .unwrap()
        .0;
    for s in [start, with_dummy] {
        let mut expected = Vec::new();
        for d in s.dummy_iter().iter() {
            for t in s.get_vehicle_types().iter().iter() {
                if let Ok(n) = s.spawn_vehicle_to_replace_dummy_tour(*d, *t) {
                    expected.push(tours_of(&n));
                }
            }
        }
        for d in s.dummy_iter().iter() {
            for v in s.vehicles_iter().iter() {
                if let Ok(n) = s.fit_reassign(s.whole_tour(*d).unwrap(), *d, *v) {
                    expected.push(tours_of(&n));
                }
            }
        }
        for p in s.vehicles_iter().iter() {
            for v in s.vehicles_iter().iter() {
                if p != v {
                    if let Ok(n) = s.fit_reassign(s.whole_tour(*p).unwrap(), *p, *v) {
                        expected.push(tours_of(&n));
                    }
                }
            }
        }
        let neighbours: Vec<Vec<(VehicleIdx, Vec<NodeIdx>)>> = s.neighborhood().iter().map(tours_of).collect();
        assert!(!neighbours.is_empty());
        assert_eq!(neighbours, expected);
    }
}

#[test]
fn a_unit_of_flow_is_read_as_a_tour() {
    let (types, network, config) = instance(out_and_back(), 4, 50);
    let solver = MinCostFlowSolver::initialize(types.clone(), network.clone(), config.clone(), Arc::new(build()));
    let (mut flow, tags) = solver.build_flow_network();
    assert_eq!(flow.send_while_cheaper(0, 1, 9), 1);
    let tour = MinCostFlowSolver::<FirstPhaseIndicator>::take_tour(&mut flow, &tags);
    assert_eq!(tour, (Some(0), vec![NodeIdx::Service(0), NodeIdx::Service(1)], Some(0)));
    assert!(flow.arcs().iter().all(|a| a.flow == 0));
    // no flow is left: nothing is read
    let tour = MinCostFlowSolver::<FirstPhaseIndicator>::take_tour(&mut flow, &tags);
    assert_eq!(tour, (None, vec![], None));
    assert_eq!(
        MinCostFlowSolver::<FirstPhaseIndicator>::nodes_of(Some(0), &vec![NodeIdx::Service(1)], None),
        vec![NodeIdx::StartDepot(0), NodeIdx::Service(1)]
    );
    assert_eq!(solver.most_on(&vec![NodeIdx::Service(0), NodeIdx::Service(7), NodeIdx::Service(1)]), 40);
    // a vehicle for the tour that was read, and none for a unit without trips
    let empty = Schedule::empty(types, network, config);
    let one = solver.spawn_for_tour(empty.clone(), Some(0), vec![NodeIdx::Service(0)], Some(0));
    assert_eq!(
        nodes_of(&one, VehicleIdx::Vehicle(0)),
        vec![NodeIdx::StartDepot(0), NodeIdx::Service(0), NodeIdx::EndDepot(0)]
    );
    let none = solver.spawn_for_tour(empty.clone(), Some(0), vec![], Some(0));
    assert_eq!(none.number_of_vehicles(), 0);
    assert_eq!(empty.number_of_vehicles(), 0);
    assert_eq!(one.clone().number_of_vehicles(), 1);
}
