use rolling_stock::base_types::{DepotIdx, Location, LocationIdx, NodeIdx, VehicleIdx, VehicleTypeIdx};
use rolling_stock::distance::Distance;
use rolling_stock::first_phase_objective::build;
use rolling_stock::greedy::Greedy;
use rolling_stock::json_serialisation::{
    check_matrix, create_config, create_depots, create_locations, create_network, create_service_trip,
    create_vehicle_types, find_location, find_route, find_type, Capacities, DeadHeadTrips, Defaults, Depot,
    JsonError, JsonInput, JsonLocation, Parameters, Route, ServiceTrip, Shunting, VehicleType,
};
use rolling_stock::network::InvalidInput;
use rolling_stock::time::{DateTime, Duration};
use rolling_stock::transition::{Transition, TransitionCycle};
use rolling_stock::transition_cycle_tsp::TransitionCycleWithInfo;
use rolling_stock::schedule::Schedule;
use std::sync::Arc;

fn s(text: &str) -> String {
    String::from(text)
}

fn input() -> JsonInput {
    JsonInput {
        vehicle_types: vec![
            VehicleType { id: s("big"), name: s("Big"), seats: 100, capacity: 150, length: 75 },
            VehicleType { id: s("small"), name: s("Small"), seats: 50, capacity: 80, length: 50 },
        ],
        locations: vec![
            JsonLocation { id: s("ZH"), name: s("Zurich") },
            JsonLocation { id: s("BN"), name: s("Bern") },
        ],
        depots: vec![Depot {
            id: s("depot_zh"),
            location: s("ZH"),
            capacities: vec![
                Capacities { vehicle_type: s("big"), upper_bound: 2 },
                Capacities { vehicle_type: s("small"), upper_bound: 3 },
            ],
        }],
        routes: vec![
            Route {
                id: s("zh_bn"),
                line: s("IC1"),
                origin: s("ZH"),
                destination: s("BN"),
                distance: 120_000,
                duration: 3600,
                maximal_formation_length: None,
            },
            Route {
                id: s("bn_zh"),
                line: s("IC1"),
                origin: s("BN"),
                destination: s("ZH"),
                distance: 120_000,
                duration: 3600,
                maximal_formation_length: Some(300),
            },
        ],
        service_trips: vec![
            ServiceTrip { id: s("t1"), route: s("zh_bn"), name: s("IC1 out"), departure: s("2024-05-17T08:00:00"), passengers: 40 },
            ServiceTrip { id: s("t2"), route: s("bn_zh"), name: s("IC1 back"), departure: s("2024-05-17T09:30:00"), passengers: 60 },
        ],
        dead_head_trips: DeadHeadTrips {
            indices: vec![s("ZH"), s("BN")],
            durations: vec![vec![0, 4000], vec![4100, 0]],
            distances: vec![vec![0, 125_000], vec![126_000, 0]],
        },
        parameters: Parameters {
            shunting: Shunting { minimal_duration: 120, dead_head_trip_duration: 300 },
            defaults: Defaults { maximal_formation_length: 400 },
        },
    }
}

#[test]
fn an_instance_becomes_a_network() {
    let json = input();
    let types = create_vehicle_types(&json).unwrap();
    assert_eq!(types.iter(), &vec![VehicleTypeIdx(1), VehicleTypeIdx(0)]);
    assert_eq!(types.get(VehicleTypeIdx(0)).unwrap().name(), "Big");
    assert_eq!(types.get(VehicleTypeIdx(1)).unwrap().seats(), 50);
    let config = create_config(&json);
    assert_eq!(config.shunting_minimal_duration, Duration::from_seconds(120));
    assert_eq!(config.shunting_dead_head_trip_duration, Duration::from_seconds(300));
    assert_eq!(config.default_maximal_formation_length, Distance::from_meter(400));
    let locations = create_locations(&json).unwrap();
    let zh = Location::of(LocationIdx(0));
    let bn = Location::of(LocationIdx(1));
    assert!(locations.is_station(LocationIdx(1)));
    assert!(!locations.is_station(LocationIdx(2)));
    assert_eq!(locations.distance(zh, bn), Distance::from_meter(125_000));
    assert_eq!(locations.distance(bn, zh), Distance::from_meter(126_000));
    assert_eq!(locations.travel_time(bn, zh), Duration::from_seconds(4100));
    assert_eq!(locations.distance(bn, bn), Distance::zero());
    let depots = create_depots(&json, &locations).unwrap();
    assert_eq!(depots.len(), 1);
    assert_eq!(depots[0].depot_id(), DepotIdx(0));
    assert_eq!(depots[0].location(), zh);
    assert_eq!(depots[0].total_capacity(), 5);
    assert_eq!(depots[0].capacity_for(VehicleTypeIdx(0)), 2);
    assert_eq!(depots[0].capacity_for(VehicleTypeIdx(1)), 3);
    let trips = create_service_trip(&json, &locations).unwrap();
    assert_eq!(trips.len(), 2);
    assert_eq!(trips[0].origin, zh);
    assert_eq!(trips[0].destination, bn);
    assert_eq!(trips[0].departure, DateTime::from_seconds(1_715_932_800));
    assert_eq!(trips[0].arrival, DateTime::from_seconds(1_715_936_400));
    assert_eq!(trips[1].demand, 60);
    assert_eq!(trips[1].name, "IC1 back");
    assert_eq!(trips[1].distance, Distance::from_meter(120_000));
    let network = create_network(&json, Arc::new(locations), Arc::new(config)).unwrap();
    assert_eq!(network.number_of_service_nodes(), 2);
    assert_eq!(network.number_of_depots(), 1);
    assert_eq!(network.number_of_maintenance_nodes(), 0);
    // 30 minutes at Bern are more than the 2 minutes it takes to shunt
    assert!(network.can_reach(NodeIdx::Service(0), NodeIdx::Service(1)));
    assert_eq!(network.config().shunting_minimal_duration, Duration::from_seconds(120));
    assert!(network.locations().is_station(LocationIdx(0)));
}

#[test]
fn an_instance_is_solved_from_its_parts() {
    let json = input();
    let types = Arc::new(create_vehicle_types(&json).unwrap());
    let config = Arc::new(create_config(&json));
    let locations = Arc::new(create_locations(&json).unwrap());
    let network = Arc::new(create_network(&json, locations, config.clone()).unwrap());
    let solution = Greedy::initialize(types, network, config, Arc::new(build())).solve().unwrap();
    // vehicles of the small type, the first in the order of types: one for
    // the 40 passengers out, one more for the 60 passengers back
    assert_eq!(solution.solution().number_of_vehicles(), 2);
    assert_eq!(solution.solution().number_of_unserved_passengers(), 0);
}

#[test]
fn names_are_looked_up_by_position() {
    let json = input();
    assert_eq!(find_location(&json.locations, &s("BN")), Some(1));
    assert_eq!(find_location(&json.locations, &s("GE")), None);
    assert_eq!(find_type(&json.vehicle_types, &s("big")), Some(0));
    assert_eq!(find_type(&json.vehicle_types, &s("huge")), None);
    assert_eq!(find_route(&json.routes, &s("bn_zh")), Some(1));
    assert_eq!(find_route(&json.routes, &s("")), None);
    assert!(check_matrix(&json.dead_head_trips));
}

#[test]
fn a_faulty_instance_is_refused() {
    let mut json = input();
    json.dead_head_trips.durations[1].pop();
    assert!(!check_matrix(&json.dead_head_trips));
    assert_eq!(create_locations(&json).err(), Some(JsonError::BadMatrix));
    let mut json = input();
    json.dead_head_trips.distances.pop();
    assert_eq!(create_locations(&json).err(), Some(JsonError::BadMatrix));
    let mut json = input();
    json.dead_head_trips.indices[1] = s("GE");
    assert_eq!(create_locations(&json).err(), Some(JsonError::UnknownLocation));
    let locations = create_locations(&input()).unwrap();
    let mut json = input();
    json.depots[0].location = s("GE");
    assert_eq!(create_depots(&json, &locations).err(), Some(JsonError::UnknownLocation));
    let mut json = input();
    json.depots[0].capacities[1].vehicle_type = s("huge");
    assert_eq!(create_depots(&json, &locations).err(), Some(JsonError::UnknownVehicleType));
    let mut json = input();
    json.service_trips[1].route = s("nowhere");
    assert_eq!(create_service_trip(&json, &locations).err(), Some(JsonError::UnknownRoute));
    let mut json = input();
    json.routes[0].destination = s("GE");
    assert_eq!(create_service_trip(&json, &locations).err(), Some(JsonError::UnknownLocation));
    let mut json = input();
    json.service_trips[0].departure = s("17.05.2024 08:00");
    assert_eq!(create_service_trip(&json, &locations).err(), Some(JsonError::BadDeparture));
    let mut json = input();
    json.routes[0].duration = 0;
    let config = Arc::new(create_config(&json));
    assert_eq!(
        create_network(&json, Arc::new(create_locations(&json).unwrap()), config).err(),
        Some(JsonError::Network(InvalidInput::BadServiceTrip(0)))
    );
    // the table names Zurich only: Bern, where a trip ends, has no dead-head trips
    let mut json = input();
    json.dead_head_trips = DeadHeadTrips { indices: vec![s("ZH")], durations: vec![vec![0]], distances: vec![vec![0]] };
    let config = Arc::new(create_config(&json));
    assert_eq!(
        create_network(&json, Arc::new(create_locations(&json).unwrap()), config).err(),
        Some(JsonError::Network(InvalidInput::MissingDeadHeadTrip))
    );
}

fn schedule() -> Schedule {
    let json = input();
    let types = Arc::new(create_vehicle_types(&json).unwrap());
    let config = Arc::new(create_config(&json));
    let locations = Arc::new(create_locations(&json).unwrap());
    let network = Arc::new(create_network(&json, locations, config.clone()).unwrap());
    Schedule::empty(types, network, config)
        .spawn_vehicle_for_path(VehicleTypeIdx(0), vec![NodeIdx::Service(0), NodeIdx::Service(1)])
        .unwrap()
        .spawn_vehicle_for_path(VehicleTypeIdx(1), vec![NodeIdx::Service(1)])
        .unwrap()
}

#[test]
fn every_vehicle_follows_itself() {
    let s = schedule();
    let t = Transition::one_cylce_per_vehicle(&s);
    assert_eq!(t.cycles().len(), 2);
    assert_eq!(t.cycles()[0].cycle(), &vec![VehicleIdx::Vehicle(0)]);
    assert_eq!(t.cycles()[1].cycle(), &vec![VehicleIdx::Vehicle(1)]);
    // vehicle 0 runs both trips, vehicle 1 runs empty to Bern and the trip back
    assert_eq!(t.cycles()[0].maintenance_violation(), 240_000);
    assert_eq!(t.cycles()[1].maintenance_violation(), 245_000);
    assert_eq!(t.maintenance_violation(), 485_000);
    assert!(t.verify_consistency(&s));
    assert_eq!(Transition::counters(&s), vec![240_000, 245_000]);
    let both = Transition::cycle_of(vec![VehicleIdx::Vehicle(1), VehicleIdx::Vehicle(0)], &s).unwrap();
    assert_eq!(both.maintenance_violation(), 485_000);
    assert_eq!(both.cycle(), &vec![VehicleIdx::Vehicle(1), VehicleIdx::Vehicle(0)]);
    assert!(Transition::cycle_of(vec![VehicleIdx::Vehicle(2)], &s).is_none());
    assert!(Transition::cycle_of(vec![VehicleIdx::Dummy(0)], &s).is_none());
    assert_eq!(Transition::cycle_of(vec![], &s).unwrap().maintenance_violation(), 0);
    let u = Transition::one_cluster_per_maintenance(&s);
    assert!(u.verify_consistency(&s));
    assert_eq!(u.maintenance_violation(), 485_000);
    assert_eq!(u.cycles().len(), 1);
    assert_eq!(u.cycles()[0].cycle(), &vec![VehicleIdx::Vehicle(1), VehicleIdx::Vehicle(0)]);
    // a transition of another schedule is none of this one
    let other = s.delete_vehicle(VehicleIdx::Vehicle(1)).unwrap();
    assert!(!t.verify_consistency(&other));
    assert!(Transition::one_cylce_per_vehicle(&other).verify_consistency(&other));
}

#[test]
fn a_cycle_carries_its_text() {
    let cycle = TransitionCycle::new(vec![VehicleIdx::Vehicle(3), VehicleIdx::Vehicle(1)], 17);
    assert_eq!(cycle.cycle(), &vec![VehicleIdx::Vehicle(3), VehicleIdx::Vehicle(1)]);
    assert_eq!(cycle.maintenance_violation(), 17);
    let with_info = TransitionCycleWithInfo::new(cycle.clone(), String::from("swapped 3 and 1"));
    assert_eq!(with_info.get_print_text(), "swapped 3 and 1");
    assert_eq!(with_info.get_cycle().maintenance_violation(), 17);
    assert_eq!(with_info.unwrap_cycle().cycle(), cycle.cycle());
}

#[test]
fn the_last_entry_of_a_table_counts() {
    let mut json = input();
    // the table names Bern twice: the last row and the last column of that name count
    json.dead_head_trips.indices = vec![s("ZH"), s("BN"), s("BN")];
    json.dead_head_trips.durations = vec![vec![0, 1, 2], vec![3, 4, 5], vec![6, 7, 8]];
    json.dead_head_trips.distances = vec![vec![0, 10, 20], vec![30, 40, 50], vec![60, 70, 80]];
    let locations = create_locations(&json).unwrap();
    let zh = Location::of(LocationIdx(0));
    let bn = Location::of(LocationIdx(1));
    assert_eq!(locations.distance(zh, bn), Distance::from_meter(20));
    assert_eq!(locations.travel_time(zh, bn), Duration::from_seconds(2));
    assert_eq!(locations.distance(bn, zh), Distance::from_meter(60));
    assert_eq!(locations.travel_time(bn, bn), Duration::from_seconds(8));
    // a station that the table does not name has no trips
    json.dead_head_trips.indices = vec![s("ZH"), s("ZH"), s("ZH")];
    let locations = create_locations(&json).unwrap();
    assert!(locations.knows(zh, zh));
    assert!(!locations.knows(zh, bn));
    assert_eq!(locations.distance(zh, zh), Distance::from_meter(80));
    // of two bounds for one type the later one counts; the depot has room for both together
    let mut json = input();
    json.depots[0].capacities = vec![
        Capacities { vehicle_type: s("big"), upper_bound: 2 },
        Capacities { vehicle_type: s("big"), upper_bound: 1 },
    ];
    let locations = create_locations(&json).unwrap();
    let depots = create_depots(&json, &locations).unwrap();
    assert_eq!(depots[0].total_capacity(), 3);
    assert_eq!(depots[0].capacity_for(VehicleTypeIdx(0)), 1);
    assert_eq!(depots[0].capacity_for(VehicleTypeIdx(1)), 0);
}

#[test]
fn a_depot_is_looked_at_before_a_trip() {
    let mut json = input();
    json.depots[0].capacities[0].vehicle_type = s("huge");
    json.service_trips[0].route = s("nowhere");
    let config = Arc::new(create_config(&json));
    let locations = Arc::new(create_locations(&json).unwrap());
    assert_eq!(
        create_network(&json, locations.clone(), config.clone()).err(),
        Some(JsonError::UnknownVehicleType)
    );
    json.depots[0].capacities[0].vehicle_type = s("big");
    assert_eq!(create_network(&json, locations.clone(), config.clone()).err(), Some(JsonError::UnknownRoute));
    json.service_trips[0].route = s("zh_bn");
    let network = create_network(&json, locations, config).unwrap();
    assert_eq!(network.number_of_depots(), 1);
    assert_eq!(network.number_of_service_nodes(), 2);
    assert_eq!(network.number_of_maintenance_nodes(), 0);
    assert_eq!(network.capacity_of(DepotIdx(0), VehicleTypeIdx(1)), 3);
    assert_eq!(network.start_time(NodeIdx::Service(1)), DateTime::from_seconds(1_715_938_200));
}
