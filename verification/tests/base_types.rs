use rolling_stock::base_types::{NodeIdx, VehicleIdx};

#[test]
fn vehicle_ids_carry_their_number() {
    assert_eq!(VehicleIdx::vehicle_from(3).idx(), 3);
    assert_eq!(VehicleIdx::dummy_from(7).idx(), 7);
    assert!(VehicleIdx::dummy_from(7).is_dummy());
    assert!(!VehicleIdx::vehicle_from(7).is_dummy());
}

#[test]
fn smallest_node_is_first_start_depot() {
    assert_eq!(NodeIdx::smallest(), NodeIdx::start_depot_from(0));
    assert!(NodeIdx::end_depot_from(1).is_depot());
    assert!(!NodeIdx::service_from(1).is_depot());
    assert_eq!(NodeIdx::maintenance_from(4).idx(), 4);
}
