use rolling_stock::clusters::{cluster, copy_indices, next_unplaced, pick_cluster};

#[test]
fn vehicles_gather_around_the_ones_with_distance_to_spare() {
    // vehicles 0 and 3 have distance to spare; 2, 4 and 1 join in this order
    let (clusters, sums) = cluster(&vec![-100, 30, 80, -50, 50]);
    assert_eq!(clusters, vec![vec![0, 2], vec![3, 4, 1]]);
    assert_eq!(sums, vec![-20, 30]);
    // vehicle 3, which no cluster can take, joins the one with the least to spare
    let (clusters, sums) = cluster(&vec![-10, -20, 15, 40]);
    assert_eq!(clusters, vec![vec![0, 3], vec![1, 2]]);
    assert_eq!(sums, vec![30, -5]);
}

#[test]
fn without_distance_to_spare_all_vehicles_are_one_cluster() {
    let (clusters, sums) = cluster(&vec![5, 7, 0]);
    assert_eq!(clusters, vec![vec![1, 0, 2]]);
    assert_eq!(sums, vec![12]);
    let (clusters, sums) = cluster(&vec![]);
    assert!(clusters.is_empty());
    assert!(sums.is_empty());
    let (clusters, sums) = cluster(&vec![i64::MAX, i64::MAX]);
    assert_eq!(clusters, vec![vec![0, 1]]);
    assert_eq!(sums, vec![2 * (i64::MAX as i128)]);
}

#[test]
fn the_vehicle_furthest_past_maintenance_comes_next() {
    let counters = vec![3, 9, 9, 4];
    assert_eq!(next_unplaced(&counters, &vec![false, false, false, false]), Some(1));
    assert_eq!(next_unplaced(&counters, &vec![false, true, false, false]), Some(2));
    assert_eq!(next_unplaced(&counters, &vec![false, true, true, false]), Some(3));
    assert_eq!(next_unplaced(&counters, &vec![true, true, true, true]), None);
    assert_eq!(next_unplaced(&vec![], &vec![]), None);
}

#[test]
fn a_vehicle_joins_the_cluster_with_the_most_to_spare() {
    // the first of the clusters with the most to spare that can take it
    assert_eq!(pick_cluster(&vec![-5, -30, -30, 10], 20), Some(1));
    assert_eq!(pick_cluster(&vec![-5, -30, -30, 10], 5), Some(1));
    // none can: the last of the clusters furthest past maintenance
    assert_eq!(pick_cluster(&vec![-5, 10, 10, -30], 40), Some(2));
    assert_eq!(pick_cluster(&vec![-5], 5), Some(0));
    assert_eq!(pick_cluster(&vec![], 5), None);
    assert_eq!(copy_indices(&vec![4, 2, 4]), vec![4, 2, 4]);
}
