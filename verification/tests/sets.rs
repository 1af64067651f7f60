use bye_nanoflann::sets::{KNNResultSet, RKNNResultSet, RadiusResultSet, ResultItem, ResultSet};
use bye_nanoflann::utils::IndexDistSorter;

#[test]
fn test_knn_result_set() {
    // Distances are integers here: 10, 5 and 20 stand for 1.0, 0.5 and 2.0.
    let mut knn_result_set = KNNResultSet::new(3);
    knn_result_set.init(vec![0, 0, 0], vec![0, 0, 0]);

    knn_result_set.add_point(10, 1);
    knn_result_set.add_point(5, 2);
    knn_result_set.add_point(20, 3);

    assert_eq!(knn_result_set.size(), 3);
    assert_eq!(knn_result_set.worst_dist(), 20);
}

#[test]
fn test_rknn_result_set() {
    let mut rknn_result_set = RKNNResultSet::new(3, 2.0);
    rknn_result_set.init(vec![0, 0, 0], vec![0.0, 0.0, 0.0]);

    rknn_result_set.add_point(1.0, 1);
    rknn_result_set.add_point(0.5, 2);
    rknn_result_set.add_point(2.0, 3);

    assert_eq!(rknn_result_set.size(), 3);
    assert_eq!(rknn_result_set.worst_dist(), 2.0);
}

#[test]
fn test_radius_result_set() {
    let mut radius_result_set = RadiusResultSet::new(2.0, vec![]);
    radius_result_set.init();

    radius_result_set.add_point(1.0, 1);
    radius_result_set.add_point(0.5, 2);
    radius_result_set.add_point(2.0, 3);

    assert_eq!(radius_result_set.size(), 2);
    assert_eq!(radius_result_set.worst_dist(), 2.0);
}

#[test]
fn test_result_item() {
    let item = ResultSet::new(1, 2.5);
    assert_eq!(item.index(), 1, "ResultSet index is incorrect");
    assert_eq!(item.distance(), 2.5, "ResultSet distance is incorrect");
}

#[test]
fn test_index_dist_sorter() {
    let item1 = ResultSet::new(1, 2.5);
    let item2 = ResultSet::new(2, 1.5);
    assert!(IndexDistSorter::compare(&item2, &item1), "IndexDistSorter comparison failed");

    let item3 = ResultSet::new(3, 3.0);
    assert!(!IndexDistSorter::compare(&item3, &item1), "IndexDistSorter comparison failed");
}

#[test]
fn knn_keeps_the_closest_in_order() {
    let mut set: KNNResultSet<i64> = KNNResultSet::new(3);
    set.init(vec![0, 0, 0], vec![0, 0, 0]);
    assert!(set.empty());
    assert_eq!(set.worst_dist(), i64::MAX);
    for (d, i) in [(50, 0), (10, 1), (40, 2), (30, 3), (20, 4), (60, 5)] {
        assert!(set.add_point(d, i));
    }
    assert!(set.full());
    assert_eq!(set.size(), 3);
    assert_eq!((set.dist_at(0), set.index_at(0)), (10, 1));
    assert_eq!((set.dist_at(1), set.index_at(1)), (20, 4));
    assert_eq!((set.dist_at(2), set.index_at(2)), (30, 3));
    assert_eq!(set.worst_dist(), 30);
}

#[test]
fn knn_equal_distances_keep_arrival_order() {
    let mut set: KNNResultSet<i32> = KNNResultSet::new(2);
    set.init(vec![0, 0], vec![0, 0]);
    set.add_point(7, 1);
    set.add_point(7, 2);
    set.add_point(7, 3);
    assert_eq!(set.index_at(0), 1);
    assert_eq!(set.index_at(1), 2);
}

#[test]
fn knn_with_no_room_keeps_nothing() {
    let mut set: KNNResultSet<u64> = KNNResultSet::new(0);
    set.init(vec![], vec![]);
    set.add_point(1, 1);
    assert_eq!(set.size(), 0);
    assert!(set.full());
}

#[test]
fn rknn_worst_is_bound_until_full() {
    let mut set: RKNNResultSet<i64> = RKNNResultSet::new(2, 100);
    set.init(vec![0, 0], vec![0, 0]);
    assert_eq!(set.worst_dist(), 100);
    set.add_point(40, 7);
    assert_eq!(set.worst_dist(), 100);
    set.add_point(30, 8);
    assert_eq!(set.worst_dist(), 40);
    assert_eq!(set.index_at(0), 8);
}

#[test]
fn radius_worst_item_and_sort() {
    let mut set: RadiusResultSet<i32> = RadiusResultSet::new(10, vec![]);
    set.add_point(4, 0);
    set.add_point(9, 1);
    set.add_point(2, 2);
    set.add_point(9, 3);
    set.add_point(10, 4);
    assert_eq!(set.size(), 4);
    let worst = set.worst_item();
    assert_eq!((worst.index(), worst.distance()), (3, 9));
    set.sort();
    let mut prev = i32::MIN;
    for k in 0..set.size() {
        let d = set.item_at(k).distance();
        assert!(prev <= d);
        prev = d;
    }
    set.clear();
    assert!(set.empty());
    assert!(set.full());
}

#[test]
fn result_item_alias() {
    let item: ResultItem<usize, i32> = ResultItem::new(4, -2);
    assert_eq!(item.index(), 4);
    assert_eq!(item.distance(), -2);
}

#[test]
fn knn_keeps_the_closest_offers_in_arrival_order_on_ties() {
    let offers = [(5i64, 0usize), (1, 1), (5, 2), (0, 3), (5, 4)];
    let mut knn = KNNResultSet::new(3);
    knn.init(vec![0; 3], vec![0i64; 3]);
    let mut rknn = RKNNResultSet::new(3, 100i64);
    rknn.init(vec![0; 3], vec![0i64; 3]);
    for &(d, i) in offers.iter() {
        knn.add_point(d, i);
        rknn.add_point(d, i);
    }
    let knn_items: Vec<(i64, usize)> = (0..knn.size()).map(|k| (knn.dist_at(k), knn.index_at(k))).collect();
    let rknn_items: Vec<(i64, usize)> = (0..rknn.size()).map(|k| (rknn.dist_at(k), rknn.index_at(k))).collect();
    assert_eq!(knn_items, vec![(0, 3), (1, 1), (5, 0)]);
    assert_eq!(rknn_items, knn_items);
}
