use bye_nanoflann::metric::{
    L1Adaptor, L2Adaptor, L2SimpleAdaptor, MetricL1, MetricL2, MetricL2Simple, MetricSO3, SO3Adaptor,
};
use bye_nanoflann::sets::SuperSet;

fn sample() -> SuperSet<i32, f32> {
    let data_vec = vec![vec![1, 2, 3], vec![4, 5, 6], vec![7, 8, 9]];
    let distance_vec: Vec<f32> = vec![0.0, 0.0, 0.0];
    SuperSet::new(data_vec, distance_vec)
}

#[test]
fn test_l1_adaptor() {
    let l1_adaptor: L1Adaptor<SuperSet<i32, f32>> = L1Adaptor::new(sample());

    let a = vec![1, 2, 3];
    let dist = l1_adaptor.eval_metric(&a, 1, 3, None);
    assert_eq!(dist, 9);

    let dist = l1_adaptor.eval_metric(&a, 2, 3, None);
    assert_eq!(dist, 18);
}

#[test]
fn test_l2_adaptor() {
    let l2_adaptor: L2Adaptor<SuperSet<i32, f32>> = L2Adaptor::new(sample());

    let a = vec![1, 2, 3];
    let dist = l2_adaptor.eval_metric(&a, 1, 3, None);
    assert_eq!(dist, 27);

    let dist = l2_adaptor.eval_metric(&a, 2, 3, None);
    assert_eq!(dist, 108);
}

#[test]
fn test_l2_simple_adaptor() {
    let l2_simple_adaptor: L2SimpleAdaptor<SuperSet<i32, f32>> = L2SimpleAdaptor::new(sample());

    let a = vec![1, 2, 3];
    let dist = l2_simple_adaptor.eval_metric(&a, 1, 3);
    assert_eq!(dist, 27);

    let dist = l2_simple_adaptor.eval_metric(&a, 2, 3);
    assert_eq!(dist, 108);
}

#[test]
fn test_so3_adaptor() {
    let so3_adaptor: SO3Adaptor<SuperSet<i32, f32>> = SO3Adaptor::new(sample());

    let a = vec![1, 2, 3];
    let dist = so3_adaptor.eval_metric(&a, 1, 3);
    assert_eq!(dist, 27);

    let dist = so3_adaptor.eval_metric(&a, 2, 3);
    assert_eq!(dist, 108);
}

#[test]
fn early_exit_after_a_group_of_four() {
    let data = SuperSet::new(vec![vec![0, 0, 0, 0, 0, 0, 0, 0, 0]], vec![0i64]);
    let l1 = MetricL1::traits(data);
    let a = vec![1, 1, 1, 1, 1, 1, 1, 1, 1];
    assert_eq!(l1.eval_metric(&a, 0, 9, None), 9);
    // After the first group the sum is 4 > 3: it is returned at once.
    assert_eq!(l1.eval_metric(&a, 0, 9, Some(3)), 4);
    // 4 is not above 4, 8 is: the second group's sum comes back.
    assert_eq!(l1.eval_metric(&a, 0, 9, Some(4)), 8);
    // The last coordinate is added without a check.
    assert_eq!(l1.eval_metric(&a, 0, 9, Some(8)), 9);
}

#[test]
fn l2_grouped_matches_simple_without_bound() {
    let data = SuperSet::new(vec![vec![3, -1, 4, 1, -5, 9, 2]], vec![0i64]);
    let grouped = MetricL2::traits(data.clone());
    let simple = MetricL2Simple::traits(data);
    let a = vec![0, 0, 0, 0, 0, 0, 0];
    assert_eq!(grouped.eval_metric(&a, 0, 7, None), 137);
    assert_eq!(simple.eval_metric(&a, 0, 7), 137);
    assert_eq!(grouped.eval_metric(&a, 0, 7, Some(10)), 27);
}

#[test]
fn accum_dist_of_one_coordinate() {
    let data = SuperSet::new(vec![vec![0]], vec![0i64]);
    assert_eq!(MetricL1::traits(data.clone()).accum_dist(-3, 4, 0), 7);
    assert_eq!(MetricL2::traits(data.clone()).accum_dist(-3, 4, 0), 49);
    assert_eq!(MetricL2Simple::traits(data.clone()).accum_dist(5, 2, 0), 9);
    assert_eq!(MetricSO3::traits(data).accum_dist(5, 2, 0), 9);
}
