use bye_nanoflann::sets::ResultItem;
use bye_nanoflann::utils::{assign, assign_fixed, resize, resize_fixed, Abs, HasAssign, HasSize, MaxValue};

#[test]
fn test_resize_fixed_no_panic() {
    let mut arr = [1, 2, 3];
    resize_fixed(&mut arr, 3);
    assert_eq!(arr, [1, 2, 3], "Fixed-size container should not change");
}

#[test]
fn test_assign_vector() {
    let mut v = vec![1, 2, 3];
    assign(&mut v, 5, 0);
    assert_eq!(v, vec![0, 0, 0, 0, 0], "Vector was not assigned correctly");
}

#[test]
fn test_assign_fixed() {
    let mut arr = [1, 2, 3];
    assign_fixed(&mut arr, 3, 0);
    assert_eq!(arr, [0, 0, 0], "Fixed-size container was not assigned correctly");
}

#[test]
fn test_has_distance_trait() {
    let item = ResultItem::new(1, 2.5);
    assert_eq!(item.distance(), 2.5, "HasPointData trait implementation is incorrect");
}

#[test]
fn test_has_size_trait() {
    let v = vec![1, 2, 3];
    assert_eq!(v.size(), 3, "HasSize trait implementation is incorrect");
}

#[test]
fn test_has_resize_trait() {
    let mut v = vec![1, 2, 3];
    v.resize(5, 0);
    assert_eq!(v.len(), 5, "HasResize trait implementation is incorrect");
}

#[test]
fn test_has_assign_trait() {
    let mut v = vec![1, 2, 3];
    v.assign(5, 0);
    assert_eq!(v, vec![0, 0, 0, 0, 0], "HasAssign trait implementation is incorrect");
}

#[test]
fn test_abs_f32() {
    let x: f32 = -3.14;
    assert_eq!(x.abs(), 3.14);

    let y: f32 = 2.71;
    assert_eq!(y.abs(), 2.71);

    let z: f32 = 0.0;
    assert_eq!(z.abs(), 0.0);
}

#[test]
fn test_abs_f64() {
    let x: f64 = -3.14;
    assert_eq!(x.abs(), 3.14);

    let y: f64 = 2.71;
    assert_eq!(y.abs(), 2.71);

    let z: f64 = 0.0;
    assert_eq!(z.abs(), 0.0);
}

#[test]
fn resize_grows_with_defaults_and_shrinks() {
    let mut v = vec![1, 2, 3];
    resize(&mut v, 5);
    assert_eq!(v, vec![1, 2, 3, 0, 0]);
    resize(&mut v, 2);
    assert_eq!(v, vec![1, 2]);
}

#[test]
fn assign_fixed_prefix_only() {
    let mut arr = [1, 2, 3, 4];
    assign_fixed(&mut arr, 2, 9);
    assert_eq!(arr, [9, 9, 3, 4]);
    assert_eq!(arr.size(), 4);
}

#[test]
fn integer_abs_and_max() {
    assert_eq!(Abs::abs(&-5i32), 5);
    assert_eq!(Abs::abs(&7i64), 7);
    assert_eq!(<i32 as MaxValue>::max_value(), i32::MAX);
    assert_eq!(<u64 as MaxValue>::max_value(), u64::MAX);
}
