use bye_nanoflann::base::ArrayOrVector;

#[test]
fn array_or_vector_grows() {
    let mut v: ArrayOrVector<3, i32> = ArrayOrVector::new();
    assert!(v.is_empty());
    v.push(1);
    v.push(2);
    assert_eq!(v.len(), 2);
    assert_eq!(v.as_vec(), &vec![1, 2]);
    v.as_mut_vec().push(9);
    assert_eq!(v.as_vec(), &vec![1, 2, 9]);

    let mut d: ArrayOrVector<0, i32> = ArrayOrVector::new();
    for k in 0..10 {
        d.push(k);
    }
    assert_eq!(d.len(), 10);
}
