use bye_nanoflann::params::{KDTreeSingleIndexAdaptorFlags, KDTreeSingleIndexAdaptorParams};

#[test]
fn test_kd_tree_single_index_adaptor_flags() {
    let flag1 = KDTreeSingleIndexAdaptorFlags::NoFlags;
    let flag2 = KDTreeSingleIndexAdaptorFlags::SkipInitialBuildIndex;

    assert_eq!(flag1 & flag2, 0);
    assert_eq!(flag2 & flag2, 1);
}

#[test]
fn test_kd_tree_single_index_adaptor_params() {
    let params = KDTreeSingleIndexAdaptorParams::new(10, KDTreeSingleIndexAdaptorFlags::NoFlags, 1);

    assert_eq!(params.leaf_max_size, 10);
    assert_eq!(params.flags, KDTreeSingleIndexAdaptorFlags::NoFlags);
    assert_eq!(params.n_thread_build, 1);
}

#[test]
fn flag_bits() {
    assert_eq!(KDTreeSingleIndexAdaptorFlags::NoFlags.bits(), 0);
    assert_eq!(KDTreeSingleIndexAdaptorFlags::SkipInitialBuildIndex.bits(), 1);
    assert_eq!(KDTreeSingleIndexAdaptorFlags::NoFlags & KDTreeSingleIndexAdaptorFlags::NoFlags, 0);
}
