use bye_nanoflann::pointcloud::{
    generate_random_point_cloud, generate_random_point_cloud_ranges, Point, PointCloud, PointCloudOrient,
    PointCloudQuat, PointOrient, PointQuat,
};
use bye_nanoflann::utils::HasPointData;

#[test]
fn test_point_cloud() {
    let mut pc: PointCloud<i32> = PointCloud { pts: Vec::new() };
    generate_random_point_cloud(&mut pc, 100, 10);
    assert_eq!(pc.kdtree_get_point_count(), 100);
}

#[test]
fn random_points_stay_in_range() {
    let mut pc: PointCloud<i32> = PointCloud { pts: vec![Point { x: 50, y: 50, z: 50 }] };
    generate_random_point_cloud_ranges(&mut pc, 200, 3, 1, 7);
    assert_eq!(pc.pts.len(), 200);
    for p in &pc.pts {
        assert!(0 <= p.x && p.x < 3);
        assert_eq!(p.y, 0);
        assert!(0 <= p.z && p.z < 7);
    }
    generate_random_point_cloud(&mut pc, 0, 0);
    assert_eq!(pc.kdtree_get_point_count(), 0);
}

#[test]
fn coordinates_by_dimension() {
    let pc = PointCloud { pts: vec![Point { x: 1, y: 2, z: 3 }, Point { x: 4, y: 5, z: 6 }] };
    assert_eq!(*pc.kdtree_get_pt(1, 0), 4);
    assert_eq!(*pc.kdtree_get_pt(1, 2), 6);
    assert_eq!(pc.get_point(0), vec![1, 2, 3]);
    assert_eq!(pc.get_point_dim(0, 1), 2);
    let mut bb = 0u8;
    assert!(!pc.kdtree_get_bbox(&mut bb));

    let q = PointCloudQuat { pts: vec![PointQuat { w: 1, x: 2, y: 3, z: 4 }] };
    assert_eq!(q.kdtree_get_point_count(), 1);
    assert_eq!(*q.kdtree_get_pt(0, 0), 1);
    assert_eq!(*q.kdtree_get_pt(0, 3), 4);
    assert!(!q.kdtree_get_bbox(&mut bb));

    let o = PointCloudOrient { pts: vec![PointOrient { theta: 7 }, PointOrient { theta: -2 }] };
    assert_eq!(o.kdtree_get_point_count(), 2);
    assert_eq!(*o.kdtree_get_pt(1, 5), -2);
    assert!(!o.kdtree_get_bbox(&mut bb));
}
