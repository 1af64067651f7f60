use bye_nanoflann::base::{Interval, Node, NodeType};
use bye_nanoflann::file::{Cursor, IoError};
use bye_nanoflann::kdtree::StaticKDTree;
use bye_nanoflann::sets::{KNNResultSet, SuperSet};
use bye_nanoflann::utils::HasPointData;

#[test]
fn test_static_kdtree_initialization() {
    let data_vec = vec![vec![1, 2, 3], vec![4, 5, 6], vec![7, 8, 9]];
    let distance_vec = vec![0i64, 0, 0];
    let mut dataset = SuperSet::new(data_vec, distance_vec);

    let kdtree = StaticKDTree::new(&mut dataset, 3, 2);

    assert!(kdtree.root_node().is_some());
    assert_eq!(kdtree.dim(), 3);
    assert_eq!(kdtree.leaf_max_size(), 2);
}

#[test]
fn test_search_level() {
    let data_vec = vec![
        vec![1, 2, 3],
        vec![4, 5, 6],
        vec![7, 8, 9],
        vec![10, 11, 12],
        vec![13, 14, 15],
    ];
    let distance_vec = vec![0i64, 0, 0, 0, 0];
    let mut dataset = SuperSet::new(data_vec, distance_vec);

    let kdtree = StaticKDTree::new(&mut dataset, 3, 2);

    // Distances are squared and integral; 10 stands for the search radius 10.0.
    let query_point = vec![5, 6, 7];
    let min_dist = 10;
    let eps_error = 0;
    let mut result_set = KNNResultSet::new(2);
    result_set.init(vec![0, 0], vec![0, 0]);

    if let Some(ref root) = kdtree.root_node() {
        let result = kdtree.search_level(&query_point, root, min_dist, eps_error, &mut result_set);

        assert!(result);
        assert!(!result_set.empty());
        let expected_indices = vec![vec![4, 5, 6], vec![7, 8, 9]];
        let actual_indices: Vec<Vec<i32>> =
            (0..result_set.size()).map(|k| dataset.get_point(result_set.index_at(k))).collect();
        for point in expected_indices {
            assert!(actual_indices.contains(&point));
        }
    } else {
        assert!(false);
    }
}

fn leaves(node: &Node, out: &mut Vec<(usize, usize)>) {
    match node.node_type {
        NodeType::Leaf { left, right } => out.push((left, right)),
        NodeType::NonLeaf { .. } => {
            leaves(node.child1.as_ref().unwrap(), out);
            leaves(node.child2.as_ref().unwrap(), out);
        }
    }
}

#[test]
fn leaves_cover_the_index_list_in_order() {
    let data = SuperSet::new(
        vec![vec![5, 0], vec![3, 1], vec![9, 2], vec![1, 3], vec![7, 4], vec![2, 5], vec![8, 6]],
        vec![0i64; 7],
    );
    let tree = StaticKDTree::new(&data, 2, 2);
    let mut ls = Vec::new();
    leaves(tree.root_node().as_ref().unwrap(), &mut ls);
    assert_eq!(ls, vec![(0, 1), (1, 3), (3, 5), (5, 7)]);
    // Split dimension is min(2, 2 - 1) = 1: the index list is sorted by the
    // second coordinate, which is already in order.
    assert_eq!(tree.index_acc(), &vec![0, 1, 2, 3, 4, 5, 6]);
    match tree.root_node().as_ref().unwrap().node_type {
        NodeType::NonLeaf { divfeat, divlow, divhigh } => assert_eq!((divfeat, divlow, divhigh), (1, 0, 6)),
        _ => panic!("expected an inner root"),
    }
    assert_eq!(tree.root_bbox(), &vec![Interval { low: 1, high: 9 }, Interval { low: 0, high: 6 }]);
    assert_eq!(tree.get_point_count(), 7);
}

#[test]
fn index_list_is_sorted_on_split_dimension() {
    let data = SuperSet::new(vec![vec![0, 9], vec![0, 3], vec![0, 7], vec![0, 3]], vec![0i64; 4]);
    let mut tree = StaticKDTree::new(&data, 2, 1);
    assert_eq!(tree.index_acc(), &vec![1, 3, 2, 0]);
    tree.update_index();
    assert_eq!(tree.index_acc(), &vec![1, 3, 2, 0]);
    assert!(tree.root_node().is_some());
}

#[test]
fn find_neighbors_fills_and_sorts() {
    let data = SuperSet::new(vec![vec![0, 0], vec![10, 10], vec![1, 1], vec![5, 5]], vec![0i64; 4]);
    let tree = StaticKDTree::new(&data, 2, 1);
    let mut rs = KNNResultSet::new(2);
    rs.init(vec![0, 0], vec![0, 0]);
    assert!(tree.find_neighbors(&vec![1, 1], 2, &mut rs));
    assert_eq!(rs.size(), 2);
    assert!(rs.dist_at(0) <= rs.dist_at(1));
    let mut rs2 = KNNResultSet::new(2);
    rs2.init(vec![0, 0], vec![0, 0]);
    assert!(!tree.find_neighbors(&vec![], 2, &mut rs2));
    assert!(rs2.empty());
}

#[test]
fn empty_data_set_gives_an_empty_leaf() {
    let data: SuperSet<i32, i64> = SuperSet::new(vec![], vec![]);
    let tree = StaticKDTree::new(&data, 3, 2);
    match tree.root_node().as_ref().unwrap().node_type {
        NodeType::Leaf { left, right } => assert_eq!((left, right), (0, 0)),
        _ => panic!("expected a leaf"),
    }
    assert_eq!(tree.root_bbox(), &vec![Interval { low: i32::MAX, high: i32::MIN }; 3]);
}

#[test]
fn saved_tree_loads_back() {
    let data = SuperSet::new(vec![vec![3, 1], vec![1, 2], vec![2, 0]], vec![0i64; 3]);
    let tree = StaticKDTree::new(&data, 2, 4);
    let mut bytes = Vec::new();
    assert!(tree.save_tree(&mut bytes).is_ok());
    // Bounding box (8 + 2 * 8), index list (8 + 3 * 8), leaf root (1 + 16 + 2).
    assert_eq!(bytes.len(), 24 + 32 + 19);

    let other_data = SuperSet::new(vec![vec![0, 0]], vec![0i64]);
    let mut other = StaticKDTree::new(&other_data, 2, 4);
    let mut cursor = Cursor::new(bytes);
    assert!(other.load_tree(&mut cursor).is_ok());
    assert_eq!(other.root_bbox(), tree.root_bbox());
    assert_eq!(other.index_acc(), tree.index_acc());
    match other.root_node().as_ref().unwrap().node_type {
        NodeType::Leaf { left, right } => assert_eq!((left, right), (0, 3)),
        _ => panic!("expected a leaf"),
    }
}

#[test]
fn truncated_tree_load_keeps_the_tree() {
    let data = SuperSet::new(vec![vec![3, 1], vec![1, 2]], vec![0i64; 2]);
    let mut tree = StaticKDTree::new(&data, 2, 4);
    let before_bbox = tree.root_bbox().clone();
    let mut cursor = Cursor::new(vec![1, 0, 0]);
    assert_eq!(tree.load_tree(&mut cursor), Err(IoError::UnexpectedEof));
    assert_eq!(tree.root_bbox(), &before_bbox);
    assert_eq!(tree.index_acc(), &vec![0, 1]);
}

#[test]
fn saved_index_loads_back() {
    let data = SuperSet::new(vec![vec![3, 1], vec![1, 2]], vec![0i64; 2]);
    let tree = StaticKDTree::new(&data, 2, 4);
    let mut bytes = Vec::new();
    assert!(tree.save_index(&mut bytes).is_ok());
    let mut other = StaticKDTree::new(&data, 2, 4);
    let mut cursor = Cursor::new(bytes);
    assert!(other.load_index(&mut cursor).is_ok());
    match other.root_node().as_ref().unwrap().node_type {
        NodeType::Leaf { left, right } => assert_eq!((left, right), (0, 2)),
        _ => panic!("expected a leaf"),
    }
}

#[test]
fn test_save_and_load_index() {
    let data_vec = vec![vec![1, 2, 3], vec![4, 5, 6], vec![7, 8, 9]];
    let distance_vec = vec![0i64, 0, 0];
    let mut dataset = SuperSet::new(data_vec, distance_vec);

    let kdtree = StaticKDTree::new(&mut dataset, 3, 2);

    // The library writes to and reads from byte buffers; files are the
    // application's business.
    let mut index_bytes = Vec::new();
    kdtree.save_index(&mut index_bytes).expect("Failed to save index");

    let data_vec2 = vec![vec![0, 0, 0], vec![0, 0, 6], vec![7, 8, 9]];
    let distance_vec2 = vec![0i64, 1, 0];
    let mut dataset2 = SuperSet::new(data_vec2, distance_vec2);
    let mut loaded_kdtree = StaticKDTree::new(&mut dataset2, 3, 2);
    let mut cursor = Cursor::new(index_bytes);
    loaded_kdtree.load_index(&mut cursor).expect("Failed to load index");

    assert!(loaded_kdtree.root_node().is_some());
}

#[test]
fn test_save_and_load_tree() {
    let data_vec = vec![vec![1, 2, 3], vec![4, 5, 6], vec![7, 8, 9]];
    let distance_vec = vec![0i64, 0, 0];
    let mut dataset = SuperSet::new(data_vec, distance_vec);

    let kdtree = StaticKDTree::new(&mut dataset, 3, 2);

    let mut tree_bytes = Vec::new();
    kdtree.save_tree(&mut tree_bytes).expect("Failed to save tree");

    let data_vec2 = vec![vec![0, 0, 0], vec![0, 0, 6], vec![7, 8, 9]];
    let distance_vec2 = vec![0i64, 1, 0];
    let mut dataset2 = SuperSet::new(data_vec2, distance_vec2);
    let mut loaded_kdtree = StaticKDTree::new(&mut dataset2, 3, 2);
    let mut cursor = Cursor::new(tree_bytes);
    loaded_kdtree.load_tree(&mut cursor).expect("Failed to load tree");

    assert!(loaded_kdtree.root_node().is_some());
    assert_eq!(loaded_kdtree.root_bbox().len(), kdtree.root_bbox().len());
    assert_eq!(loaded_kdtree.index_acc().len(), kdtree.index_acc().len());
}

fn shape(node: &Node) -> Vec<(usize, usize)> {
    let mut out = Vec::new();
    leaves(node, &mut out);
    out
}

#[test]
fn saved_index_keeps_children() {
    let data = SuperSet::new(vec![vec![1, 2, 3], vec![4, 5, 6], vec![7, 8, 9]], vec![0i64; 3]);
    let tree = StaticKDTree::new(&data, 3, 2);
    let mut bytes = Vec::new();
    tree.save_index(&mut bytes).unwrap();
    let other_data = SuperSet::new(vec![vec![0, 0, 0], vec![0, 0, 6], vec![7, 8, 9]], vec![0i64, 1, 0]);
    let mut other = StaticKDTree::new(&other_data, 3, 2);
    other.load_index(&mut Cursor::new(bytes)).unwrap();
    let saved = tree.root_node().as_ref().unwrap();
    let loaded = other.root_node().as_ref().unwrap();
    assert_eq!(saved.node_type, loaded.node_type);
    assert_eq!(shape(saved), vec![(0, 1), (1, 3)]);
    assert_eq!(shape(loaded), shape(saved));
}

#[test]
fn saved_tree_keeps_children() {
    let data = SuperSet::new(vec![vec![5, 0], vec![3, 1], vec![9, 2], vec![1, 3], vec![7, 4]], vec![0i64; 5]);
    let tree = StaticKDTree::new(&data, 2, 1);
    let mut bytes = Vec::new();
    tree.save_tree(&mut bytes).unwrap();
    let mut other = StaticKDTree::new(&data, 2, 4);
    other.load_tree(&mut Cursor::new(bytes)).unwrap();
    assert_eq!(other.root_bbox(), tree.root_bbox());
    assert_eq!(other.index_acc(), tree.index_acc());
    assert_eq!(shape(other.root_node().as_ref().unwrap()), shape(tree.root_node().as_ref().unwrap()));
}

#[test]
fn new_keeps_an_already_sorted_index() {
    let data = SuperSet::new(vec![vec![1, 2, 3], vec![4, 5, 6], vec![7, 8, 9], vec![10, 11, 12]], vec![0i64; 4]);
    let tree = StaticKDTree::new(&data, 3, 1);
    assert_eq!(tree.index_acc(), &vec![0, 1, 2, 3]);
}

#[test]
fn a_single_leaf_needs_no_split_coordinate() {
    let data: SuperSet<i32, i64> = SuperSet::new(vec![vec![]], vec![0i64]);
    let tree = StaticKDTree::new(&data, 2, 2);
    match tree.root_node().as_ref().unwrap().node_type {
        NodeType::Leaf { left, right } => assert_eq!((left, right), (0, 1)),
        _ => panic!("expected a leaf"),
    }
    let ragged = SuperSet::new(vec![vec![1, 2], vec![1]], vec![0i64; 2]);
    let tree = StaticKDTree::new(&ragged, 2, 2);
    assert_eq!(tree.index_acc(), &vec![0, 1]);
    assert_eq!(tree.root_bbox(), &vec![Interval { low: 1, high: 1 }, Interval { low: 2, high: 2 }]);
}

#[test]
fn an_empty_data_set_builds_with_empty_leaves() {
    let data: SuperSet<i32, i64> = SuperSet::new(vec![], vec![]);
    let tree = StaticKDTree::new(&data, 3, 0);
    match tree.root_node().as_ref().unwrap().node_type {
        NodeType::Leaf { left, right } => assert_eq!((left, right), (0, 0)),
        _ => panic!("expected a leaf"),
    }
}

#[test]
fn equal_coordinates_keep_their_order() {
    let data = SuperSet::new(vec![vec![0, 5], vec![0, 1], vec![0, 5], vec![0, 1], vec![0, 5]], vec![0i64; 5]);
    let tree = StaticKDTree::new(&data, 2, 1);
    assert_eq!(tree.index_acc(), &vec![1, 3, 0, 2, 4]);
}
