use bye_nanoflann::base::{Interval, Node, NodeType};
use bye_nanoflann::file::{
    load_value, load_vector, save_value, save_vector, Cursor, Deserialize, IoError, Serialize,
};

#[test]
fn test_node_serialization_deserialization() {
    let leaf_node = Node { node_type: NodeType::Leaf { left: 10, right: 20 }, child1: None, child2: None };

    // Coordinates are integers here: 1 and 2 stand for 1.0 and 2.0.
    let non_leaf_node = Node {
        node_type: NodeType::NonLeaf { divfeat: 5, divlow: 1, divhigh: 2 },
        child1: Some(Box::new(leaf_node)),
        child2: None,
    };

    let mut buffer = Vec::new();
    non_leaf_node.serialize(&mut buffer).unwrap();

    let mut cursor = Cursor::new(buffer);
    let deserialized_node = Node::deserialize(&mut cursor).unwrap();

    match deserialized_node.node_type {
        NodeType::NonLeaf { divfeat, divlow, divhigh } => {
            assert_eq!(divfeat, 5);
            assert_eq!(divlow, 1);
            assert_eq!(divhigh, 2);
        }
        _ => panic!("Expected NonLeaf node type"),
    }

    assert!(deserialized_node.child1.is_some());
    assert!(deserialized_node.child2.is_none());

    if let Some(child1) = deserialized_node.child1 {
        match child1.node_type {
            NodeType::Leaf { left, right } => {
                assert_eq!(left, 10);
                assert_eq!(right, 20);
            }
            _ => panic!("Expected Leaf node type"),
        }
    }
}

#[test]
fn test_interval_vec_serialization_deserialization() {
    let intervals = vec![Interval { low: 1, high: 2 }, Interval { low: 3, high: 4 }];

    let mut buffer = Vec::new();
    intervals.serialize(&mut buffer).unwrap();

    let mut cursor = Cursor::new(buffer);
    let deserialized_intervals = Vec::<Interval>::deserialize(&mut cursor).unwrap();

    assert_eq!(deserialized_intervals.len(), 2);
    assert_eq!(deserialized_intervals[0].low, 1);
    assert_eq!(deserialized_intervals[0].high, 2);
    assert_eq!(deserialized_intervals[1].low, 3);
    assert_eq!(deserialized_intervals[1].high, 4);
}

#[test]
fn test_usize_vec_serialization_deserialization() {
    let vec: Vec<usize> = vec![1, 2, 3, 4, 5];

    let mut buffer = Vec::new();
    vec.serialize(&mut buffer).unwrap();

    let mut cursor = Cursor::new(buffer);
    let deserialized_vec = Vec::<usize>::deserialize(&mut cursor).unwrap();

    assert_eq!(deserialized_vec.len(), 5);
    assert_eq!(deserialized_vec[0], 1);
    assert_eq!(deserialized_vec[1], 2);
    assert_eq!(deserialized_vec[2], 3);
    assert_eq!(deserialized_vec[3], 4);
    assert_eq!(deserialized_vec[4], 5);
}

#[test]
fn test_box_serialization_deserialization() {
    let boxed_value = Box::new(42 as usize);

    let mut buffer = Vec::new();
    boxed_value.serialize(&mut buffer).unwrap();

    let mut cursor = Cursor::new(buffer);
    let deserialized_box = Box::<usize>::deserialize(&mut cursor).unwrap();

    assert_eq!(*deserialized_box, 42);
}

#[test]
fn usize_bytes_are_little_endian() {
    let mut buffer = Vec::new();
    save_value(&mut buffer, &0x0102usize).unwrap();
    assert_eq!(buffer, vec![2, 1, 0, 0, 0, 0, 0, 0]);
}

#[test]
fn negative_coordinates_round_trip() {
    let node = Node { node_type: NodeType::NonLeaf { divfeat: -1, divlow: i32::MIN, divhigh: -7 }, child1: None, child2: None };
    let mut buffer = Vec::new();
    save_value(&mut buffer, &node).unwrap();
    assert_eq!(buffer.len(), 15);
    assert_eq!(&buffer[1..5], &[0xff, 0xff, 0xff, 0xff]);
    let mut cursor = Cursor::new(buffer);
    let back: Node = load_value(&mut cursor).unwrap();
    assert_eq!(back.node_type, node.node_type);
    assert!(back.child1.is_none() && back.child2.is_none());
}

#[test]
fn short_input_is_unexpected_eof() {
    let mut cursor = Cursor::new(vec![1, 2, 3]);
    assert_eq!(usize::deserialize(&mut cursor).unwrap_err(), IoError::UnexpectedEof);
    let mut cursor = Cursor::new(vec![5, 0, 0, 0, 0, 0, 0, 0, 1]);
    assert_eq!(Vec::<usize>::deserialize(&mut cursor).unwrap_err(), IoError::UnexpectedEof);
}

#[test]
fn unknown_node_tag_is_invalid_data() {
    let mut cursor = Cursor::new(vec![7, 0, 0]);
    assert_eq!(Node::deserialize(&mut cursor).unwrap_err(), IoError::InvalidData);
}

#[test]
fn byte_vectors_round_trip_into_sized_items() {
    let items = vec![vec![1u8, 2], vec![3u8]];
    let mut buffer = Vec::new();
    save_vector(&mut buffer, &items).unwrap();
    assert_eq!(buffer, vec![2, 0, 0, 0, 0, 0, 0, 0, 1, 2, 3]);
    let mut target = vec![vec![0u8, 0], vec![0u8], vec![9u8]];
    let mut cursor = Cursor::new(buffer);
    load_vector(&mut cursor, &mut target).unwrap();
    assert_eq!(target, items);
    let mut empty_items: Vec<Vec<u8>> = Vec::new();
    let mut cursor = Cursor::new(vec![1, 0, 0, 0, 0, 0, 0, 0]);
    load_vector(&mut cursor, &mut empty_items).unwrap();
    assert_eq!(empty_items, vec![Vec::<u8>::new()]);
}

fn same_tree(a: &Node, b: &Node) -> bool {
    let children = |x: &Option<Box<Node>>, y: &Option<Box<Node>>| match (x, y) {
        (Some(x), Some(y)) => same_tree(x, y),
        (None, None) => true,
        _ => false,
    };
    a.node_type == b.node_type && children(&a.child1, &b.child1) && children(&a.child2, &b.child2)
}

#[test]
fn whole_trees_round_trip() {
    let leaf = |l: usize, r: usize| Box::new(Node { node_type: NodeType::Leaf { left: l, right: r }, child1: None, child2: None });
    let inner = Node {
        node_type: NodeType::NonLeaf { divfeat: 1, divlow: 3, divhigh: 9 },
        child1: Some(Box::new(Node {
            node_type: NodeType::NonLeaf { divfeat: 0, divlow: -2, divhigh: 4 },
            child1: Some(leaf(0, 2)),
            child2: Some(leaf(2, 4)),
        })),
        child2: Some(leaf(4, 7)),
    };
    let mut buffer = Vec::new();
    inner.serialize(&mut buffer).unwrap();
    buffer.push(42);
    let mut cursor = Cursor::new(buffer);
    let back = Node::deserialize(&mut cursor).unwrap();
    assert!(same_tree(&back, &inner));
    // Exactly the node's bytes were read: the trailing byte is next.
    assert_eq!(u8_after(&mut cursor), 42);
}

fn u8_after(cursor: &mut Cursor) -> u8 {
    cursor.read_exact(1).unwrap()[0]
}

#[test]
fn inner_node_bytes_mark_each_child() {
    let node = Node {
        node_type: NodeType::NonLeaf { divfeat: 5, divlow: 1, divhigh: 2 },
        child1: Some(Box::new(Node { node_type: NodeType::Leaf { left: 10, right: 20 }, child1: None, child2: None })),
        child2: None,
    };
    let mut buffer = Vec::new();
    node.serialize(&mut buffer).unwrap();
    // Own fields (13), marker 1, the leaf (17 + 2), no second child (1).
    assert_eq!(buffer.len(), 13 + 1 + 19 + 1);
    assert_eq!(buffer[13], 1);
    assert_eq!(buffer[14], 0);
    assert_eq!(buffer[33], 0);
}

#[test]
fn bad_tag_reads_one_byte() {
    let mut cursor = Cursor::new(vec![7, 9]);
    assert_eq!(Node::deserialize(&mut cursor).unwrap_err(), IoError::InvalidData);
    assert_eq!(u8_after(&mut cursor), 9);
}

#[test]
fn fixed_width_items_round_trip() {
    let items: Vec<[u8; 3]> = vec![[1, 2, 3], [4, 5, 6]];
    let mut buffer = Vec::new();
    save_vector(&mut buffer, &items).unwrap();
    assert_eq!(buffer, vec![2, 0, 0, 0, 0, 0, 0, 0, 1, 2, 3, 4, 5, 6]);
    let mut target: Vec<[u8; 3]> = vec![[9, 9, 9]; 5];
    let mut cursor = Cursor::new(buffer);
    load_vector(&mut cursor, &mut target).unwrap();
    assert_eq!(target, items);
    let mut fresh: Vec<[u8; 3]> = Vec::new();
    let mut cursor = Cursor::new(vec![1, 0, 0, 0, 0, 0, 0, 0, 7, 8, 9]);
    load_vector(&mut cursor, &mut fresh).unwrap();
    assert_eq!(fresh, vec![[7, 8, 9]]);
}

#[test]
fn short_count_leaves_the_vector_alone() {
    let mut target = vec![vec![1u8, 2], vec![3u8]];
    let mut cursor = Cursor::new(vec![2, 0, 0]);
    assert_eq!(load_vector(&mut cursor, &mut target), Err(IoError::UnexpectedEof));
    assert_eq!(target, vec![vec![1u8, 2], vec![3u8]]);
    let mut arrays: Vec<[u8; 2]> = vec![[1, 1]];
    let mut cursor = Cursor::new(vec![2, 0, 0, 0, 0, 0, 0, 0, 5, 6, 7]);
    assert_eq!(load_vector(&mut cursor, &mut arrays), Err(IoError::UnexpectedEof));
    assert_eq!(arrays.len(), 2);
}

#[test]
fn bad_child_tag_stops_after_that_byte() {
    // An inner node's own fields, marker 1 for a first child, then a bad tag.
    let mut bytes = vec![1u8, 0, 0, 0, 0, 1, 0, 0, 0, 2, 0, 0, 0];
    bytes.extend_from_slice(&[1, 7, 99]);
    let mut cursor = Cursor::new(bytes);
    assert_eq!(Node::deserialize(&mut cursor).unwrap_err(), IoError::InvalidData);
    assert_eq!(u8_after(&mut cursor), 99);
}
