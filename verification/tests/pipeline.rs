use svo::node::{BuildError, LeafRec, TreeNode};
use svo::tree::Tree;

fn leaf(coord: u64, meta: u32) -> LeafRec {
    LeafRec { coord, meta }
}

#[test]
fn single_leaf_depth_two() {
    // One occupied slot out of eight: a parent whose slot 3 points at
    // the leaf record laid out right after it.
    let t = Tree::build(vec![leaf(3, 7)], 2).unwrap();
    assert_eq!(t.nodes.len(), 2);
    assert_eq!(
        t.nodes[0],
        TreeNode::Parent(vec![0, 0, 0, 1, 0, 0, 0, 0])
    );
    assert_eq!(t.nodes[1], TreeNode::Leaf(7));
}

#[test]
fn full_uniform_depth_two() {
    // All eight slots with one metadata value merge into a single leaf.
    let leaves: Vec<LeafRec> = (0u64..8).map(|c| leaf(c, 9)).collect();
    let t = Tree::build(leaves, 2).unwrap();
    assert_eq!(t.nodes.len(), 1);
    assert_eq!(t.nodes[0], TreeNode::Leaf(9));
}

#[test]
fn empty_input_single_empty_node() {
    for depth in 1..=6u8 {
        let t = Tree::build(Vec::new(), depth).unwrap();
        assert_eq!(t.nodes.len(), 1);
        assert_eq!(t.nodes[0], TreeNode::Empty);
    }
}

#[test]
fn build_is_deterministic_under_reordering() {
    let a = vec![leaf(5, 1), leaf(63, 2), leaf(0, 3), leaf(17, 4)];
    let b = vec![leaf(17, 4), leaf(0, 3), leaf(63, 2), leaf(5, 1)];
    let ta = Tree::build(a, 3).unwrap();
    let tb = Tree::build(b, 3).unwrap();
    assert_eq!(ta.nodes, tb.nodes);
}

#[test]
fn root_is_first_and_array_nonempty() {
    let t = Tree::build(vec![leaf(100, 1), leaf(101, 1)], 4).unwrap();
    assert!(t.nodes.len() >= 1);
    match &t.nodes[0] {
        TreeNode::Parent(ptrs) => assert_eq!(ptrs.len(), 8),
        other => panic!("root of a sparse tree should be a parent, got {:?}", other),
    }
}

#[test]
fn child_pointers_are_forward_and_in_bounds() {
    let leaves = vec![
        leaf(0, 1),
        leaf(7, 2),
        leaf(8, 3),
        leaf(70, 4),
        leaf(300, 5),
        leaf(511, 6),
    ];
    let t = Tree::build(leaves, 4).unwrap();
    let n = t.nodes.len();
    for (i, node) in t.nodes.iter().enumerate() {
        if let TreeNode::Parent(ptrs) = node {
            assert_eq!(ptrs.len(), 8);
            for &p in ptrs {
                assert!(p == 0 || (p > i && p < n));
            }
        }
    }
}

#[test]
fn walk_returns_each_inserted_metadata() {
    let leaves = vec![leaf(0, 10), leaf(7, 20), leaf(8, 30), leaf(63, 40), leaf(200, 50)];
    let t = Tree::build(leaves.clone(), 4).unwrap();
    for l in &leaves {
        assert_eq!(t.get(l.coord), Some(l.meta));
    }
    assert_eq!(t.get(1), None);
    assert_eq!(t.get(100), None);
    assert_eq!(t.get(511), None);
}

#[test]
fn walk_on_merged_region_returns_shared_metadata() {
    // Slots 0..8 all carry 4: the octant merges, and every one of its
    // codes still reads back 4 through the merged leaf.
    let mut leaves: Vec<LeafRec> = (0u64..8).map(|c| leaf(c, 4)).collect();
    leaves.push(leaf(60, 5));
    let t = Tree::build(leaves, 3).unwrap();
    for c in 0u64..8 {
        assert_eq!(t.get(c), Some(4));
    }
    assert_eq!(t.get(60), Some(5));
    assert_eq!(t.get(32), None);
}

#[test]
fn too_many_leaves_rejected() {
    let leaves: Vec<LeafRec> = (0u64..9).map(|c| leaf(c, 1)).collect();
    assert_eq!(Tree::build(leaves, 2), Err(BuildError::TooManyLeaves));
}

#[test]
fn out_of_range_coordinate_rejected() {
    assert_eq!(
        Tree::build(vec![leaf(8, 1)], 2),
        Err(BuildError::CoordOutOfRange)
    );
}

#[test]
fn duplicate_coordinate_rejected() {
    assert_eq!(
        Tree::build(vec![leaf(3, 1), leaf(3, 2)], 2),
        Err(BuildError::DuplicateCoord)
    );
    // The same coordinate twice is rejected even with equal metadata.
    assert_eq!(
        Tree::build(vec![leaf(3, 1), leaf(3, 1)], 2),
        Err(BuildError::DuplicateCoord)
    );
}

#[test]
fn oversize_wins_over_other_faults() {
    // Nine records with a duplicate among them: the size fault is the
    // one reported.
    let mut leaves: Vec<LeafRec> = (0u64..8).map(|c| leaf(c, 1)).collect();
    leaves.push(leaf(0, 2));
    assert_eq!(Tree::build(leaves, 2), Err(BuildError::TooManyLeaves));
}

#[test]
fn partial_uniform_octant_merges_inside_larger_tree() {
    // Depth 3: codes 8..16 form one uniform octant (merged), code 0
    // stays a lone leaf.
    let mut leaves: Vec<LeafRec> = (8u64..16).map(|c| leaf(c, 2)).collect();
    leaves.push(leaf(0, 1));
    let t = Tree::build(leaves, 3).unwrap();
    // Root parent, its two children: slot 0's octant is a parent with
    // one leaf, slot 1's octant merged to a single leaf.
    assert_eq!(t.get(0), Some(1));
    for c in 8u64..16 {
        assert_eq!(t.get(c), Some(2));
    }
    let parents = t
        .nodes
        .iter()
        .filter(|n| matches!(n, TreeNode::Parent(_)))
        .count();
    let merged_leaves = t
        .nodes
        .iter()
        .filter(|n| matches!(n, TreeNode::Leaf(m) if *m == 2))
        .count();
    assert_eq!(parents, 2);
    assert_eq!(merged_leaves, 1);
}

#[test]
fn deepest_supported_tree() {
    // Depth 11 addresses 8^10 codes; the two extreme corners resolve
    // through ten levels of parents.
    let top = 8u64.pow(10) - 1;
    let t = Tree::build(vec![leaf(0, 1), leaf(top, 2)], 11).unwrap();
    assert_eq!(t.get(0), Some(1));
    assert_eq!(t.get(top), Some(2));
    assert_eq!(t.get(1), None);
    assert_eq!(t.nodes.len(), 21);
}
