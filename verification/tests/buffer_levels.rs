use svo::buffer::LevelBuffer;
use svo::node::OctNode;

#[test]
fn fills_after_eight_pushes() {
    let mut b = LevelBuffer::new();
    for i in 0..8 {
        let full = b.push(OctNode::Leaf(i));
        assert_eq!(full, i == 7);
    }
    assert_eq!(b.len(), 8);
}

#[test]
fn empty_group_detected() {
    let mut b = LevelBuffer::new();
    assert!(b.is_empty());
    for _ in 0..8 {
        b.push(OctNode::Empty);
    }
    assert!(b.is_empty());
    assert!(!b.is_uniform());
}

#[test]
fn uniform_group_detected() {
    let mut b = LevelBuffer::new();
    for _ in 0..8 {
        b.push(OctNode::Leaf(5));
    }
    assert!(b.is_uniform());
    assert!(!b.is_empty());
}

#[test]
fn mixed_group_is_neither() {
    let mut b = LevelBuffer::new();
    for i in 0..8 {
        b.push(if i == 3 { OctNode::Leaf(1) } else { OctNode::Empty });
    }
    assert!(!b.is_empty());
    assert!(!b.is_uniform());
}

#[test]
fn unequal_leaves_are_not_uniform() {
    let mut b = LevelBuffer::new();
    for i in 0..8 {
        b.push(OctNode::Leaf(if i == 7 { 2 } else { 1 }));
    }
    assert!(!b.is_uniform());
}

#[test]
fn drain_returns_slots_in_order_and_resets() {
    let mut b = LevelBuffer::new();
    for i in 0..8u32 {
        b.push(OctNode::Leaf(i));
    }
    let out = b.drain();
    assert_eq!(out.len(), 8);
    for (i, n) in out.iter().enumerate() {
        match n {
            OctNode::Leaf(m) => assert_eq!(*m as usize, i),
            other => panic!("expected a leaf, got {:?}", other),
        }
    }
    assert_eq!(b.len(), 0);
    assert!(b.is_empty());
}
