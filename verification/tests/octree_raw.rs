use svo::morton;
use svo::octree::{RawSVO, SVO};

#[test]
fn tree_build() {
    let mut morton_list = Vec::new();
    for x in 0..1 {
        for y in 0..1 {
            for z in 0..1 {
                morton_list.push(morton::encode(x, y, z));
            }
        }
    }

    let tree = SVO::build_from_vec(morton_list);
    println!("{:?}", tree);
}

#[test]
fn tree_build_raw() {
    let mut morton_list = Vec::new();
    for x in 0..8 {
        for y in 0..16 {
            for z in 0..10 {
                morton_list.push(morton::encode(x, y, z));
            }
        }
    }

    let tree = RawSVO::from(SVO::build_from_vec(morton_list));
    println!("{:?}", tree);
}

#[test]
fn raw_single_leaf_words() {
    // One inserted code at the origin of a depth-5 tree: a chain of
    // three parents, each pointing one word ahead, then the bottom
    // node, a leaf-equivalent word with slot 0 valid and leaf.
    let tree = RawSVO::from(SVO::build_from_vec(vec![morton::encode(0, 0, 0)]));
    let w = tree.words();
    assert_eq!(w.len(), 4);
    assert_eq!(w[0], (1u64 << 49) | (1u64 << 40));
    assert_eq!(w[1], (2u64 << 49) | (1u64 << 40));
    assert_eq!(w[2], (3u64 << 49) | (1u64 << 40));
    assert_eq!(w[3], (1u64 << 40) | (1u64 << 32));
}

#[test]
fn raw_full_octant_merges_to_leaf_bit() {
    // The eight lowest codes fill the bottom node: it merges into a
    // leaf bit of its parent, whose word then carries no child.
    let codes: Vec<_> = (0u16..2)
        .flat_map(|x| (0u16..2).flat_map(move |y| (0u16..2).map(move |z| morton::encode(x, y, z))))
        .collect();
    let tree = RawSVO::from(SVO::build_from_vec(codes));
    let w = tree.words();
    assert_eq!(w.len(), 3);
    assert_eq!(w[0], (1u64 << 49) | (1u64 << 40));
    assert_eq!(w[1], (2u64 << 49) | (1u64 << 40));
    // Bottom-most remaining node: slot 0 valid and leaf, no offset.
    assert_eq!(w[2], (1u64 << 40) | (1u64 << 32));
}

#[test]
fn insert_two_codes_shares_prefix() {
    let mut tree = SVO::default();
    tree.insert_node(morton::encode(0, 0, 0));
    tree.insert_node(morton::encode(1, 0, 0));
    let raw = RawSVO::from(tree);
    let w = raw.words();
    // Codes 0 and 1 share every level: one chain of three parents and
    // one bottom node carrying two leaf bits.
    assert_eq!(w.len(), 4);
    assert_eq!(w[3], (3u64 << 40) | (3u64 << 32));
}

#[test]
fn raw_empty_tree_single_zero_word() {
    let raw = RawSVO::from(SVO::default());
    assert_eq!(raw.words().len(), 1);
    assert_eq!(raw.words()[0], 0u64);
}

#[test]
fn raw_full_space_single_leaf_word() {
    // Every one of the 4096 addressable codes occupied: the whole
    // space merges bottom-up into one full-mask root word.
    let mut codes = Vec::new();
    for x in 0..16u16 {
        for y in 0..16u16 {
            for z in 0..16u16 {
                codes.push(morton::encode(x, y, z));
            }
        }
    }
    let raw = RawSVO::from(SVO::build_from_vec(codes));
    assert_eq!(raw.words().len(), 1);
    assert_eq!(raw.words()[0], (0xffu64 << 40) | (0xffu64 << 32));
}

#[test]
fn raw_build_is_order_independent() {
    let a: Vec<_> = [0u16, 3, 5, 7, 9, 11]
        .iter()
        .map(|&x| morton::encode(x, 1, 2))
        .collect();
    let mut b = a.clone();
    b.reverse();
    let wa = RawSVO::from(SVO::build_from_vec(a));
    let wb = RawSVO::from(SVO::build_from_vec(b));
    assert_eq!(wa.words(), wb.words());
}
