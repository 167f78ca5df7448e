//! The guarantees of the builder, stated once over the model that
//! [`crate::tree::Tree::build`]'s contract speaks of: determinism,
//! totality of the root, the two collapse laws, pointer validity, and
//! the round trip from input occupancy through the finished array.

use vstd::prelude::*;
use crate::builder::distinct_coords;
use crate::builder::lemma_occ_at;
use crate::builder::lemma_occ_of_perm;
use crate::builder::occ_of;
use crate::layout::GNode;
use crate::layout::flat;
use crate::layout::glookup;
use crate::layout::gnode_of;
use crate::layout::gvalid;
use crate::layout::lemma_flat_glookup;
use crate::layout::lemma_flat_valid;
use crate::layout::lemma_r_len;
use crate::layout::lemma_snode_wf;
use crate::model::SNode;
use crate::model::lemma_snode_covered;
use crate::model::lemma_snode_vacant;
use crate::model::pow8;
use crate::model::snode;
use crate::node::LeafRec;

verus! {

/// Some record of `s` occupies the Morton code `c`.
pub open spec fn covers(s: Seq<LeafRec>, c: int) -> bool {
    exists|i: int| 0 <= i < s.len() && #[trigger] s[i].coord as int == c
}

/// Determinism: two batches holding the same records, in any order,
/// build identical arrays. Together with `Tree::build`'s contract —
/// the output array is exactly `flat(snode(occ_of(input), ..))` — this
/// pins the output of every rebuild.
pub proof fn lemma_build_deterministic(l1: Seq<LeafRec>, l2: Seq<LeafRec>, k: nat)
    requires
        l1.to_multiset() == l2.to_multiset(),
        distinct_coords(l1),
    ensures
        flat(snode(occ_of(l1), 0, pow8(k))) == flat(snode(occ_of(l2), 0, pow8(k))),
{
    lemma_occ_of_perm(l1, l2);
}

/// Root totality: for every occupancy and depth the finished array is
/// non-empty, and its entry 0 is the record of the canonical tree's
/// root.
pub proof fn lemma_root_totality(occ: Map<int, u32>, k: nat)
    ensures
        flat(snode(occ, 0, pow8(k))).len() >= 1,
        flat(snode(occ, 0, pow8(k)))[0] == gnode_of(snode(occ, 0, pow8(k)), 1),
{
    lemma_r_len(snode(occ, 0, pow8(k)), 1);
}

/// The empty-input law: an empty batch builds the one-entry array
/// holding a single `Empty` root.
pub proof fn lemma_empty_input(k: nat)
    ensures
        flat(snode(occ_of(Seq::empty()), 0, pow8(k))) == seq![GNode::Empty],
{
    let occ = occ_of(Seq::<LeafRec>::empty());
    assert forall|c: int| 0 <= c < pow8(k) implies !occ.dom().contains(c) by {
        if occ.dom().contains(c) {
            let i = choose|i: int|
                0 <= i < Seq::<LeafRec>::empty().len() && #[trigger] Seq::<
                    LeafRec,
                >::empty()[i].coord as int == c;
            assert(false);
        }
    }
    lemma_snode_vacant(occ, 0, k);
    assert(flat(SNode::Empty) =~= seq![GNode::Empty]);
}

/// The uniform-input law: a batch that fills every Morton slot of the
/// addressable range with one metadata value builds the one-entry
/// array holding a single merged `Leaf`.
pub proof fn lemma_uniform_input(s: Seq<LeafRec>, k: nat, m: u32)
    requires
        distinct_coords(s),
        forall|i: int| 0 <= i < s.len() ==> #[trigger] s[i].meta == m,
        forall|c: int| 0 <= c < pow8(k) ==> #[trigger] covers(s, c),
    ensures
        flat(snode(occ_of(s), 0, pow8(k))) == seq![GNode::Leaf(m)],
{
    let occ = occ_of(s);
    assert forall|c: int| 0 <= c < pow8(k) implies #[trigger] occ.dom().contains(c) && occ[c]
        == m by {
        assert(covers(s, c));
        let i = choose|i: int| 0 <= i < s.len() && #[trigger] s[i].coord as int == c;
        assert(occ.dom().contains(c));
        let j = choose|j: int| 0 <= j < s.len() && #[trigger] s[j].coord as int == c;
        assert(occ[c] == s[j].meta);
    }
    lemma_snode_covered(occ, 0, k, m);
    assert(flat(SNode::Leaf(m)) =~= seq![GNode::Leaf(m)]);
}

/// Child-pointer validity: in the finished array, every non-zero child
/// index of every parent entry is a valid index, strictly greater than
/// the parent's own index and less than the array length.
pub proof fn lemma_child_pointer_validity(occ: Map<int, u32>, k: nat)
    ensures
        forall|p: int|
            0 <= p < flat(snode(occ, 0, pow8(k))).len() ==> gvalid(
                #[trigger] flat(snode(occ, 0, pow8(k)))[p],
                p,
                flat(snode(occ, 0, pow8(k))).len() as int,
            ),
{
    lemma_snode_wf(occ, 0, k);
    lemma_flat_valid(snode(occ, 0, pow8(k)), k);
}

/// Round-trip occupancy, one direction per record: walking the
/// finished array from the root to any occupied input coordinate
/// reaches a leaf holding that record's metadata.
pub proof fn lemma_round_trip(s: Seq<LeafRec>, k: nat, i: int)
    requires
        distinct_coords(s),
        0 <= i < s.len(),
        (s[i].coord as int) < pow8(k),
    ensures
        glookup(
            flat(snode(occ_of(s), 0, pow8(k))),
            0,
            0,
            pow8(k),
            s[i].coord as int,
        ) == Some(s[i].meta),
{
    lemma_occ_at(s, i);
    lemma_flat_glookup(occ_of(s), k, s[i].coord as int);
}

/// The converse direction: walking to any unoccupied coordinate of the
/// addressable range ends at `None`.
pub proof fn lemma_round_trip_vacant(s: Seq<LeafRec>, k: nat, c: int)
    requires
        0 <= c < pow8(k),
        forall|i: int| 0 <= i < s.len() ==> #[trigger] s[i].coord as int != c,
    ensures
        glookup(flat(snode(occ_of(s), 0, pow8(k))), 0, 0, pow8(k), c) is None,
{
    let occ = occ_of(s);
    if occ.dom().contains(c) {
        let i = choose|i: int| 0 <= i < s.len() && #[trigger] s[i].coord as int == c;
    }
    lemma_flat_glookup(occ, k, c);
}

} // verus!
