//! The array layout of the logical tree.
//!
//! The builder emits nodes so that, in the finished array, the root sits
//! at index 0, the records of a parent's non-empty children sit in
//! ascending slot order at the start of the parent's descendant block,
//! and the children's own blocks follow in descending slot order. This
//! is exactly the order a bottom-up reverse-accumulation pass produces
//! once the emitted list is reversed and its recorded distances are
//! rewritten to absolute forward indices. [`flat`] is that layout as a
//! function of the logical tree; the lemmas here give pointer validity
//! and the correctness of root-to-leaf walks over it.

use vstd::prelude::*;
use crate::model::SNode;
use crate::model::snode;
use crate::model::pow8;
use crate::model::sval;
use crate::model::lemma_pow8_div;
use crate::model::lemma_pow8_pos;
use crate::model::lemma_slot;

verus! {

/// An abstract array entry: what one slot of the finished node array
/// holds. A `Parent` carries eight child indices, `0` for an absent
/// child.
pub enum GNode {
    Empty,
    Leaf(u32),
    Parent(Seq<int>),
}

/// The number of non-`Empty` nodes among the first `n` of `cs`.
pub open spec fn ccount(cs: Seq<SNode>, n: nat) -> nat
    decreases n,
{
    if n == 0 {
        0
    } else {
        ccount(cs, (n - 1) as nat) + if cs[n - 1] is Empty {
            0nat
        } else {
            1nat
        }
    }
}

/// The number of array entries the descendants of `t` occupy.
pub open spec fn rlen(t: SNode) -> nat
    decreases t, 0nat,
{
    match t {
        SNode::Parent(cs) => ccount(cs, 8) + rsum(cs, 8),
        _ => 0,
    }
}

/// The total descendant-block length of the first `n` nodes of `cs`.
pub open spec fn rsum(cs: Seq<SNode>, n: nat) -> nat
    decreases cs, n,
{
    if n == 0 || cs.len() < n {
        0
    } else {
        rsum(cs, (n - 1) as nat) + rlen(cs[n - 1])
    }
}

/// The array record of `t`, given that the block of its descendants
/// starts at index `o`: a parent's slot `s` points at `o` plus the
/// number of non-empty siblings before `s`, or holds `0` when the slot
/// is empty.
pub open spec fn gnode_of(t: SNode, o: int) -> GNode {
    match t {
        SNode::Empty => GNode::Empty,
        SNode::Leaf(m) => GNode::Leaf(m),
        SNode::Parent(cs) => GNode::Parent(
            Seq::new(8, |s: int| if cs[s] is Empty {
                0
            } else {
                o + ccount(cs, s as nat)
            }),
        ),
    }
}

/// Where the descendant block of child `s` starts, when the block of its
/// parent starts at `o`: after the parent's child records and after the
/// blocks of the higher-numbered siblings.
pub open spec fn bstart(cs: Seq<SNode>, s: int, o: int) -> int {
    o + ccount(cs, 8) + rsum(cs, 8) - rsum(cs, (s + 1) as nat)
}

/// The records of the non-empty children among the first `n` slots of
/// `cs`, in ascending slot order.
pub open spec fn recs(cs: Seq<SNode>, o: int, n: nat) -> Seq<GNode>
    decreases n,
{
    if n == 0 {
        Seq::empty()
    } else {
        recs(cs, o, (n - 1) as nat) + if cs[n - 1] is Empty {
            Seq::empty()
        } else {
            seq![gnode_of(cs[n - 1], bstart(cs, n - 1, o))]
        }
    }
}

/// The descendant blocks of the first `n` children of `cs`, laid out in
/// descending slot order starting at index `o`.
pub open spec fn blocks(cs: Seq<SNode>, o: int, n: nat) -> Seq<GNode>
    decreases cs, n,
{
    if n == 0 || cs.len() < n {
        Seq::empty()
    } else {
        r_of(cs[n - 1], o) + blocks(cs, o + rlen(cs[n - 1]), (n - 1) as nat)
    }
}

/// The descendant block of `t` when it starts at index `o`: first the
/// records of the non-empty children in ascending slot order, then their
/// own blocks in descending slot order.
pub open spec fn r_of(t: SNode, o: int) -> Seq<GNode>
    decreases t, 0nat,
{
    match t {
        SNode::Parent(cs) => recs(cs, o, 8) + blocks(cs, o + ccount(cs, 8), 8),
        _ => Seq::empty(),
    }
}

/// The finished array of the logical tree `t`: the root record at index
/// 0, followed by the block of its descendants.
pub open spec fn flat(t: SNode) -> Seq<GNode> {
    seq![gnode_of(t, 1)] + r_of(t, 1)
}

/// `recs` holds one record per non-empty child.
pub proof fn lemma_recs_len(cs: Seq<SNode>, o: int, n: nat)
    ensures
        recs(cs, o, n).len() == ccount(cs, n),
    decreases n,
{
    if n > 0 {
        lemma_recs_len(cs, o, (n - 1) as nat);
    }
}

/// The descendant block of `t` has length `rlen(t)`, and a run of child
/// blocks has length `rsum`.
pub proof fn lemma_r_len(t: SNode, o: int)
    ensures
        r_of(t, o).len() == rlen(t),
    decreases t, 0nat,
{
    match t {
        SNode::Parent(cs) => {
            lemma_recs_len(cs, o, 8);
            lemma_blocks_len(cs, o + ccount(cs, 8), 8);
        },
        _ => {},
    }
}

/// See [`lemma_r_len`].
pub proof fn lemma_blocks_len(cs: Seq<SNode>, o: int, n: nat)
    ensures
        blocks(cs, o, n).len() == rsum(cs, n),
    decreases cs, n,
{
    if n > 0 && n <= cs.len() {
        lemma_r_len(cs[n - 1], o);
        lemma_blocks_len(cs, o + rlen(cs[n - 1]), (n - 1) as nat);
    }
}

/// `ccount` grows by at most one per slot and never shrinks.
pub proof fn lemma_ccount_mono(cs: Seq<SNode>, a: nat, b: nat)
    requires
        a <= b,
    ensures
        ccount(cs, a) <= ccount(cs, b),
        ccount(cs, b) <= ccount(cs, a) + (b - a),
    decreases b,
{
    if a < b {
        lemma_ccount_mono(cs, a, (b - 1) as nat);
    }
}

/// `rsum` never shrinks as more children are counted.
pub proof fn lemma_rsum_mono(cs: Seq<SNode>, a: nat, b: nat)
    requires
        a <= b,
        b <= cs.len(),
    ensures
        rsum(cs, a) <= rsum(cs, b),
    decreases b,
{
    if a < b {
        lemma_rsum_mono(cs, a, (b - 1) as nat);
    }
}

/// The record of non-empty child `j` sits at offset `ccount(cs, j)`
/// within `recs`, carrying `bstart(cs, j, o)` as its block start.
pub proof fn lemma_recs_index(cs: Seq<SNode>, o: int, n: nat, j: int)
    requires
        0 <= j < n,
        !(cs[j] is Empty),
    ensures
        ccount(cs, j as nat) < ccount(cs, n),
        recs(cs, o, n)[ccount(cs, j as nat) as int] == gnode_of(cs[j], bstart(cs, j, o)),
    decreases n,
{
    lemma_recs_len(cs, o, (n - 1) as nat);
    if j < n - 1 {
        lemma_recs_index(cs, o, (n - 1) as nat, j);
        lemma_ccount_mono(cs, (n - 1) as nat, n);
    }
}

/// Every entry of `recs` is the record of some non-empty child.
pub proof fn lemma_recs_all(cs: Seq<SNode>, o: int, n: nat, p: int)
    requires
        0 <= p < ccount(cs, n),
    ensures
        exists|j: int|
            0 <= j < n && !(#[trigger] cs[j] is Empty) && p == ccount(cs, j as nat)
                && recs(cs, o, n)[p] == gnode_of(cs[j], bstart(cs, j, o)),
    decreases n,
{
    lemma_recs_len(cs, o, (n - 1) as nat);
    if p < ccount(cs, (n - 1) as nat) {
        lemma_recs_all(cs, o, (n - 1) as nat, p);
        let j = choose|j: int|
            0 <= j < n - 1 && !(#[trigger] cs[j] is Empty) && p == ccount(cs, j as nat)
                && recs(cs, o, (n - 1) as nat)[p] == gnode_of(cs[j], bstart(cs, j, o));
        assert(recs(cs, o, n)[p] == gnode_of(cs[j], bstart(cs, j, o)));
    } else {
        assert(!(cs[n - 1] is Empty) && p == ccount(cs, (n - 1) as nat));
        assert(recs(cs, o, n)[p] == gnode_of(cs[n - 1], bstart(cs, n - 1, o)));
    }
}

/// The tree `t` is a well-shaped octree of depth at most `k`: every
/// `Parent` has exactly eight children, each one level shallower.
pub open spec fn wf_depth(t: SNode, k: nat) -> bool
    decreases t, 0nat,
{
    match t {
        SNode::Parent(cs) => k >= 1 && cs.len() == 8 && wf_children(cs, (k - 1) as nat, 8),
        _ => true,
    }
}

/// The first `n` nodes of `cs` are well-shaped octrees of depth at most
/// `k`.
pub open spec fn wf_children(cs: Seq<SNode>, k: nat, n: nat) -> bool
    decreases cs, n,
{
    if n == 0 || cs.len() < n {
        true
    } else {
        wf_children(cs, k, (n - 1) as nat) && wf_depth(cs[n - 1], k)
    }
}

/// Extracts one child's well-formedness from `wf_children`.
pub proof fn lemma_wf_children_index(cs: Seq<SNode>, k: nat, n: nat, j: int)
    requires
        wf_children(cs, k, n),
        0 <= j < n,
        n <= cs.len(),
    ensures
        wf_depth(cs[j], k),
    decreases n,
{
    if j < n - 1 {
        lemma_wf_children_index(cs, k, (n - 1) as nat, j);
    }
}

/// Assembles `wf_children` from per-child well-formedness.
pub proof fn lemma_wf_children_build(cs: Seq<SNode>, k: nat, n: nat)
    requires
        n <= cs.len(),
        forall|j: int| 0 <= j < n ==> wf_depth(#[trigger] cs[j], k),
    ensures
        wf_children(cs, k, n),
    decreases n,
{
    if n > 0 {
        lemma_wf_children_build(cs, k, (n - 1) as nat);
    }
}

/// The canonical tree of any occupancy map over a span of `8^k` unit
/// voxels is a well-shaped octree of depth at most `k`.
pub proof fn lemma_snode_wf(occ: Map<int, u32>, base: int, k: nat)
    ensures
        wf_depth(snode(occ, base, pow8(k)), k),
    decreases k,
{
    if k > 0 {
        lemma_pow8_div(k);
        let sub = pow8((k - 1) as nat);
        let cs = crate::model::octants(occ, base, sub, 8);
        crate::model::lemma_octants_len(occ, base, sub, 8);
        assert forall|j: int| 0 <= j < 8 implies wf_depth(#[trigger] cs[j], (k - 1) as nat) by {
            crate::model::lemma_octants_index(occ, base, sub, 8, j);
            lemma_snode_wf(occ, base + j * sub, (k - 1) as nat);
        }
        lemma_wf_children_build(cs, (k - 1) as nat, 8);
    }
}

/// Pointer sanity of one array entry: a parent's non-zero child indices
/// lie strictly between the entry's own index and `end`.
pub open spec fn gvalid(g: GNode, own: int, end: int) -> bool {
    match g {
        GNode::Parent(ps) => ps.len() == 8 && forall|s: int|
            0 <= s < 8 ==> ps[s] == 0 || (own < #[trigger] ps[s] && ps[s] < end),
        _ => true,
    }
}

/// `ccount` strictly grows across a non-empty slot.
pub proof fn lemma_ccount_at(cs: Seq<SNode>, n: nat, s: int)
    requires
        0 <= s < n,
        !(cs[s] is Empty),
    ensures
        ccount(cs, s as nat) + 1 <= ccount(cs, n),
{
    assert(ccount(cs, (s + 1) as nat) == ccount(cs, s as nat) + 1);
    lemma_ccount_mono(cs, (s + 1) as nat, n);
}

/// The record of `t` placed before its descendant block is
/// pointer-sane: every non-zero child index lands inside the block.
pub proof fn lemma_record_valid(t: SNode, o: int, own: int, end: int)
    requires
        own < o,
        o + rlen(t) <= end,
    ensures
        gvalid(gnode_of(t, o), own, end),
{
    match t {
        SNode::Parent(cs) => {
            let ps = gnode_of(t, o)->Parent_0;
            assert forall|s: int| 0 <= s < 8 implies ps[s] == 0 || (own < ps[s] && ps[s] < end) by {
                if !(cs[s] is Empty) {
                    lemma_ccount_at(cs, 8, s);
                    assert(ps[s] == o + ccount(cs, s as nat));
                }
            }
        },
        _ => {},
    }
}

/// Every entry of a descendant block laid out at `o` is pointer-sane
/// within that block.
pub proof fn lemma_r_of_valid(t: SNode, k: nat, o: int)
    requires
        wf_depth(t, k),
    ensures
        forall|p: int| 0 <= p < rlen(t) ==> gvalid(#[trigger] r_of(t, o)[p], o + p, o + rlen(t)),
    decreases t, 0nat,
{
    match t {
        SNode::Parent(cs) => {
            let kc = ccount(cs, 8);
            let rs = rsum(cs, 8);
            lemma_recs_len(cs, o, 8);
            lemma_blocks_len(cs, o + kc, 8);
            lemma_blocks_valid(cs, (k - 1) as nat, o + kc, 8);
            assert forall|p: int| 0 <= p < rlen(t) implies gvalid(
                #[trigger] r_of(t, o)[p],
                o + p,
                o + rlen(t),
            ) by {
                if p < kc {
                    lemma_recs_all(cs, o, 8, p);
                    let j = choose|j: int|
                        0 <= j < 8 && !(#[trigger] cs[j] is Empty) && p == ccount(cs, j as nat)
                            && recs(cs, o, 8)[p] == gnode_of(cs[j], bstart(cs, j, o));
                    assert(r_of(t, o)[p] == gnode_of(cs[j], bstart(cs, j, o)));
                    lemma_rsum_mono(cs, (j + 1) as nat, 8);
                    assert(rsum(cs, (j + 1) as nat) == rsum(cs, j as nat) + rlen(cs[j]));
                    lemma_record_valid(cs[j], bstart(cs, j, o), o + p, o + rlen(t));
                } else {
                    assert(r_of(t, o)[p] == blocks(cs, o + kc, 8)[p - kc]);
                    assert(gvalid(blocks(cs, o + kc, 8)[p - kc], o + kc + (p - kc), o + kc + rs));
                }
            }
        },
        _ => {},
    }
}

/// Every entry of a run of child blocks laid out at `o` is pointer-sane
/// within that run.
pub proof fn lemma_blocks_valid(cs: Seq<SNode>, k: nat, o: int, n: nat)
    requires
        n <= cs.len(),
        wf_children(cs, k, n),
    ensures
        forall|p: int|
            0 <= p < rsum(cs, n) ==> gvalid(#[trigger] blocks(cs, o, n)[p], o + p, o + rsum(cs, n)),
    decreases cs, n,
{
    if n > 0 {
        let a = r_of(cs[n - 1], o);
        let rl = rlen(cs[n - 1]);
        lemma_r_len(cs[n - 1], o);
        lemma_blocks_len(cs, o + rl, (n - 1) as nat);
        lemma_r_of_valid(cs[n - 1], k, o);
        lemma_blocks_valid(cs, k, o + rl, (n - 1) as nat);
        assert forall|p: int| 0 <= p < rsum(cs, n) implies gvalid(
            #[trigger] blocks(cs, o, n)[p],
            o + p,
            o + rsum(cs, n),
        ) by {
            if p < rl {
                assert(blocks(cs, o, n)[p] == a[p]);
                assert(gvalid(a[p], o + p, o + rl));
                assert(gvalid(a[p], o + p, o + rsum(cs, n)));
            } else {
                assert(blocks(cs, o, n)[p] == blocks(cs, o + rl, (n - 1) as nat)[p - rl]);
                assert(gvalid(blocks(cs, o + rl, (n - 1) as nat)[p - rl], o + rl + (p - rl), o + rl
                    + rsum(cs, (n - 1) as nat)));
            }
        }
    }
}

/// Pointer validity of the finished array: it is non-empty, and every
/// parent's non-zero child index points strictly past the parent and
/// inside the array.
pub proof fn lemma_flat_valid(t: SNode, k: nat)
    requires
        wf_depth(t, k),
    ensures
        flat(t).len() == 1 + rlen(t),
        forall|p: int|
            0 <= p < flat(t).len() ==> gvalid(#[trigger] flat(t)[p], p, flat(t).len() as int),
    decreases k,
{
    lemma_r_len(t, 1);
    lemma_r_of_valid(t, k, 1);
    lemma_record_valid(t, 1, 0, 1 + rlen(t) as int);
    assert forall|p: int| 0 <= p < flat(t).len() implies gvalid(
        #[trigger] flat(t)[p],
        p,
        flat(t).len() as int,
    ) by {
        if p == 0 {
            assert(flat(t)[0] == gnode_of(t, 1));
        } else {
            assert(flat(t)[p] == r_of(t, 1)[p - 1]);
            assert(gvalid(r_of(t, 1)[p - 1], 1 + (p - 1), 1 + rlen(t) as int));
        }
    }
}

/// Positions a child's descendant block inside the parent's run of
/// blocks: the blocks of higher-numbered siblings precede it.
pub proof fn lemma_blocks_sub(cs: Seq<SNode>, o: int, n: nat, j: int)
    requires
        0 <= j < n,
        n <= cs.len(),
    ensures
        rsum(cs, j as nat) + rlen(cs[j]) == rsum(cs, (j + 1) as nat),
        rsum(cs, (j + 1) as nat) <= rsum(cs, n),
        blocks(cs, o, n).subrange(
            rsum(cs, n) - rsum(cs, (j + 1) as nat),
            rsum(cs, n) - rsum(cs, j as nat),
        ) == r_of(cs[j], o + rsum(cs, n) - rsum(cs, (j + 1) as nat)),
    decreases n,
{
    lemma_rsum_mono(cs, (j + 1) as nat, n);
    let rl = rlen(cs[n - 1]);
    let a = r_of(cs[n - 1], o);
    let b = blocks(cs, o + rl, (n - 1) as nat);
    lemma_r_len(cs[n - 1], o);
    lemma_blocks_len(cs, o + rl, (n - 1) as nat);
    lemma_blocks_len(cs, o, n);
    if j == n - 1 {
        assert(blocks(cs, o, n).subrange(0, rl as int) =~= a);
    } else {
        lemma_blocks_sub(cs, o + rl, (n - 1) as nat, j);
        let x = rsum(cs, (n - 1) as nat) - rsum(cs, (j + 1) as nat);
        let y = rsum(cs, (n - 1) as nat) - rsum(cs, j as nat);
        lemma_rsum_mono(cs, (j + 1) as nat, (n - 1) as nat);
        lemma_rsum_mono(cs, j as nat, (j + 1) as nat);
        assert(blocks(cs, o, n).subrange(rl + x, rl + y) =~= b.subrange(x, y));
    }
}

/// A walk over the finished array: starting from the entry at `a`
/// responsible for the code range `[base, base + span)`, descend along
/// Morton-derived octant selections until a `Leaf` (its metadata), an
/// `Empty` entry or an absent child (`None`) ends the walk.
pub open spec fn glookup(nodes: Seq<GNode>, a: int, base: int, span: nat, c: int) -> Option<u32>
    decreases span,
{
    if !(0 <= a < nodes.len()) {
        None
    } else {
        match nodes[a] {
            GNode::Empty => None,
            GNode::Leaf(m) => Some(m),
            GNode::Parent(ps) => {
                let sub = (span / 8) as nat;
                if sub == 0 || ps.len() != 8 {
                    None
                } else {
                    let s = (c - base) / (sub as int);
                    if 0 <= s < 8 {
                        if ps[s] == 0 {
                            None
                        } else {
                            glookup(nodes, ps[s], base + s * sub, sub, c)
                        }
                    } else {
                        None
                    }
                }
            },
        }
    }
}

/// Walking the array from the record of `t` agrees with walking the
/// logical tree `t`, provided `t`'s descendant block is laid out at `o`.
pub proof fn lemma_glookup_r(
    nodes: Seq<GNode>,
    a: int,
    o: int,
    t: SNode,
    k: nat,
    base: int,
    c: int,
)
    requires
        0 <= a < nodes.len(),
        a < o,
        nodes[a] == gnode_of(t, o),
        o + rlen(t) <= nodes.len(),
        nodes.subrange(o, o + rlen(t) as int) == r_of(t, o),
        wf_depth(t, k),
        base <= c < base + pow8(k),
    ensures
        glookup(nodes, a, base, pow8(k), c) == sval(t, base, pow8(k), c),
    decreases k,
{
    match t {
        SNode::Empty => {},
        SNode::Leaf(_m) => {},
        SNode::Parent(cs) => {
            lemma_pow8_div(k);
            lemma_pow8_pos((k - 1) as nat);
            let span = pow8(k);
            let sub = pow8((k - 1) as nat);
            lemma_slot(base, sub as int, c);
            let s = (c - base) / (sub as int);
            let ps = nodes[a]->Parent_0;
            assert(ps[s] == if cs[s] is Empty { 0 } else { o + ccount(cs, s as nat) });
            let kc = ccount(cs, 8);
            let rs = rsum(cs, 8);
            lemma_recs_len(cs, o, 8);
            lemma_blocks_len(cs, o + kc, 8);
            lemma_r_len(t, o);
            if cs[s] is Empty {
                assert(glookup(nodes, a, base, span, c) is None);
                assert(sval(t, base, span, c) == sval(cs[s], base + s * sub, sub, c));
            } else {
                let a2 = o + ccount(cs, s as nat);
                lemma_ccount_at(cs, 8, s);
                lemma_recs_index(cs, o, 8, s);
                let o2 = bstart(cs, s, o);
                lemma_rsum_mono(cs, (s + 1) as nat, 8);
                lemma_rsum_mono(cs, s as nat, (s + 1) as nat);
                assert(rsum(cs, (s + 1) as nat) == rsum(cs, s as nat) + rlen(cs[s]));
                assert(r_of(t, o)[ccount(cs, s as nat) as int]
                    == recs(cs, o, 8)[ccount(cs, s as nat) as int]);
                assert(nodes[a2] == nodes.subrange(o, o + rlen(t) as int)[ccount(
                    cs,
                    s as nat,
                ) as int]);
                assert(nodes[a2] == gnode_of(cs[s], o2));
                lemma_blocks_sub(cs, o + kc, 8, s);
                let x = rs - rsum(cs, (s + 1) as nat);
                let y = rs - rsum(cs, s as nat);
                lemma_r_len(cs[s], o2);
                assert(o2 == o + kc + x);
                assert(blocks(cs, o + kc, 8).subrange(x as int, y as int) == r_of(cs[s], o2));
                let lhs = nodes.subrange(o2, o2 + rlen(cs[s]) as int);
                let rhs = blocks(cs, o + kc, 8).subrange(x as int, y as int);
                assert forall|i: int| 0 <= i < rlen(cs[s]) implies #[trigger] lhs[i] == rhs[i] by {
                    assert(nodes[o2 + i] == nodes.subrange(o, o + rlen(t) as int)[kc + x + i]);
                    assert(r_of(t, o)[kc + x + i] == blocks(cs, o + kc, 8)[x + i]);
                }
                assert(lhs =~= rhs);
                lemma_wf_children_index(cs, (k - 1) as nat, 8, s);
                lemma_glookup_r(nodes, a2, o2, cs[s], (k - 1) as nat, base + s * sub, c);
                assert(glookup(nodes, a, base, span, c) == glookup(
                    nodes,
                    a2,
                    base + s * sub,
                    sub,
                    c,
                ));
                assert(sval(t, base, span, c) == sval(cs[s], base + s * sub, sub, c));
            }
        },
    }
}

/// Walking the finished array of the canonical tree from its root
/// returns exactly the occupancy of the walked-to voxel.
pub proof fn lemma_flat_glookup(occ: Map<int, u32>, k: nat, c: int)
    requires
        0 <= c < pow8(k),
    ensures
        glookup(flat(snode(occ, 0, pow8(k))), 0, 0, pow8(k), c) == (if occ.dom().contains(c) {
            Some(occ[c])
        } else {
            None::<u32>
        }),
{
    let t = snode(occ, 0, pow8(k));
    lemma_snode_wf(occ, 0, k);
    lemma_r_len(t, 1);
    assert(flat(t)[0] == gnode_of(t, 1));
    assert(flat(t).subrange(1, 1 + rlen(t) as int) =~= r_of(t, 1));
    lemma_glookup_r(flat(t), 0, 1, t, k, 0, c);
    crate::model::lemma_snode_sval(occ, 0, k, c);
}

/// The largest node count of a well-shaped octree of depth `k`,
/// counting the root: one more than eight times the bound one level
/// down.
pub open spec fn nmax(k: nat) -> nat
    decreases k,
{
    if k == 0 {
        1
    } else {
        1 + 8 * nmax((k - 1) as nat)
    }
}

/// Descendant blocks of the first `n` children stay within `n` times
/// the per-subtree node bound.
pub proof fn lemma_rsum_nmax(cs: Seq<SNode>, k: nat, n: nat)
    requires
        n <= cs.len(),
        wf_children(cs, k, n),
    ensures
        rsum(cs, n) + n <= n * nmax(k),
    decreases cs, n,
{
    if n > 0 {
        lemma_rsum_nmax(cs, k, (n - 1) as nat);
        lemma_rlen_nmax(cs[n - 1], k);
        assert((n - 1) * nmax(k) + nmax(k) == n * nmax(k)) by (nonlinear_arith);
    }
}

/// A well-shaped octree of depth `k` occupies at most `nmax(k)` array
/// entries, its own record included.
pub proof fn lemma_rlen_nmax(t: SNode, k: nat)
    requires
        wf_depth(t, k),
    ensures
        rlen(t) + 1 <= nmax(k),
    decreases t, 0nat,
{
    match t {
        SNode::Parent(cs) => {
            lemma_rsum_nmax(cs, (k - 1) as nat, 8);
            lemma_ccount_mono(cs, 0, 8);
        },
        _ => {
            lemma_nmax_pos(k);
        },
    }
}

/// The node bound is positive.
pub proof fn lemma_nmax_pos(k: nat)
    ensures
        nmax(k) >= 1,
    decreases k,
{
    if k > 0 {
        lemma_nmax_pos((k - 1) as nat);
    }
}

/// The node bound never shrinks with depth.
pub proof fn lemma_nmax_mono(a: nat, b: nat)
    requires
        a <= b,
    ensures
        nmax(a) <= nmax(b),
    decreases b,
{
    if a < b {
        lemma_nmax_mono(a, (b - 1) as nat);
        lemma_nmax_pos((b - 1) as nat);
    }
}

/// For the depths the builder accepts, every array index fits
/// comfortably below the 32-bit boundary.
pub proof fn lemma_nmax_ten()
    ensures
        nmax(10) == 0x49249249,
{
    assert(nmax(0) == 1);
    assert(nmax(1) == 9);
    assert(nmax(2) == 73);
    assert(nmax(3) == 585);
    assert(nmax(4) == 4681);
    assert(nmax(5) == 37449);
    assert(nmax(6) == 299593);
    assert(nmax(7) == 2396745);
    assert(nmax(8) == 19173961);
    assert(nmax(9) == 153391689);
    assert(nmax(10) == 1227133513);
}

} // verus!
