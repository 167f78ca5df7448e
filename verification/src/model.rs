//! The mathematical model of the octree.
//!
//! An input batch is abstracted as an occupancy map from Morton codes to
//! metadata. [`snode`] is the canonical logical tree over such a map: gaps
//! collapse to `Empty`, fully uniform octants collapse to a single `Leaf`,
//! and everything else is an eight-way `Parent`. The builder's contracts
//! state that the arrays it produces are fixed functions of this model.

use vstd::prelude::*;

verus! {

/// A logical octree node: the canonical tree shape, before layout.
pub enum SNode {
    /// A region holding no occupied voxel.
    Empty,
    /// A fully occupied region of one shared metadata value (a unit voxel,
    /// or a merged uniform octant).
    Leaf(u32),
    /// A subdivided region with exactly eight child octants.
    Parent(Seq<SNode>),
}

/// `8^k`: the number of unit voxels spanned by a subtree `k` levels above
/// the leaves.
pub open spec fn pow8(k: nat) -> nat
    decreases k,
{
    if k == 0 {
        1
    } else {
        8 * pow8((k - 1) as nat)
    }
}

/// All nodes of `cs` are `Empty`.
pub open spec fn all_empty(cs: Seq<SNode>) -> bool {
    forall|i: int| 0 <= i < cs.len() ==> cs[i] is Empty
}

/// All eight nodes of `cs` are the same `Leaf`.
pub open spec fn uniform(cs: Seq<SNode>) -> bool {
    cs.len() == 8 && cs[0] is Leaf && forall|i: int| 0 <= i < cs.len() ==> #[trigger] cs[i] == cs[0]
}

/// The logical subtrees of the first `n` octants of width `sub` above
/// `base`, in ascending slot order.
pub open spec fn octants(occ: Map<int, u32>, base: int, sub: nat, n: nat) -> Seq<SNode>
    decreases sub, n,
{
    if n == 0 {
        Seq::empty()
    } else {
        octants(occ, base, sub, (n - 1) as nat).push(
            snode(occ, base + (n - 1) * sub, sub),
        )
    }
}

/// The canonical logical tree of the occupancy map `occ` over the code
/// range `[base, base + span)`: an unoccupied region is `Empty`, a region
/// whose eight octants are one equal `Leaf` merges into that `Leaf`, and
/// any other region is a `Parent` of its eight octants.
pub open spec fn snode(occ: Map<int, u32>, base: int, span: nat) -> SNode
    decreases span, 0nat,
{
    if span <= 1 {
        if occ.dom().contains(base) {
            SNode::Leaf(occ[base])
        } else {
            SNode::Empty
        }
    } else {
        let cs = octants(occ, base, (span / 8) as nat, 8);
        if all_empty(cs) {
            SNode::Empty
        } else if uniform(cs) {
            cs[0]
        } else {
            SNode::Parent(cs)
        }
    }
}

/// The metadata found by walking the logical tree `t` (spanning
/// `[base, base + span)`) down to the unit voxel `c`, or `None` when the
/// walk meets an empty region.
pub open spec fn sval(t: SNode, base: int, span: nat, c: int) -> Option<u32>
    decreases span,
{
    match t {
        SNode::Empty => None,
        SNode::Leaf(m) => Some(m),
        SNode::Parent(cs) => {
            let sub = (span / 8) as nat;
            if span <= 1 || sub == 0 {
                None
            } else {
                let s = (c - base) / (sub as int);
                if 0 <= s < cs.len() {
                    sval(cs[s], base + s * sub, sub, c)
                } else {
                    None
                }
            }
        },
    }
}

/// Unfolds `octants`: its length is `n` and its slot `i` holds the
/// logical tree of octant `i`.
pub proof fn lemma_octants_index(occ: Map<int, u32>, base: int, sub: nat, n: nat, i: int)
    requires
        0 <= i < n,
    ensures
        octants(occ, base, sub, n).len() == n,
        octants(occ, base, sub, n)[i] == snode(occ, base + i * sub, sub),
    decreases n,
{
    if n > 0 && i < n - 1 {
        lemma_octants_index(occ, base, sub, (n - 1) as nat, i);
    }
    lemma_octants_len(occ, base, sub, n);
}

/// The length of `octants` is `n`.
pub proof fn lemma_octants_len(occ: Map<int, u32>, base: int, sub: nat, n: nat)
    ensures
        octants(occ, base, sub, n).len() == n,
    decreases n,
{
    if n > 0 {
        lemma_octants_len(occ, base, sub, (n - 1) as nat);
    }
}

/// Powers of eight are positive.
pub proof fn lemma_pow8_pos(k: nat)
    ensures
        pow8(k) >= 1,
    decreases k,
{
    if k > 0 {
        lemma_pow8_pos((k - 1) as nat);
    }
}

/// For `k >= 1`, dividing the span `8^k` by the branching factor gives
/// exactly the span one level down.
pub proof fn lemma_pow8_div(k: nat)
    requires
        k >= 1,
    ensures
        pow8(k) == 8 * pow8((k - 1) as nat),
        pow8(k) / 8 == pow8((k - 1) as nat),
        pow8(k) >= 8,
{
    lemma_pow8_pos((k - 1) as nat);
    let sub = pow8((k - 1) as nat);
    assert((8 * sub) / 8 == sub) by (nonlinear_arith);
}

/// Locates the unit voxel `c` within an eight-octant region: the slot
/// `(c - base) / sub` is in `[0, 8)` and its octant contains `c`.
pub proof fn lemma_slot(base: int, sub: int, c: int)
    requires
        sub >= 1,
        base <= c < base + 8 * sub,
    ensures
        0 <= (c - base) / sub < 8,
        base + ((c - base) / sub) * sub <= c,
        c < base + ((c - base) / sub) * sub + sub,
{
    let d = c - base;
    let q = d / sub;
    let r = d % sub;
    vstd::arithmetic::div_mod::lemma_fundamental_div_mod(d, sub);
    assert(0 <= r < sub) by (nonlinear_arith)
        requires sub >= 1, r == d % sub;
    assert(0 <= q < 8 && base + q * sub <= c < base + q * sub + sub) by (nonlinear_arith)
        requires d == sub * q + r, 0 <= r < sub, 0 <= d < 8 * sub, d == c - base;
}

/// A region none of whose unit voxels is occupied collapses to `Empty`.
pub proof fn lemma_snode_vacant(occ: Map<int, u32>, base: int, k: nat)
    requires
        forall|c: int| base <= c < base + pow8(k) ==> !occ.dom().contains(c),
    ensures
        snode(occ, base, pow8(k)) == SNode::Empty,
    decreases k,
{
    if k == 0 {
        assert(!occ.dom().contains(base));
    } else {
        lemma_pow8_div(k);
        let sub = pow8((k - 1) as nat);
        let cs = octants(occ, base, sub, 8);
        lemma_octants_len(occ, base, sub, 8);
        assert forall|i: int| 0 <= i < cs.len() implies cs[i] is Empty by {
            lemma_octants_index(occ, base, sub, 8, i);
            assert(0 <= i * sub && i * sub + sub <= 8 * sub) by (nonlinear_arith)
                requires 0 <= i < 8, sub >= 1;
            lemma_snode_vacant(occ, base + i * sub, (k - 1) as nat);
        }
    }
}

/// A region all of whose unit voxels carry the same metadata collapses to
/// a single merged `Leaf`.
pub proof fn lemma_snode_covered(occ: Map<int, u32>, base: int, k: nat, m: u32)
    requires
        forall|c: int| base <= c < base + pow8(k) ==> #[trigger] occ.dom().contains(c) && occ[c] == m,
    ensures
        snode(occ, base, pow8(k)) == SNode::Leaf(m),
    decreases k,
{
    if k == 0 {
        assert(occ.dom().contains(base) && occ[base] == m);
    } else {
        lemma_pow8_div(k);
        let sub = pow8((k - 1) as nat);
        let cs = octants(occ, base, sub, 8);
        lemma_octants_len(occ, base, sub, 8);
        assert forall|i: int| 0 <= i < cs.len() implies #[trigger] cs[i] == SNode::Leaf(m) by {
            lemma_octants_index(occ, base, sub, 8, i);
            assert(0 <= i * sub && i * sub + sub <= 8 * sub) by (nonlinear_arith)
                requires 0 <= i < 8, sub >= 1;
            lemma_snode_covered(occ, base + i * sub, (k - 1) as nat, m);
        }
        lemma_octants_len(occ, base, sub, 8);
        assert(cs[0] == SNode::Leaf(m));
        assert(!all_empty(cs));
        assert(uniform(cs));
    }
}

/// Walking the canonical tree of `occ` down to any unit voxel in its
/// range returns exactly that voxel's occupancy.
pub proof fn lemma_snode_sval(occ: Map<int, u32>, base: int, k: nat, c: int)
    requires
        base <= c < base + pow8(k),
    ensures
        sval(snode(occ, base, pow8(k)), base, pow8(k), c) == (if occ.dom().contains(c) {
            Some(occ[c])
        } else {
            None::<u32>
        }),
    decreases k,
{
    if k == 0 {
        assert(c == base);
    } else {
        lemma_pow8_div(k);
        let span = pow8(k);
        let sub = pow8((k - 1) as nat);
        let cs = octants(occ, base, sub, 8);
        lemma_octants_len(occ, base, sub, 8);
        lemma_slot(base, sub as int, c);
        let s = (c - base) / (sub as int);
        lemma_octants_index(occ, base, sub, 8, s);
        assert(cs[s] == snode(occ, base + s * sub, sub));
        lemma_snode_sval(occ, base + s * sub, (k - 1) as nat, c);
        if all_empty(cs) {
            assert(cs[s] is Empty);
            assert(snode(occ, base, span) == SNode::Empty);
        } else if uniform(cs) {
            assert(cs[s] == cs[0]);
            assert(snode(occ, base, span) == cs[0]);
        } else {
            assert(snode(occ, base, span) == SNode::Parent(cs));
        }
    }
}

} // verus!
