//! The finished tree: a linear array of nodes with the root at index 0,
//! child groups reachable through forward indices, and a verified
//! root-to-leaf walk.

use vstd::prelude::*;
use crate::builder::pow8_u64;
use crate::layout::GNode;
use crate::layout::glookup;
use crate::model::pow8;
use crate::node::TreeNode;
use crate::node::gseq;

verus! {

/// A built octree: the node array (root at index 0) and the depth it
/// was built for. A world-space scale, when one is carried alongside,
/// is the consumer's concern; the array itself is pure index structure.
#[derive(Debug, PartialEq, Eq)]
pub struct Tree {
    /// The linear node array; entry 0 is the root.
    pub nodes: Vec<TreeNode>,
    /// The configured depth: the tree addresses `8^(max_depth - 1)`
    /// unit voxels.
    pub max_depth: u8,
}

impl Tree {
    /// The abstract array this tree is.
    pub open spec fn view(&self) -> Seq<GNode> {
        gseq(self.nodes@)
    }

    /// The depth is in the supported band.
    pub open spec fn wf(&self) -> bool {
        1 <= self.max_depth <= 11
    }

    /// The number of unit voxels the tree addresses.
    pub open spec fn spec_span(&self) -> nat {
        pow8((self.max_depth - 1) as nat)
    }

    /// How many nodes the finished array holds.
    pub fn len(&self) -> (n: usize)
        ensures
            n == self@.len(),
    {
        self.nodes.len()
    }

    /// Walks the tree from the root by successive Morton-derived octant
    /// selection and returns the metadata of the leaf it reaches, or
    /// `None` when the walk meets an empty region or an absent child.
    pub fn get(&self, code: u64) -> (r: Option<u32>)
        requires
            self.wf(),
        ensures
            r == glookup(self@, 0, 0, self.spec_span(), code as int),
    {
        let span = pow8_u64(self.max_depth - 1);
        proof {
            crate::builder::lemma_pow8_mono((self.max_depth - 1) as nat, 10);
            crate::builder::lemma_pow8_pow2(10);
            vstd::arithmetic::power2::lemma2_to64();
        }
        walk(&self.nodes, 0, 0, span, code)
    }
}

/// One step of the array walk: mirrors [`glookup`] exactly.
fn walk(nodes: &Vec<TreeNode>, a: usize, base: u64, span: u64, code: u64) -> (r: Option<u32>)
    requires
        base as int + span as int <= u64::MAX as int,
    ensures
        r == glookup(gseq(nodes@), a as int, base as int, span as nat, code as int),
    decreases span,
{
    proof {
        assert(gseq(nodes@).len() == nodes@.len());
    }
    if a >= nodes.len() {
        return None;
    }
    match &nodes[a] {
        TreeNode::Empty => None,
        TreeNode::Leaf(m) => Some(*m),
        TreeNode::Parent(ps) => {
            let sub = span / 8;
            if sub == 0 || ps.len() != 8 {
                return None;
            }
            if code < base {
                proof {
                    let d = code as int - base as int;
                    let q = d / (sub as int);
                    let r = d % (sub as int);
                    vstd::arithmetic::div_mod::lemma_fundamental_div_mod(d, sub as int);
                    assert(0 <= r < sub as int) by (nonlinear_arith)
                        requires sub >= 1, r == d % (sub as int);
                    assert(q < 0) by (nonlinear_arith)
                        requires d == (sub as int) * q + r, 0 <= r < sub as int, d < 0;
                }
                return None;
            }
            let slot = (code - base) / sub;
            if slot >= 8 {
                return None;
            }
            let p = ps[slot as usize];
            if p == 0 {
                None
            } else {
                proof {
                    assert((slot as int) * (sub as int) + sub as int <= 8 * (sub as int) && 0 <= (
                    slot as int) * (sub as int)) by (nonlinear_arith)
                        requires 0 <= slot < 8, sub >= 1;
                    assert(8 * (sub as int) <= span as int);
                }
                walk(nodes, p, base + slot * sub, sub, code)
            }
        },
    }
}

} // verus!
