//! The data carried through a build: input leaf records, the pending
//! subtree values the pipeline aggregates, and the finished array node.

use vstd::prelude::*;
use crate::model::SNode;
use crate::layout::GNode;

verus! {

/// One input voxel: a Morton coordinate paired with its metadata.
///
/// Records are ordered by `coord` alone; two records are the same value
/// only when both fields agree. Uniformity detection during the build
/// compares metadata only (coordinates of eight distinct sibling slots
/// can never coincide), which settles the merge policy in favour of pure
/// metadata equality; coordinate identity is used for sorting and for
/// duplicate rejection.
#[derive(Clone, Copy, Debug, PartialEq, Eq, Structural, Hash)]
pub struct LeafRec {
    /// The Morton code of the voxel.
    pub coord: u64,
    /// The metadata stored at the voxel.
    pub meta: u32,
}

/// A pending subtree held by the pipeline while parents are being
/// aggregated: the in-memory pointer form of one octree region.
#[derive(Debug)]
pub enum OctNode {
    /// A region with no occupied voxel.
    Empty,
    /// A fully occupied region with one shared metadata value.
    Leaf(u32),
    /// A subdivided region and its eight children.
    Parent(Vec<OctNode>),
}

/// One entry of the finished linear array. A `Parent` holds eight child
/// indices into the same array, `0` for an absent child (index 0 is the
/// root, which no child pointer can name).
#[derive(Debug, PartialEq, Eq)]
pub enum TreeNode {
    /// An unoccupied region.
    Empty,
    /// A leaf region and its metadata.
    Leaf(u32),
    /// An explicit eight-way parent and its child indices.
    Parent(Vec<usize>),
}

/// The error returned when an input batch is structurally bad.
#[derive(Clone, Copy, Debug, PartialEq, Eq, Structural)]
pub enum BuildError {
    /// More leaves than the configured depth can hold.
    TooManyLeaves,
    /// Two records share one Morton coordinate.
    DuplicateCoord,
    /// A record's coordinate lies outside the addressable range.
    CoordOutOfRange,
}

impl OctNode {
    /// The logical tree this pending subtree stands for.
    pub open spec fn view(&self) -> SNode
        decreases self, 0nat,
    {
        match self {
            OctNode::Empty => SNode::Empty,
            OctNode::Leaf(m) => SNode::Leaf(*m),
            OctNode::Parent(v) => SNode::Parent(views_of(v@, v@.len())),
        }
    }
}

/// The logical trees of the first `n` pending subtrees of `v`, in order.
pub open spec fn views_of(v: Seq<OctNode>, n: nat) -> Seq<SNode>
    decreases v, n,
{
    if n == 0 || v.len() < n {
        Seq::empty()
    } else {
        views_of(v, (n - 1) as nat).push(v[n - 1]@)
    }
}

/// Unfolds `views_of`: its length is `n` and its entry `i` is the view
/// of `v[i]`.
pub proof fn lemma_views_of_index(v: Seq<OctNode>, n: nat, i: int)
    requires
        n <= v.len(),
        0 <= i < n,
    ensures
        views_of(v, n).len() == n,
        views_of(v, n)[i] == v[i]@,
    decreases n,
{
    lemma_views_of_len(v, n);
    if i < n - 1 {
        lemma_views_of_index(v, (n - 1) as nat, i);
    }
}

/// The length of `views_of` is `n` whenever `n` is within bounds.
pub proof fn lemma_views_of_len(v: Seq<OctNode>, n: nat)
    requires
        n <= v.len(),
    ensures
        views_of(v, n).len() == n,
    decreases n,
{
    if n > 0 {
        lemma_views_of_len(v, (n - 1) as nat);
    }
}

impl View for TreeNode {
    type V = GNode;

    /// The abstract array entry this node is: child indices widen to
    /// mathematical integers.
    open spec fn view(&self) -> GNode {
        match self {
            TreeNode::Empty => GNode::Empty,
            TreeNode::Leaf(m) => GNode::Leaf(*m),
            TreeNode::Parent(v) => GNode::Parent(v@.map_values(|u: usize| u as int)),
        }
    }
}

/// The abstract contents of a vector of array nodes.
pub open spec fn gseq(v: Seq<TreeNode>) -> Seq<GNode> {
    v.map_values(|n: TreeNode| n@)
}

} // verus!
