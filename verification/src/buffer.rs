//! The level buffer: a fixed-capacity group of up to eight pending
//! sibling subtrees for one octree level. The pipeline fills it slot by
//! slot and, once full, asks whether the group is entirely empty or
//! entirely one uniform leaf before deciding how the parent collapses.

use vstd::prelude::*;
use crate::model::SNode;
use crate::model::all_empty;
use crate::model::uniform;
use crate::node::OctNode;
use crate::node::views_of;
use crate::node::lemma_views_of_index;
use crate::node::lemma_views_of_len;

verus! {

/// A buffer of at most eight pending sibling subtrees; slot `i`
/// corresponds to octant child index `i` of the parent being gathered.
pub struct LevelBuffer {
    slots: Vec<OctNode>,
}

impl LevelBuffer {
    /// The logical trees currently stored, in slot order.
    pub closed spec fn view(&self) -> Seq<SNode> {
        views_of(self.slots@, self.slots@.len())
    }

    /// The buffer never holds more than eight entries.
    pub closed spec fn wf(&self) -> bool {
        self.slots@.len() <= 8
    }

    /// A fresh, empty buffer.
    pub fn new() -> (b: LevelBuffer)
        ensures
            b.wf(),
            b@ == Seq::<SNode>::empty(),
    {
        let b = LevelBuffer { slots: Vec::new() };
        proof {
            lemma_views_of_len(b.slots@, 0);
            assert(b@ =~= Seq::<SNode>::empty());
        }
        b
    }

    /// How many entries have been pushed since the last drain.
    pub fn len(&self) -> (n: usize)
        requires
            self.wf(),
        ensures
            n == self@.len(),
    {
        proof {
            lemma_views_of_len(self.slots@, self.slots@.len());
        }
        self.slots.len()
    }

    /// Stores `n` at the current fill position; the result tells the
    /// caller that the eighth slot has just been filled. Pushing onto a
    /// full buffer is excluded by precondition: the pipeline, not the
    /// buffer, enforces capacity.
    pub fn push(&mut self, n: OctNode) -> (full: bool)
        requires
            old(self).wf(),
            old(self)@.len() < 8,
        ensures
            final(self).wf(),
            final(self)@ == old(self)@.push(n@),
            full <==> final(self)@.len() == 8,
    {
        proof {
            lemma_views_of_len(self.slots@, self.slots@.len());
        }
        let ghost before = self.slots@;
        self.slots.push(n);
        proof {
            lemma_views_of_len(self.slots@, self.slots@.len());
            assert(self@ =~= before.map_values(|x: OctNode| x@).push(n@)) by {
                lemma_views_seq(self.slots@);
                lemma_views_seq(before);
                assert(self.slots@.map_values(|x: OctNode| x@) =~= before.map_values(
                    |x: OctNode| x@,
                ).push(n@));
            }
            lemma_views_seq(before);
        }
        self.slots.len() == 8
    }

    /// True when no stored entry is occupied: the whole child group
    /// corresponds to a region that was never populated. In particular a
    /// buffer holding nothing is empty.
    pub fn is_empty(&self) -> (r: bool)
        requires
            self.wf(),
        ensures
            r == all_empty(self@),
    {
        proof {
            lemma_views_of_len(self.slots@, self.slots@.len());
        }
        let mut i: usize = 0;
        while i < self.slots.len()
            invariant
                self.wf(),
                0 <= i <= self.slots@.len(),
                forall|j: int| 0 <= j < i ==> self@[j] is Empty,
            decreases self.slots@.len() - i,
        {
            proof {
                lemma_views_of_index(self.slots@, self.slots@.len(), i as int);
            }
            match self.slots[i] {
                OctNode::Empty => {},
                _ => {
                    return false;
                },
            }
            i += 1;
        }
        true
    }

    /// True when all eight slots hold leaves of pairwise equal metadata:
    /// the group collapses to one merged leaf at the parent level.
    pub fn is_uniform(&self) -> (r: bool)
        requires
            self.wf(),
        ensures
            r == uniform(self@),
    {
        proof {
            lemma_views_of_len(self.slots@, self.slots@.len());
        }
        if self.slots.len() != 8 {
            return false;
        }
        proof {
            lemma_views_of_index(self.slots@, self.slots@.len(), 0);
        }
        let m0: u32 = match self.slots[0] {
            OctNode::Leaf(m) => m,
            _ => {
                return false;
            },
        };
        let mut i: usize = 1;
        while i < 8
            invariant
                self.wf(),
                self.slots@.len() == 8,
                self@.len() == 8,
                1 <= i <= 8,
                self@[0] == SNode::Leaf(m0),
                forall|j: int| 0 <= j < i ==> #[trigger] self@[j] == self@[0],
            decreases 8 - i,
        {
            proof {
                lemma_views_of_index(self.slots@, self.slots@.len(), i as int);
            }
            match self.slots[i] {
                OctNode::Leaf(m) => {
                    if m != m0 {
                        return false;
                    }
                },
                _ => {
                    return false;
                },
            }
            i += 1;
        }
        true
    }

    /// Resets the fill count to zero and hands out the eight stored
    /// subtrees, slot order preserved.
    pub fn drain(&mut self) -> (out: Vec<OctNode>)
        requires
            old(self).wf(),
            old(self)@.len() == 8,
        ensures
            final(self).wf(),
            final(self)@ == Seq::<SNode>::empty(),
            out@.len() == 8,
            views_of(out@, 8) == old(self)@,
    {
        proof {
            lemma_views_of_len(self.slots@, self.slots@.len());
        }
        let mut out: Vec<OctNode> = Vec::new();
        core::mem::swap(&mut self.slots, &mut out);
        proof {
            lemma_views_of_len(self.slots@, self.slots@.len());
            assert(final(self)@ =~= Seq::<SNode>::empty());
        }
        out
    }
}

/// `views_of` over a whole vector of pending subtrees is the sequence
/// of their views.
pub proof fn lemma_views_seq(v: Seq<OctNode>)
    ensures
        views_of(v, v.len()) == v.map_values(|x: OctNode| x@),
    decreases v.len(),
{
    if v.len() > 0 {
        lemma_views_seq(v.drop_last());
        lemma_views_of_prefix(v, v.drop_last(), (v.len() - 1) as nat);
        assert(views_of(v, v.len()) =~= v.map_values(|x: OctNode| x@));
    } else {
        assert(views_of(v, v.len()) =~= v.map_values(|x: OctNode| x@));
    }
}

/// `views_of(_, n)` reads only the first `n` entries.
pub proof fn lemma_views_of_prefix(v: Seq<OctNode>, w: Seq<OctNode>, n: nat)
    requires
        n <= v.len(),
        n <= w.len(),
        forall|i: int| 0 <= i < n ==> v[i] == w[i],
    ensures
        views_of(v, n) == views_of(w, n),
    decreases n,
{
    if n > 0 {
        lemma_views_of_prefix(v, w, (n - 1) as nat);
    }
}

} // verus!
