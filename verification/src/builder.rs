//! The build pipeline: sorts a batch of leaf records by Morton code,
//! validates it, streams it bottom-up through per-level buffers, and
//! lays the collapsed octree out as a linear array.

use vstd::prelude::*;
use crate::buffer::LevelBuffer;
use crate::model::SNode;
use crate::model::all_empty;
use crate::model::lemma_octants_index;
use crate::model::lemma_octants_len;
use crate::model::lemma_pow8_div;
use crate::model::lemma_pow8_pos;
use crate::model::octants;
use crate::model::pow8;
use crate::model::snode;
use crate::model::uniform;
use crate::layout::bstart;
use crate::layout::blocks;
use crate::layout::ccount;
use crate::layout::gnode_of;
use crate::layout::lemma_ccount_mono;
use crate::layout::lemma_rsum_mono;
use crate::layout::r_of;
use crate::layout::recs;
use crate::layout::rlen;
use crate::layout::rsum;
use crate::layout::wf_depth;
use crate::layout::lemma_wf_children_index;
use crate::node::LeafRec;
use crate::node::OctNode;
use crate::node::TreeNode;
use crate::node::BuildError;
use crate::node::gseq;
use crate::tree::Tree;
use crate::layout::flat;
use crate::layout::lemma_snode_wf;
use crate::layout::lemma_rlen_nmax;
use crate::layout::lemma_nmax_mono;
use crate::layout::lemma_nmax_ten;
use crate::node::lemma_views_of_index;
use crate::node::lemma_views_of_len;
use crate::node::views_of;

verus! {

/// The records of `s` are in ascending Morton order.
pub open spec fn sorted(s: Seq<LeafRec>) -> bool {
    forall|i: int, j: int|
        0 <= i < j < s.len() ==> #[trigger] s[i].coord <= #[trigger] s[j].coord
}

/// No two records of `s` share a Morton coordinate.
pub open spec fn distinct_coords(s: Seq<LeafRec>) -> bool {
    forall|i: int, j: int|
        0 <= i < j < s.len() ==> #[trigger] s[i].coord != #[trigger] s[j].coord
}

/// The occupancy map of a batch: each present Morton code maps to the
/// metadata of the record carrying it. With distinct coordinates this
/// is a faithful abstraction of the batch, independent of record order.
pub open spec fn occ_of(s: Seq<LeafRec>) -> Map<int, u32> {
    Map::new(
        |c: int| exists|i: int| 0 <= i < s.len() && #[trigger] s[i].coord as int == c,
        |c: int|
            s[choose|i: int| 0 <= i < s.len() && #[trigger] s[i].coord as int == c].meta,
    )
}

/// With distinct coordinates, the occupancy map reads back each record.
pub proof fn lemma_occ_at(s: Seq<LeafRec>, i: int)
    requires
        distinct_coords(s),
        0 <= i < s.len(),
    ensures
        occ_of(s).dom().contains(s[i].coord as int),
        occ_of(s)[s[i].coord as int] == s[i].meta,
{
    let c = s[i].coord as int;
    assert(occ_of(s).dom().contains(c));
    let j = choose|j: int| 0 <= j < s.len() && #[trigger] s[j].coord as int == c;
    if i != j {
        assert(s[i].coord != s[j].coord);
    }
}

/// A multiset that counts a value twice has it at two distinct indices.
pub proof fn lemma_count_two(s: Seq<LeafRec>, x: LeafRec)
    requires
        s.to_multiset().count(x) >= 2,
    ensures
        exists|i: int, j: int| 0 <= i < j < s.len() && #[trigger] s[i] == x && #[trigger] s[j] == x,
    decreases s.len(),
{
    broadcast use vstd::seq_lib::group_seq_properties;

    s.to_multiset_ensures();
    assert(s.len() >= 2);
    let pre = s.drop_last();
    pre.to_multiset_ensures();
    assert(s =~= pre.push(s.last()));
    assert(s.to_multiset() == pre.to_multiset().insert(s.last()));
    if s.last() == x {
        assert(pre.to_multiset().count(x) >= 1);
        assert(pre.contains(x));
        let i = choose|i: int| 0 <= i < pre.len() && pre[i] == x;
        assert(s[i] == x && s[s.len() - 1] == x);
    } else {
        assert(pre.to_multiset().count(x) >= 2);
        lemma_count_two(pre, x);
        let (i, j) = choose|i: int, j: int|
            0 <= i < j < pre.len() && #[trigger] pre[i] == x && #[trigger] pre[j] == x;
        assert(s[i] == x && s[j] == x);
    }
}

/// Two distinct positions holding one value make its count at least two.
pub proof fn lemma_two_count(s: Seq<LeafRec>, i: int, j: int)
    requires
        0 <= i < j < s.len(),
        s[i] == s[j],
    ensures
        s.to_multiset().count(s[i]) >= 2,
{
    s.to_multiset_ensures();
    let r = s.remove(i);
    r.to_multiset_ensures();
    assert(r.to_multiset() == s.to_multiset().remove(s[i]));
    assert(r[j - 1] == s[j]);
    assert(r.contains(s[j]));
    assert(r.to_multiset().count(s[i]) >= 1);
    assert(s.to_multiset().count(s[i]) == r.to_multiset().count(s[i]) + 1);
}

/// Reordering a batch of distinct coordinates keeps its coordinates
/// distinct.
pub proof fn lemma_distinct_perm(l1: Seq<LeafRec>, l2: Seq<LeafRec>)
    requires
        l1.to_multiset() == l2.to_multiset(),
        distinct_coords(l1),
    ensures
        distinct_coords(l2),
{
    l1.to_multiset_ensures();
    l2.to_multiset_ensures();
    assert forall|i: int, j: int| 0 <= i < j < l2.len() implies #[trigger] l2[i].coord
        != #[trigger] l2[j].coord by {
        if l2[i].coord == l2[j].coord {
            if l2[i] == l2[j] {
                lemma_two_count(l2, i, j);
                lemma_count_two(l1, l2[i]);
            } else {
                assert(l2.contains(l2[i]) && l2.contains(l2[j]));
                assert(l1.to_multiset().count(l2[i]) >= 1);
                assert(l1.to_multiset().count(l2[j]) >= 1);
                assert(l1.contains(l2[i]) && l1.contains(l2[j]));
                let a = choose|a: int| 0 <= a < l1.len() && l1[a] == l2[i];
                let b = choose|b: int| 0 <= b < l1.len() && l1[b] == l2[j];
                assert(a != b);
                assert(l1[a].coord != l1[b].coord);
            }
        }
    }
}

/// The occupancy map ignores record order: any two batches holding the
/// same records, with distinct coordinates, abstract to one map.
pub proof fn lemma_occ_of_perm(l1: Seq<LeafRec>, l2: Seq<LeafRec>)
    requires
        l1.to_multiset() == l2.to_multiset(),
        distinct_coords(l1),
    ensures
        occ_of(l1) == occ_of(l2),
{
    l1.to_multiset_ensures();
    l2.to_multiset_ensures();
    lemma_distinct_perm(l1, l2);
    assert forall|c: int| #[trigger] occ_of(l1).dom().contains(c) implies occ_of(
        l2,
    ).dom().contains(c) && occ_of(l1)[c] == occ_of(l2)[c] by {
        let i = choose|i: int| 0 <= i < l1.len() && #[trigger] l1[i].coord as int == c;
        assert(l1.contains(l1[i]));
        assert(l2.to_multiset().count(l1[i]) >= 1);
        assert(l2.contains(l1[i]));
        let i2 = choose|i2: int| 0 <= i2 < l2.len() && l2[i2] == l1[i];
        assert(l2[i2].coord as int == c);
        assert(occ_of(l2).dom().contains(c));
        lemma_occ_at(l1, i);
        lemma_occ_at(l2, i2);
    }
    assert forall|c: int| #[trigger] occ_of(l2).dom().contains(c) implies occ_of(
        l1,
    ).dom().contains(c) by {
        let i = choose|i: int| 0 <= i < l2.len() && #[trigger] l2[i].coord as int == c;
        assert(l2.contains(l2[i]));
        assert(l1.to_multiset().count(l2[i]) >= 1);
        assert(l1.contains(l2[i]));
        let i1 = choose|i1: int| 0 <= i1 < l1.len() && l1[i1] == l2[i];
        assert(l1[i1].coord as int == c);
    }
    assert(occ_of(l1) =~= occ_of(l2));
}

/// Sorts the batch by Morton coordinate (selection of the minimum into
/// a fresh vector), keeping exactly the same records.
pub fn sort_leaves(input: Vec<LeafRec>) -> (out: Vec<LeafRec>)
    ensures
        out@.to_multiset() == input@.to_multiset(),
        out@.len() == input@.len(),
        sorted(out@),
{
    proof {
        input@.to_multiset_ensures();
    }
    let mut rest = input;
    let mut out: Vec<LeafRec> = Vec::new();
    proof {
        out@.to_multiset_ensures();
        assert(out@.to_multiset().add(rest@.to_multiset()) =~= input@.to_multiset());
    }
    while rest.len() > 0
        invariant
            out@.to_multiset().add(rest@.to_multiset()) == input@.to_multiset(),
            out@.len() + rest@.len() == input@.len(),
            sorted(out@),
            forall|i: int, j: int|
                0 <= i < out@.len() && 0 <= j < rest@.len() ==> #[trigger] out@[i].coord
                    <= #[trigger] rest@[j].coord,
        decreases rest@.len(),
    {
        let mut m: usize = 0;
        let mut j: usize = 1;
        while j < rest.len()
            invariant
                0 <= m < j <= rest@.len(),
                rest@.len() > 0,
                forall|i: int| 0 <= i < j ==> rest@[m as int].coord <= #[trigger] rest@[i].coord,
            decreases rest@.len() - j,
        {
            if rest[j].coord < rest[m].coord {
                m = j;
            }
            j += 1;
        }
        let ghost old_out = out@;
        let ghost old_rest = rest@;
        let x = rest.remove(m);
        out.push(x);
        proof {
            old_rest.to_multiset_ensures();
            old_out.to_multiset_ensures();
            assert(rest@.to_multiset() == old_rest.to_multiset().remove(x));
            assert(out@.to_multiset() == old_out.to_multiset().insert(x));
            assert(old_rest.to_multiset().count(x) >= 1) by {
                assert(old_rest.contains(x));
            }
            assert(out@.to_multiset().add(rest@.to_multiset()) =~= old_out.to_multiset().add(
                old_rest.to_multiset(),
            ));
            rest@.to_multiset_ensures();
            out@.to_multiset_ensures();
            assert forall|a: int, b: int|
                0 <= a < out@.len() && 0 <= b < rest@.len() implies #[trigger] out@[a].coord
                <= #[trigger] rest@[b].coord by {
                assert(rest@[b] == if b < m { old_rest[b] } else { old_rest[b + 1] });
            }
            assert(sorted(out@)) by {
                assert(forall|a: int| 0 <= a < old_out.len() ==> out@[a] == old_out[a]);
                assert(out@[out@.len() - 1] == x);
            }
        }
    }
    proof {
        broadcast use vstd::multiset::group_multiset_axioms;
        vstd::multiset::lemma_multiset_empty_len(rest@.to_multiset());
        rest@.to_multiset_ensures();
        assert(out@.to_multiset() =~= out@.to_multiset().add(rest@.to_multiset()));
    }
    out
}

/// Powers of eight never shrink as the exponent grows.
pub proof fn lemma_pow8_mono(a: nat, b: nat)
    requires
        a <= b,
    ensures
        pow8(a) <= pow8(b),
    decreases b,
{
    if a < b {
        lemma_pow8_mono(a, (b - 1) as nat);
        lemma_pow8_pos((b - 1) as nat);
    }
}

/// `8^k` is `2^(3k)`.
pub proof fn lemma_pow8_pow2(k: nat)
    ensures
        pow8(k) == vstd::arithmetic::power2::pow2(3 * k),
    decreases k,
{
    vstd::arithmetic::power2::lemma2_to64();
    if k > 0 {
        lemma_pow8_pow2((k - 1) as nat);
        vstd::arithmetic::power2::lemma_pow2_adds(3, (3 * k - 3) as nat);
        assert(3 * ((k - 1) as nat) == 3 * k - 3);
    }
}

/// `8^k` for spans the builder can address.
pub fn pow8_u64(k: u8) -> (p: u64)
    requires
        k <= 10,
    ensures
        p == pow8(k as nat),
{
    let mut i: u8 = 0;
    let mut p: u64 = 1;
    while i < k
        invariant
            i <= k,
            k <= 10,
            p == pow8(i as nat),
        decreases k - i,
    {
        proof {
            lemma_pow8_mono(i as nat, 9);
            lemma_pow8_pow2(9);
            vstd::arithmetic::power2::lemma2_to64();
        }
        p = 8 * p;
        i += 1;
    }
    p
}

/// One cascade step: the logical tree of the code range
/// `[base, base + 8^k)`, built from the sorted slice `leaves[lo..hi]`
/// of the records falling in that range. An eight-entry level buffer
/// gathers the child octants; a group with no occupied entry collapses
/// to `Empty`, a group of eight equal leaves merges into one `Leaf`,
/// and any other group becomes an explicit `Parent`.
fn build_node(leaves: &Vec<LeafRec>, lo: usize, hi: usize, base: u64, k: u8) -> (t: OctNode)
    requires
        lo <= hi <= leaves@.len(),
        sorted(leaves@),
        distinct_coords(leaves@),
        k <= 10,
        base as int + pow8(k as nat) <= u64::MAX as int,
        forall|i: int|
            lo <= i < hi ==> base as int <= (#[trigger] leaves@[i].coord as int) < base as int
                + pow8(k as nat),
        forall|i: int| 0 <= i < lo ==> (#[trigger] leaves@[i].coord as int) < base as int,
        forall|i: int|
            hi <= i < leaves@.len() ==> (#[trigger] leaves@[i].coord as int) >= base as int + pow8(
                k as nat,
            ),
    ensures
        t@ == snode(occ_of(leaves@), base as int, pow8(k as nat)),
    decreases k,
{
    let ghost occ = occ_of(leaves@);
    if lo == hi {
        proof {
            assert forall|c: int|
                base as int <= c < base as int + pow8(k as nat) implies !occ.dom().contains(c) by {
                if occ.dom().contains(c) {
                    let i = choose|i: int|
                        0 <= i < leaves@.len() && #[trigger] leaves@[i].coord as int == c;
                    assert(false);
                }
            }
            crate::model::lemma_snode_vacant(occ, base as int, k as nat);
        }
        return OctNode::Empty;
    }
    if k == 0 {
        if lo < hi {
            proof {
                assert(leaves@[lo as int].coord as int == base as int);
                lemma_occ_at(leaves@, lo as int);
            }
            OctNode::Leaf(leaves[lo].meta)
        } else {
            proof {
                if occ.dom().contains(base as int) {
                    let i = choose|i: int|
                        0 <= i < leaves@.len() && #[trigger] leaves@[i].coord as int == base as int;
                    assert(false);
                }
            }
            OctNode::Empty
        }
    } else {
        proof {
            lemma_pow8_div(k as nat);
            lemma_pow8_pos((k - 1) as nat);
        }
        let sub = pow8_u64(k - 1);
        let ghost cs = octants(occ, base as int, pow8((k - 1) as nat), 8);
        proof {
            lemma_octants_len(occ, base as int, pow8((k - 1) as nat), 8);
        }
        let mut buf = LevelBuffer::new();
        let mut cur = lo;
        let mut s: u8 = 0;
        while s < 8
            invariant
                lo <= cur <= hi <= leaves@.len(),
                s <= 8,
                k >= 1,
                k <= 10,
                sorted(leaves@),
                distinct_coords(leaves@),
                occ == occ_of(leaves@),
                sub == pow8((k - 1) as nat),
                sub >= 1,
                pow8(k as nat) == 8 * sub,
                base as int + 8 * (sub as int) <= u64::MAX as int,
                cs == octants(occ, base as int, sub as nat, 8),
                cs.len() == 8,
                buf.wf(),
                buf@.len() == s as int,
                forall|j: int| 0 <= j < s ==> #[trigger] buf@[j] == cs[j],
                forall|i: int|
                    lo <= i < hi ==> base as int <= (#[trigger] leaves@[i].coord as int) < base
                        as int + 8 * (sub as int),
                forall|i: int| 0 <= i < lo ==> (#[trigger] leaves@[i].coord as int) < base as int,
                forall|i: int|
                    hi <= i < leaves@.len() ==> (#[trigger] leaves@[i].coord as int) >= base as int
                        + 8 * (sub as int),
                forall|i: int|
                    lo <= i < cur ==> (#[trigger] leaves@[i].coord as int) < base as int + (
                    s as int) * (sub as int),
                forall|i: int|
                    cur <= i < hi ==> (#[trigger] leaves@[i].coord as int) >= base as int + (
                    s as int) * (sub as int),
            decreases 8 - s,
        {
            proof {
                assert(0 <= (s as int) * (sub as int) && (s as int + 1) * (sub as int) == (s as int)
                    * (sub as int) + sub as int && (s as int + 1) * (sub as int) <= 8 * (
                sub as int)) by (nonlinear_arith)
                    requires 0 <= s < 8, sub >= 1;
            }
            let bound: u64 = base + (s as u64 + 1) * sub;
            let mut nxt = cur;
            while nxt < hi && leaves[nxt].coord < bound
                invariant
                    cur <= nxt <= hi <= leaves@.len(),
                    forall|i: int|
                        cur <= i < nxt ==> (#[trigger] leaves@[i].coord as int) < bound as int,
                decreases hi - nxt,
            {
                nxt += 1;
            }
            proof {
                assert forall|i: int| nxt <= i < hi implies (#[trigger] leaves@[i].coord as int)
                    >= bound as int by {
                    if nxt < hi {
                        assert(leaves@[nxt as int].coord <= leaves@[i].coord);
                    }
                }
            }
            let b2: u64 = base + (s as u64) * sub;
            let child = build_node(leaves, cur, nxt, b2, k - 1);
            proof {
                lemma_octants_index(occ, base as int, sub as nat, 8, s as int);
            }
            let _full = buf.push(child);
            cur = nxt;
            s += 1;
        }
        let ghost pre = buf@;
        proof {
            assert(pre =~= cs);
        }
        let empty = buf.is_empty();
        let unif = buf.is_uniform();
        let children = buf.drain();
        if empty {
            proof {
                assert(all_empty(cs));
            }
            OctNode::Empty
        } else if unif {
            proof {
                assert(views_of(children@, 8) == cs);
                lemma_views_of_index(children@, 8, 0);
            }
            let m = match &children[0] {
                OctNode::Leaf(m) => *m,
                _ => {
                    proof {
                        assert(cs[0] is Leaf);
                        assert(false);
                    }
                    0
                },
            };
            proof {
                assert(snode(occ, base as int, pow8(k as nat)) == cs[0]);
                assert(cs[0] == SNode::Leaf(m));
            }
            OctNode::Leaf(m)
        } else {
            proof {
                assert(views_of(children@, 8) == cs);
                assert(children@.len() == 8);
                assert(snode(occ, base as int, pow8(k as nat)) == SNode::Parent(cs));
            }
            OctNode::Parent(children)
        }
    }
}

/// The number of array entries the descendants of the pending subtree
/// `t` will occupy.
fn rsize(t: &OctNode, Ghost(k): Ghost<nat>) -> (n: usize)
    requires
        wf_depth(t@, k),
        rlen(t@) <= usize::MAX,
    ensures
        n == rlen(t@),
    decreases k,
{
    match t {
        OctNode::Parent(v) => {
            let ghost cs = views_of(v@, v@.len() as nat);
            proof {
                lemma_views_of_len(v@, v@.len() as nat);
                assert(cs.len() == v@.len() == 8);
            }
            let mut acc: usize = 0;
            let mut i: usize = 0;
            while i < 8
                invariant
                    i <= 8,
                    v@.len() == 8,
                    cs == views_of(v@, 8),
                    cs.len() == 8,
                    t@ == SNode::Parent(cs),
                    wf_depth(t@, k),
                    rlen(t@) <= usize::MAX,
                    acc == ccount(cs, i as nat) + rsum(cs, i as nat),
                decreases 8 - i,
            {
                proof {
                    lemma_views_of_index(v@, 8, i as int);
                    lemma_wf_children_index(cs, (k - 1) as nat, 8, i as int);
                    lemma_ccount_mono(cs, (i + 1) as nat, 8);
                    lemma_rsum_mono(cs, (i + 1) as nat, 8);
                    assert(ccount(cs, (i + 1) as nat) + rsum(cs, (i + 1) as nat) <= rlen(t@));
                }
                match &v[i] {
                    OctNode::Empty => {},
                    _ => {
                        acc += 1;
                    },
                }
                let c = rsize(&v[i], Ghost((k - 1) as nat));
                acc += c;
                i += 1;
            }
            acc
        },
        _ => 0,
    }
}

/// The finished-array record of the pending subtree `t`, given that the
/// block of its descendants starts at index `o`: child `s`, if present,
/// is the `ccount(_, s)`-th entry of that block.
fn make_record(t: &OctNode, o: usize, Ghost(k): Ghost<nat>) -> (r: TreeNode)
    requires
        wf_depth(t@, k),
        o + 8 <= usize::MAX,
    ensures
        r@ == gnode_of(t@, o as int),
{
    match t {
        OctNode::Empty => TreeNode::Empty,
        OctNode::Leaf(m) => TreeNode::Leaf(*m),
        OctNode::Parent(v) => {
            let ghost cs = views_of(v@, v@.len() as nat);
            proof {
                lemma_views_of_len(v@, v@.len() as nat);
            }
            let mut ptrs: Vec<usize> = Vec::new();
            let mut cnt: usize = 0;
            let mut s: usize = 0;
            while s < 8
                invariant
                    s <= 8,
                    v@.len() == 8,
                    cs == views_of(v@, 8),
                    cs.len() == 8,
                    o + 8 <= usize::MAX,
                    ptrs@.len() == s,
                    cnt == ccount(cs, s as nat),
                    cnt <= s,
                    forall|j: int|
                        0 <= j < s ==> #[trigger] ptrs@[j] as int == (if cs[j] is Empty {
                            0int
                        } else {
                            o + ccount(cs, j as nat)
                        }),
                decreases 8 - s,
            {
                proof {
                    lemma_views_of_index(v@, 8, s as int);
                }
                match &v[s] {
                    OctNode::Empty => {
                        ptrs.push(0);
                    },
                    _ => {
                        ptrs.push(o + cnt);
                        cnt += 1;
                    },
                }
                s += 1;
            }
            let r = TreeNode::Parent(ptrs);
            proof {
                let target = gnode_of(t@, o as int);
                assert(r@->Parent_0 =~= target->Parent_0);
            }
            r
        },
    }
}

/// Appends the descendant block of the pending subtree `t` to the
/// array being emitted: the records of its non-empty children in
/// ascending slot order, then their own blocks in descending slot
/// order.
fn emit_r(t: &OctNode, out: &mut Vec<TreeNode>, Ghost(k): Ghost<nat>)
    requires
        wf_depth(t@, k),
        old(out)@.len() + rlen(t@) + 8 <= usize::MAX,
    ensures
        final(out)@.len() == old(out)@.len() + rlen(t@),
        gseq(final(out)@) == gseq(old(out)@) + r_of(t@, old(out)@.len() as int),
    decreases k,
{
    match t {
        OctNode::Parent(v) => {
            let ghost cs = views_of(v@, v@.len() as nat);
            let ghost base = gseq(old(out)@);
            proof {
                lemma_views_of_len(v@, v@.len() as nat);
            }
            let o = out.len();
            let mut sizes: Vec<usize> = Vec::new();
            let mut kc: usize = 0;
            let mut s: usize = 0;
            while s < 8
                invariant
                    s <= 8,
                    v@.len() == 8,
                    cs == views_of(v@, 8),
                    cs.len() == 8,
                    t@ == SNode::Parent(cs),
                    wf_depth(t@, k),
                    rlen(t@) <= usize::MAX,
                    sizes@.len() == s,
                    forall|j: int| 0 <= j < s ==> #[trigger] sizes@[j] == rlen(cs[j]),
                    kc == ccount(cs, s as nat),
                decreases 8 - s,
            {
                proof {
                    lemma_views_of_index(v@, 8, s as int);
                    lemma_wf_children_index(cs, (k - 1) as nat, 8, s as int);
                    lemma_ccount_mono(cs, (s + 1) as nat, 8);
                    lemma_rsum_mono(cs, s as nat, (s + 1) as nat);
                    lemma_rsum_mono(cs, (s + 1) as nat, 8);
                }
                let c = rsize(&v[s], Ghost((k - 1) as nat));
                match &v[s] {
                    OctNode::Empty => {},
                    _ => {
                        kc += 1;
                    },
                }
                sizes.push(c);
                s += 1;
            }
            let ghost rs = rsum(cs, 8);
            let ghost rl = rlen(t@);
            proof {
                assert(rl == ccount(cs, 8) + rs);
            }
            let mut s: usize = 0;
            while s < 8
                invariant
                    s <= 8,
                    v@.len() == 8,
                    cs == views_of(v@, 8),
                    cs.len() == 8,
                    t@ == SNode::Parent(cs),
                    wf_depth(t@, k),
                    sizes@.len() == 8,
                    forall|j: int| 0 <= j < 8 ==> #[trigger] sizes@[j] == rlen(cs[j]),
                    kc == ccount(cs, 8),
                    rs == rsum(cs, 8),
                    rl == rlen(t@),
                    o + rl + 8 <= usize::MAX,
                    o == base.len(),
                    base == gseq(old(out)@),
                    out@.len() == o + ccount(cs, s as nat),
                    gseq(out@) == base + recs(cs, o as int, s as nat),
                decreases 8 - s,
            {
                proof {
                    lemma_views_of_index(v@, 8, s as int);
                    lemma_wf_children_index(cs, (k - 1) as nat, 8, s as int);
                    lemma_ccount_mono(cs, (s + 1) as nat, 8);
                    crate::layout::lemma_recs_len(cs, o as int, s as nat);
                }
                match &v[s] {
                    OctNode::Empty => {
                        proof {
                            assert(recs(cs, o as int, (s + 1) as nat) =~= recs(
                                cs,
                                o as int,
                                s as nat,
                            ));
                        }
                    },
                    _ => {
                        let mut sf: usize = 0;
                        let mut s2: usize = s + 1;
                        proof {
                            lemma_rsum_mono(cs, (s + 1) as nat, 8);
                            assert(rs <= rl);
                        }
                        while s2 < 8
                            invariant
                                s + 1 <= s2 <= 8,
                                s < 8,
                                cs.len() == 8,
                                sizes@.len() == 8,
                                forall|j: int| 0 <= j < 8 ==> #[trigger] sizes@[j] == rlen(cs[j]),
                                rs == rsum(cs, 8),
                                sf == rsum(cs, s2 as nat) - rsum(cs, (s + 1) as nat),
                                sf <= rs,
                                rs <= usize::MAX,
                            decreases 8 - s2,
                        {
                            proof {
                                lemma_rsum_mono(cs, (s + 1) as nat, (s2 + 1) as nat);
                                lemma_rsum_mono(cs, (s2 + 1) as nat, 8);
                            }
                            sf += sizes[s2];
                            s2 += 1;
                        }
                        let rec = make_record(&v[s], o + kc + sf, Ghost((k - 1) as nat));
                        let ghost pre = out@;
                        out.push(rec);
                        proof {
                            assert(o + kc + sf == bstart(cs, s as int, o as int));
                            assert(recs(cs, o as int, (s + 1) as nat) =~= recs(
                                cs,
                                o as int,
                                s as nat,
                            ) + seq![gnode_of(cs[s as int], bstart(cs, s as int, o as int))]);
                            assert(gseq(out@) =~= gseq(pre) + seq![rec@]);
                            assert(gseq(out@) =~= base + recs(cs, o as int, (s + 1) as nat));
                        }
                    },
                }
                s += 1;
            }
            proof {
                crate::layout::lemma_recs_len(cs, o as int, 8);
                assert(gseq(out@) + blocks(cs, out@.len() as int, 8) =~= base + r_of(
                    t@,
                    o as int,
                ));
            }
            let mut s: usize = 8;
            while s > 0
                invariant
                    s <= 8,
                    v@.len() == 8,
                    cs == views_of(v@, 8),
                    cs.len() == 8,
                    t@ == SNode::Parent(cs),
                    wf_depth(t@, k),
                    kc == ccount(cs, 8),
                    rs == rsum(cs, 8),
                    rl == rlen(t@),
                    o == base.len(),
                    base == gseq(old(out)@),
                    o + rl + 8 <= usize::MAX,
                    out@.len() == o + kc + (rs - rsum(cs, s as nat)),
                    gseq(out@) + blocks(cs, out@.len() as int, s as nat) == base + r_of(
                        t@,
                        o as int,
                    ),
                decreases s,
            {
                s -= 1;
                proof {
                    lemma_views_of_index(v@, 8, s as int);
                    lemma_wf_children_index(cs, (k - 1) as nat, 8, s as int);
                    lemma_rsum_mono(cs, s as nat, (s + 1) as nat);
                    lemma_rsum_mono(cs, (s + 1) as nat, 8);
                    assert(rsum(cs, (s + 1) as nat) == rsum(cs, s as nat) + rlen(cs[s as int]));
                }
                let ghost lpre = out@.len() as int;
                let ghost gpre = gseq(out@);
                emit_r(&v[s], out, Ghost((k - 1) as nat));
                proof {
                    assert(blocks(cs, lpre, (s + 1) as nat) == r_of(cs[s as int], lpre) + blocks(
                        cs,
                        lpre + rlen(cs[s as int]),
                        s as nat,
                    ));
                    assert(gseq(out@) + blocks(cs, out@.len() as int, s as nat) =~= gpre + blocks(
                        cs,
                        lpre,
                        (s + 1) as nat,
                    ));
                }
            }
            proof {
                assert(gseq(out@) =~= gseq(out@) + blocks(cs, out@.len() as int, 0));
                crate::layout::lemma_r_len(t@, o as int);
            }
        },
        _ => {
            proof {
                assert(gseq(out@) =~= gseq(out@) + r_of(t@, out@.len() as int));
            }
        },
    }
}

/// The input batch is acceptable for depth parameter `k` (the number of
/// levels below the root): it fits in `8^k` leaves, every coordinate is
/// addressable, and no coordinate repeats.
pub open spec fn input_ok(s: Seq<LeafRec>, k: nat) -> bool {
    &&& s.len() <= pow8(k)
    &&& forall|i: int| 0 <= i < s.len() ==> (#[trigger] s[i].coord as int) < pow8(k)
    &&& distinct_coords(s)
}

/// Which structural fault a bad batch is reported with: an oversized
/// batch first, then an out-of-range coordinate, then a duplicate.
pub open spec fn err_of(s: Seq<LeafRec>, k: nat) -> BuildError {
    if s.len() > pow8(k) {
        BuildError::TooManyLeaves
    } else if exists|i: int| 0 <= i < s.len() && (#[trigger] s[i].coord as int) >= pow8(k) {
        BuildError::CoordOutOfRange
    } else {
        BuildError::DuplicateCoord
    }
}

impl Tree {
    /// Builds the octree for an input batch of leaf records.
    ///
    /// The batch need not be ordered: it is sorted by Morton code
    /// first, so the output is a function of the set of records alone.
    /// A batch that exceeds `8^(max_depth - 1)` leaves, addresses a
    /// coordinate outside that range, or repeats a coordinate is
    /// rejected whole. On success the array is exactly the layout of
    /// the canonical collapsed tree of the batch's occupancy: empty
    /// regions appear as single `Empty` entries, uniform regions as
    /// single merged `Leaf` entries, and index 0 is the root.
    pub fn build(leaves: Vec<LeafRec>, max_depth: u8) -> (r: Result<Tree, BuildError>)
        requires
            1 <= max_depth <= 11,
        ensures
            match r {
                Ok(t) => {
                    &&& input_ok(leaves@, (max_depth - 1) as nat)
                    &&& t.wf()
                    &&& t.max_depth == max_depth
                    &&& t@ == flat(
                        snode(occ_of(leaves@), 0, pow8((max_depth - 1) as nat)),
                    )
                    &&& t@.len() >= 1
                },
                Err(e) => {
                    &&& !input_ok(leaves@, (max_depth - 1) as nat)
                    &&& e == err_of(leaves@, (max_depth - 1) as nat)
                },
            },
    {
        let ghost orig = leaves@;
        let ghost k_g = (max_depth - 1) as nat;
        let k = max_depth - 1;
        let ml = pow8_u64(k);
        if leaves.len() as u64 > ml {
            return Err(BuildError::TooManyLeaves);
        }
        let n = leaves.len();
        let mut i: usize = 0;
        while i < n
            invariant
                n == leaves@.len(),
                i <= n,
                k_g == (max_depth - 1) as nat,
                ml == pow8(k_g),
                leaves@.len() <= pow8(k_g),
                forall|j: int| 0 <= j < i ==> (#[trigger] leaves@[j].coord as int) < pow8(k_g),
            decreases n - i,
        {
            if leaves[i].coord >= ml {
                proof {
                    assert((leaves@[i as int].coord as int) >= pow8(k_g));
                }
                return Err(BuildError::CoordOutOfRange);
            }
            i += 1;
        }
        let mut i: usize = 0;
        while i < n
            invariant
                n == leaves@.len(),
                i <= n,
                k_g == (max_depth - 1) as nat,
                leaves@.len() <= pow8(k_g),
                forall|j: int| 0 <= j < n ==> (#[trigger] leaves@[j].coord as int) < pow8(k_g),
                forall|a: int, b: int|
                    0 <= a < b < n && a < i ==> #[trigger] leaves@[a].coord != #[trigger] leaves@[b].coord,
            decreases n - i,
        {
            let mut j: usize = i + 1;
            while j < n
                invariant
                    n == leaves@.len(),
                    i < j <= n,
                    i < n,
                    k_g == (max_depth - 1) as nat,
                    leaves@.len() <= pow8(k_g),
                    forall|j2: int| 0 <= j2 < n ==> (#[trigger] leaves@[j2].coord as int) < pow8(k_g),
                    forall|a: int, b: int|
                        0 <= a < b < n && a < i ==> #[trigger] leaves@[a].coord != #[trigger] leaves@[b].coord,
                    forall|b: int|
                        i < b < j ==> leaves@[i as int].coord != #[trigger] leaves@[b].coord,
                decreases n - j,
            {
                if leaves[i].coord == leaves[j].coord {
                    proof {
                        assert(leaves@[i as int].coord == leaves@[j as int].coord);
                        assert(!distinct_coords(leaves@));
                    }
                    return Err(BuildError::DuplicateCoord);
                }
                j += 1;
            }
            i += 1;
        }
        proof {
            assert(distinct_coords(orig));
            assert(input_ok(orig, k_g));
        }
        let sorted_v = sort_leaves(leaves);
        proof {
            orig.to_multiset_ensures();
            sorted_v@.to_multiset_ensures();
            lemma_distinct_perm(orig, sorted_v@);
            lemma_occ_of_perm(orig, sorted_v@);
            assert forall|i2: int|
                0 <= i2 < sorted_v@.len() implies (#[trigger] sorted_v@[i2].coord as int) < pow8(
                k_g,
            ) by {
                assert(sorted_v@.contains(sorted_v@[i2]));
                assert(orig.to_multiset().count(sorted_v@[i2]) >= 1);
                assert(orig.contains(sorted_v@[i2]));
                let j2 = choose|j2: int| 0 <= j2 < orig.len() && orig[j2] == sorted_v@[i2];
                assert((orig[j2].coord as int) < pow8(k_g));
            }
            lemma_pow8_mono(k_g, 10);
            lemma_pow8_pow2(10);
            vstd::arithmetic::power2::lemma2_to64();
        }
        let hi = sorted_v.len();
        let root = build_node(&sorted_v, 0, hi, 0, k);
        let ghost t_log = snode(occ_of(orig), 0, pow8(k_g));
        proof {
            assert(root@ == t_log);
            lemma_snode_wf(occ_of(orig), 0, k_g);
            lemma_rlen_nmax(t_log, k_g);
            lemma_nmax_mono(k_g, 10);
            lemma_nmax_ten();
            assert(usize::MAX >= 0xffffffff);
        }
        let mut nodes: Vec<TreeNode> = Vec::new();
        let rec = make_record(&root, 1, Ghost(k_g));
        nodes.push(rec);
        proof {
            assert(gseq(nodes@) =~= seq![rec@]);
        }
        emit_r(&root, &mut nodes, Ghost(k_g));
        proof {
            assert(gseq(nodes@) =~= flat(t_log));
        }
        Ok(Tree { nodes, max_depth })
    }
}

} // verus!
