//! The insert-based octree over bare Morton codes, and its bit-packed
//! encoding: each inserted code marks one unit voxel; an octant whose
//! eight slots all fill collapses into a single leaf bit of its parent,
//! and the finished pointer tree serializes breadth-first into 64-bit
//! words carrying a forward child offset and two occupancy masks.
//!
//! The contracts keep every tree [`canonical`]: an allocated subtree
//! always covers at least one code and never its whole range (a full
//! range merges away). With [`inv`] and the covered-code set this
//! pins the representation — [`lemma_canonical_unique`] — so the laws
//! at the end of the module pin the packed words: determinism under
//! reordering, the single-word empty and full serializations, the
//! root's word, and forward in-range child offsets.

use vstd::prelude::*;
use std::collections::VecDeque;
use crate::model::pow8;
use crate::model::lemma_pow8_div;
use crate::model::lemma_pow8_pos;
use crate::model::lemma_slot;
use crate::builder::lemma_pow8_mono;
use crate::builder::lemma_pow8_pow2;
use crate::morton::Morton;

verus! {

/// Whether an insertion filled its whole subtree.
#[derive(PartialEq, Eq, Structural)]
enum NodeCommand {
    Filled,
    Unfilled,
}

/// One region of the insert-based octree, spanning the Morton codes
/// `[min, max)`. Bit `s` of `valid_mask` says octant `s` holds
/// something; bit `s` of `leaf_mask` says octant `s` is entirely full
/// (and is then kept as a bit alone, its subtree dropped); `leaves[s]`
/// holds the subtree of a partially filled octant.
#[derive(Debug)]
pub struct Node {
    min: Morton,
    max: Morton,
    leaf_mask: u8,
    valid_mask: u8,
    leaves: Vec<Option<Box<Node>>>,
}

/// Bit `s` of the mask `m`.
pub open spec fn bit(m: u8, s: u8) -> bool {
    (m >> s) & 1 == 1
}

/// Structural soundness of a node: its span is a power of eight of at
/// least one level, a leaf bit implies the valid bit, an explicit
/// subtree exists exactly for the valid non-leaf octants of a span
/// above eight, and each subtree covers exactly its octant's range.
pub closed spec fn inv(n: Node) -> bool
    decreases n, 1int,
{
    let span = n.max.0 as int - n.min.0 as int;
    &&& n.leaves@.len() == 8
    &&& span >= 8
    &&& is_pow8(span)
    &&& n.max.0 <= u64::MAX
    &&& forall|s: u8| s < 8 ==> (bit(n.leaf_mask, s) ==> bit(n.valid_mask, s))
    &&& (span == 8 ==> n.leaf_mask == n.valid_mask)
    &&& forall|s: u8|
        s < 8 ==> ((#[trigger] n.leaves@[s as int]) is Some <==> (span > 8 && bit(
            n.valid_mask,
            s,
        ) && !bit(n.leaf_mask, s)))
    &&& inv_children(n.leaves@, n.min.0, (span / 8) as u64, 8)
}

/// `x` is a power of eight.
pub open spec fn is_pow8(x: int) -> bool {
    exists|d: nat| x == #[trigger] pow8(d)
}

/// Soundness of the first `s` subtrees of a node with octant width
/// `sub` above `base`: each present subtree spans exactly its octant
/// and is itself sound.
pub closed spec fn inv_children(l: Seq<Option<Box<Node>>>, base: u64, sub: u64, s: nat) -> bool
    decreases l, s,
{
    if s == 0 || l.len() < s {
        true
    } else {
        inv_children(l, base, sub, (s - 1) as nat) && match l[s - 1] {
            Some(c) => {
                &&& c.min.0 == base + (s - 1) * sub
                &&& c.max.0 == base + s * sub
                &&& inv(*c)
            },
            None => true,
        }
    }
}

/// Extracts one octant's facts from `inv_children`.
proof fn lemma_inv_children_index(
    l: Seq<Option<Box<Node>>>,
    base: u64,
    sub: u64,
    s: nat,
    j: int,
)
    requires
        inv_children(l, base, sub, s),
        0 <= j < s,
        s <= l.len(),
    ensures
        match l[j] {
            Some(c) => {
                &&& c.min.0 == base + j * sub
                &&& c.max.0 == base + (j + 1) * sub
                &&& inv(*c)
            },
            None => true,
        },
    decreases s,
{
    if j < s - 1 {
        lemma_inv_children_index(l, base, sub, (s - 1) as nat, j);
    }
}

/// Rebuilds `inv_children` from per-octant facts.
proof fn lemma_inv_children_build(l: Seq<Option<Box<Node>>>, base: u64, sub: u64, s: nat)
    requires
        s <= l.len(),
        forall|j: int|
            0 <= j < s ==> match #[trigger] l[j] {
                Some(c) => {
                    &&& c.min.0 == base + j * sub
                    &&& c.max.0 == base + (j + 1) * sub
                    &&& inv(*c)
                },
                None => true,
            },
    ensures
        inv_children(l, base, sub, s),
    decreases s,
{
    if s > 0 {
        lemma_inv_children_build(l, base, sub, (s - 1) as nat);
    }
}

/// The inserted codes a node covers: `c` lies in the node's range and
/// its octant is either a full leaf octant or covers `c` in its own
/// subtree.
pub closed spec fn covered(n: Node, c: u64) -> bool
    decreases n, 1int,
{
    let span = n.max.0 as int - n.min.0 as int;
    let sub = span / 8;
    &&& n.min.0 <= c < n.max.0
    &&& sub >= 1
    &&& {
        let s = (c as int - n.min.0 as int) / sub;
        &&& 0 <= s < 8
        &&& if bit(n.leaf_mask, s as u8) {
            true
        } else if n.leaves@.len() == 8 {
            match n.leaves@[s] {
                Some(child) => covered(*child, c),
                None => false,
            }
        } else {
            false
        }
    }
}

/// A node whose leaf mask is full covers its entire range.
proof fn lemma_full_covered(n: Node, c: u64)
    requires
        inv(n),
        n.leaf_mask == 0xff,
        n.min.0 <= c < n.max.0,
    ensures
        covered(n, c),
{
    let span = n.max.0 as int - n.min.0 as int;
    let sub = span / 8;
    lemma_span_split(n);
    lemma_slot(n.min.0 as int, sub, c as int);
    let s = (c as int - n.min.0 as int) / sub;
    let s8 = s as u8;
    assert(bit(0xffu8, s8) == true) by (bit_vector)
        requires s8 < 8;
}

/// An invariant-respecting span splits exactly into eight octants, and
/// the octant width is again a power of eight or the span was the
/// bottom one.
proof fn lemma_span_split(n: Node)
    requires
        inv(n),
    ensures
        (n.max.0 as int - n.min.0 as int) == 8 * ((n.max.0 as int - n.min.0 as int) / 8),
        (n.max.0 as int - n.min.0 as int) / 8 >= 1,
        (n.max.0 as int - n.min.0 as int) > 8 ==> ((n.max.0 as int - n.min.0 as int) / 8 >= 8
            && is_pow8((n.max.0 as int - n.min.0 as int) / 8)),
{
    let span = n.max.0 as int - n.min.0 as int;
    let d = choose|d: nat| span == #[trigger] pow8(d);
    if d == 0 {
        assert(pow8(0) == 1);
        assert(false);
    }
    lemma_pow8_div(d);
    assert(span / 8 == pow8((d - 1) as nat));
    lemma_pow8_pos((d - 1) as nat);
    if span > 8 {
        if d == 1 {
            assert(pow8(1nat) == 8);
            assert(false);
        }
        lemma_pow8_div((d - 1) as nat);
    }
}

/// Canonicity of the representation: every allocated subtree covers at
/// least one code, and no allocated subtree is fully covered — a
/// subtree whose range fills up is merged into a leaf bit of its
/// parent and dropped, the compression step of the format. Together
/// with [`inv`] and the covered-code set this pins the representation
/// completely (see [`lemma_canonical_unique`]).
pub closed spec fn canonical(n: Node) -> bool
    decreases n, 1int,
{
    canonical_children(n.leaves@, 8)
}

/// Canonicity of the first `s` subtrees of a node.
pub closed spec fn canonical_children(l: Seq<Option<Box<Node>>>, s: nat) -> bool
    decreases l, s,
{
    if s == 0 || l.len() < s {
        true
    } else {
        canonical_children(l, (s - 1) as nat) && match l[s - 1] {
            Some(c) => {
                &&& canonical(*c)
                &&& exists|code: u64| covered(*c, code)
                &&& exists|code: u64| c.min.0 <= code < c.max.0 && !covered(*c, code)
            },
            None => true,
        }
    }
}

/// Extracts one subtree's canonicity facts.
proof fn lemma_canonical_children_index(l: Seq<Option<Box<Node>>>, s: nat, j: int)
    requires
        canonical_children(l, s),
        0 <= j < s,
        s <= l.len(),
    ensures
        match l[j] {
            Some(c) => {
                &&& canonical(*c)
                &&& exists|code: u64| covered(*c, code)
                &&& exists|code: u64| c.min.0 <= code < c.max.0 && !covered(*c, code)
            },
            None => true,
        },
    decreases s,
{
    if j < s - 1 {
        lemma_canonical_children_index(l, (s - 1) as nat, j);
    }
}

/// Rebuilds `canonical_children` from per-subtree facts.
proof fn lemma_canonical_children_build(l: Seq<Option<Box<Node>>>, s: nat)
    requires
        s <= l.len(),
        forall|j: int|
            0 <= j < s ==> match #[trigger] l[j] {
                Some(c) => {
                    &&& canonical(*c)
                    &&& exists|code: u64| covered(*c, code)
                    &&& exists|code: u64| c.min.0 <= code < c.max.0 && !covered(*c, code)
                },
                None => true,
            },
    ensures
        canonical_children(l, s),
    decreases s,
{
    if s > 0 {
        lemma_canonical_children_build(l, (s - 1) as nat);
    }
}

/// Eight equal bits make equal masks.
proof fn lemma_mask_eq(a: u8, b: u8)
    requires
        forall|s: u8| s < 8 ==> bit(a, s) == bit(b, s),
    ensures
        a == b,
{
    assert(bit(a, 0) == bit(b, 0));
    assert(bit(a, 1) == bit(b, 1));
    assert(bit(a, 2) == bit(b, 2));
    assert(bit(a, 3) == bit(b, 3));
    assert(bit(a, 4) == bit(b, 4));
    assert(bit(a, 5) == bit(b, 5));
    assert(bit(a, 6) == bit(b, 6));
    assert(bit(a, 7) == bit(b, 7));
    assert(a == b) by (bit_vector)
        requires
            ((a >> 0) & 1 == 1) == ((b >> 0) & 1 == 1),
            ((a >> 1) & 1 == 1) == ((b >> 1) & 1 == 1),
            ((a >> 2) & 1 == 1) == ((b >> 2) & 1 == 1),
            ((a >> 3) & 1 == 1) == ((b >> 3) & 1 == 1),
            ((a >> 4) & 1 == 1) == ((b >> 4) & 1 == 1),
            ((a >> 5) & 1 == 1) == ((b >> 5) & 1 == 1),
            ((a >> 6) & 1 == 1) == ((b >> 6) & 1 == 1),
            ((a >> 7) & 1 == 1) == ((b >> 7) & 1 == 1),
    ;
}

/// What the mask bits of a sound, canonical node say about coverage:
/// the leaf bit of octant `s` holds exactly when the whole octant is
/// covered, and the valid bit exactly when some code of it is.
proof fn lemma_octant_bits(n: Node, s: u8)
    requires
        inv(n),
        canonical(n),
        s < 8,
    ensures
        bit(n.leaf_mask, s) <==> (forall|c: u64|
            octant_lo(n, s) <= c < octant_lo(n, s) + octant_sub(n) ==> covered(n, c)),
        bit(n.valid_mask, s) <==> (exists|c: u64|
            octant_lo(n, s) <= c < octant_lo(n, s) + octant_sub(n) && covered(n, c)),
    decreases n,
{
    lemma_span_split(n);
    let span = n.max.0 as int - n.min.0 as int;
    let sub = span / 8;
    let lo = octant_lo(n, s);
    assert((s as int) * sub + sub <= 8 * sub && 0 <= (s as int) * sub) by (nonlinear_arith)
        requires 0 <= s < 8, sub >= 1;
    assert(lo == n.min.0 + (s as int) * sub && lo as int + sub <= n.max.0) by (nonlinear_arith)
        requires
            0 <= s < 8,
            sub >= 1,
            span == 8 * sub,
            n.max.0 == n.min.0 as int + span,
            lo == n.min.0 + (s as int) * sub,
    ;
    if bit(n.leaf_mask, s) {
        assert forall|c: u64| lo <= c < lo + octant_sub(n) implies #[trigger] covered(n, c) by {
            vstd::arithmetic::div_mod::lemma_fundamental_div_mod_converse(
                c as int - n.min.0 as int,
                sub,
                s as int,
                c as int - lo as int,
            );
        }
        assert(covered(n, lo));
    } else {
        if bit(n.valid_mask, s) {
            assert(n.leaves@[s as int] is Some);
            let c0 = n.leaves@[s as int]->Some_0;
            lemma_inv_children_index(n.leaves@, n.min.0, sub as u64, 8, s as int);
            lemma_canonical_children_index(n.leaves@, 8, s as int);
            assert(c0.min.0 == lo && c0.max.0 == lo + octant_sub(n)) by (nonlinear_arith)
                requires
                    c0.min.0 == n.min.0 + (s as int) * sub,
                    c0.max.0 == n.min.0 + (s as int + 1) * sub,
                    lo == n.min.0 + (s as int) * sub,
                    octant_sub(n) == sub,
                    sub >= 1,
            ;
            let w = choose|code: u64| covered(*c0, code);
            assert(c0.min.0 <= w < c0.max.0);
            proof_slot_of(n, s, w);
            assert(covered(n, w));
            let u = choose|code: u64| c0.min.0 <= code < c0.max.0 && !covered(*c0, code);
            proof_slot_of(n, s, u);
            assert(!covered(n, u));
            assert(!(forall|c: u64|
                octant_lo(n, s) <= c < octant_lo(n, s) + octant_sub(n) ==> covered(n, c)));
        } else {
            assert(n.leaves@[s as int] is None);
            assert forall|c: u64|
                lo <= c < lo + octant_sub(n) implies !(#[trigger] covered(n, c)) by {
                vstd::arithmetic::div_mod::lemma_fundamental_div_mod_converse(
                    c as int - n.min.0 as int,
                    sub,
                    s as int,
                    c as int - lo as int,
                );
            }
            assert(!covered(n, lo));
        }
    }
}

/// A code inside octant `s` selects slot `s`.
proof fn proof_slot_of(n: Node, s: u8, c: u64)
    requires
        inv(n),
        s < 8,
        octant_lo(n, s) <= c < octant_lo(n, s) + octant_sub(n),
    ensures
        (c as int - n.min.0 as int) / ((n.max.0 as int - n.min.0 as int) / 8) == s as int,
{
    lemma_span_split(n);
    let span = n.max.0 as int - n.min.0 as int;
    let sub = span / 8;
    assert(octant_lo(n, s) == n.min.0 + (s as int) * sub) by (nonlinear_arith)
        requires
            0 <= s < 8,
            sub >= 1,
            span == 8 * sub,
            n.max.0 == n.min.0 as int + span,
    ;
    vstd::arithmetic::div_mod::lemma_fundamental_div_mod_converse(
        c as int - n.min.0 as int,
        sub,
        s as int,
        c as int - octant_lo(n, s) as int,
    );
}

/// The start of octant `s` of a node.
pub closed spec fn octant_lo(n: Node, s: u8) -> u64 {
    (n.min.0 + (s as int) * ((n.max.0 - n.min.0) as int / 8)) as u64
}

/// The width of one octant of a node.
pub closed spec fn octant_sub(n: Node) -> u64 {
    ((n.max.0 - n.min.0) as int / 8) as u64
}

/// Octant `s` of a sound node lies inside the node's range.
proof fn lemma_octant_range(n: Node, s: u8)
    requires
        inv(n),
        s < 8,
    ensures
        octant_sub(n) == (n.max.0 as int - n.min.0 as int) / 8,
        octant_lo(n, s) as int == n.min.0 as int + (s as int) * (octant_sub(n) as int),
        n.min.0 <= octant_lo(n, s),
        octant_lo(n, s) as int + octant_sub(n) as int <= n.max.0 as int,
{
    lemma_span_split(n);
    let span = n.max.0 as int - n.min.0 as int;
    let sub = span / 8;
    assert(0 <= (s as int) * sub && (s as int) * sub + sub <= 8 * sub) by (nonlinear_arith)
        requires 0 <= s < 8, sub >= 1;
}

/// A sound, canonical node covering nothing is the all-zero node: no
/// mask bits, no subtrees.
proof fn lemma_vacant_shape(n: Node)
    requires
        inv(n),
        canonical(n),
        forall|c: u64| !covered(n, c),
    ensures
        n.leaf_mask == 0,
        n.valid_mask == 0,
        forall|s: int| 0 <= s < 8 ==> (#[trigger] n.leaves@[s]) is None,
{
    assert forall|s: u8| s < 8 implies !bit(n.valid_mask, s) && !bit(n.leaf_mask, s) by {
        lemma_octant_bits(n, s);
        if bit(n.valid_mask, s) {
            let c = choose|c: u64|
                octant_lo(n, s) <= c < octant_lo(n, s) + octant_sub(n) && covered(n, c);
            assert(false);
        }
    }
    assert(forall|s: u8| s < 8 ==> !bit(0u8, s)) by {
        assert(forall|s: u8| s < 8 ==> (0u8 >> s) & 1 == 0) by (bit_vector);
    }
    lemma_mask_eq(n.leaf_mask, 0);
    lemma_mask_eq(n.valid_mask, 0);
    assert forall|s: int| 0 <= s < 8 implies (#[trigger] n.leaves@[s]) is None by {
        assert(!bit(n.valid_mask, s as u8));
    }
}

/// A sound, canonical node covering its whole range is the all-ones
/// node: both masks full, every subtree merged away.
proof fn lemma_full_shape(n: Node)
    requires
        inv(n),
        canonical(n),
        forall|c: u64| n.min.0 <= c < n.max.0 ==> #[trigger] covered(n, c),
    ensures
        n.leaf_mask == 0xff,
        n.valid_mask == 0xff,
        forall|s: int| 0 <= s < 8 ==> (#[trigger] n.leaves@[s]) is None,
{
    lemma_span_split(n);
    let span = n.max.0 as int - n.min.0 as int;
    let sub = span / 8;
    assert forall|s: u8| s < 8 implies bit(n.leaf_mask, s) && bit(n.valid_mask, s) by {
        lemma_octant_bits(n, s);
        lemma_octant_range(n, s);
        assert forall|c: u64|
            octant_lo(n, s) <= c < octant_lo(n, s) + octant_sub(n) implies covered(n, c) by {
            assert(n.min.0 <= c < n.max.0);
        }
    }
    assert(forall|s: u8| s < 8 ==> bit(0xffu8, s)) by {
        assert(forall|s: u8| s < 8 ==> (0xffu8 >> s) & 1 == 1) by (bit_vector);
    }
    lemma_mask_eq(n.leaf_mask, 0xff);
    lemma_mask_eq(n.valid_mask, 0xff);
    assert forall|s: int| 0 <= s < 8 implies (#[trigger] n.leaves@[s]) is None by {
        assert(bit(n.leaf_mask, s as u8));
    }
}

/// A sound, canonical node whose leaf mask is not yet full leaves some
/// code of its range uncovered.
proof fn lemma_not_full(n: Node)
    requires
        inv(n),
        canonical(n),
        n.leaf_mask != 0xff,
    ensures
        exists|c: u64| n.min.0 <= c < n.max.0 && !(#[trigger] covered(n, c)),
{
    lemma_span_split(n);
    let span = n.max.0 as int - n.min.0 as int;
    let sub = span / 8;
    assert(exists|s: u8| s < 8 && !bit(n.leaf_mask, s)) by {
        if forall|s: u8| s < 8 ==> bit(n.leaf_mask, s) {
            assert(forall|s: u8| s < 8 ==> bit(0xffu8, s)) by {
                assert(forall|s: u8| s < 8 ==> (0xffu8 >> s) & 1 == 1) by (bit_vector);
            }
            lemma_mask_eq(n.leaf_mask, 0xff);
        }
    }
    let s = choose|s: u8| s < 8 && !bit(n.leaf_mask, s);
    lemma_octant_bits(n, s);
    assert(!(forall|c: u64|
        octant_lo(n, s) <= c < octant_lo(n, s) + octant_sub(n) ==> covered(n, c)));
    let c = choose|c: u64|
        octant_lo(n, s) <= c < octant_lo(n, s) + octant_sub(n) && !covered(n, c);
    lemma_octant_range(n, s);
    assert(n.min.0 <= c < n.max.0);
    assert(!covered(n, c));
}

/// Setting one bit leaves every other bit alone.
proof fn lemma_bit_set(m: u8, sl: u8, t: u8)
    requires
        sl < 8,
        t < 8,
    ensures
        bit(m | (1u8 << sl), t) == (t == sl || bit(m, t)),
{
    assert(((m | (1u8 << sl)) >> t) & 1 == (if t == sl { 1u8 } else { (m >> t) & 1 }))
        by (bit_vector)
        requires sl < 8, t < 8;
}

impl Node {
    /// The lower end of the node's Morton range.
    pub closed spec fn spec_min(&self) -> u64 {
        self.min.0
    }

    /// The upper end of the node's Morton range.
    pub closed spec fn spec_max(&self) -> u64 {
        self.max.0
    }

    /// The mask of valid octants: bit `s` says octant `s` holds
    /// something.
    pub closed spec fn spec_valid_mask(&self) -> u8 {
        self.valid_mask
    }

    /// The mask of full octants: bit `s` says octant `s` is entirely
    /// covered and kept as this bit alone.
    pub closed spec fn spec_leaf_mask(&self) -> u8 {
        self.leaf_mask
    }

    /// A fresh node covering nothing, spanning the Morton codes
    /// `[min, max)`.
    pub fn new(min: Morton, max: Morton) -> (n: Node)
        requires
            min.0 < max.0,
            max.0 as int - min.0 as int >= 8,
            is_pow8(max.0 as int - min.0 as int),
        ensures
            inv(n),
            canonical(n),
            n.spec_min() == min.0,
            n.spec_max() == max.0,
            n.spec_valid_mask() == 0,
            n.spec_leaf_mask() == 0,
            node_is_leaf(n),
            forall|c: u64| !covered(n, c),
    {
        let mut leaves: Vec<Option<Box<Node>>> = Vec::new();
        let mut i: usize = 0;
        while i < 8
            invariant
                i <= 8,
                leaves@.len() == i,
                forall|j: int| 0 <= j < i ==> (#[trigger] leaves@[j]) is None,
            decreases 8 - i,
        {
            leaves.push(None);
            i += 1;
        }
        let n = Node { min, max, leaf_mask: 0, valid_mask: 0, leaves };
        proof {
            assert(forall|s: u8| s < 8 ==> !bit(0u8, s)) by {
                assert(forall|s: u8| s < 8 ==> (0u8 >> s) & 1 == 0) by (bit_vector);
            }
            lemma_inv_children_build(
                n.leaves@,
                n.min.0,
                ((n.max.0 as int - n.min.0 as int) / 8) as u64,
                8,
            );
            lemma_canonical_children_build(n.leaves@, 8);
            assert(forall|c: u64| !covered(n, c));
        }
        n
    }

    /// Whether every valid octant of this node is itself a full leaf:
    /// the node carries no further subdivision.
    fn is_leaf(&self) -> (r: bool)
        ensures
            r == (self.leaf_mask == self.valid_mask),
    {
        self.leaf_mask == self.valid_mask
    }

    /// Marks the Morton code `val` as occupied. Inserting a code the
    /// node already covers is excluded: duplicate insertions are a
    /// data-integrity fault of the producer.
    pub fn insert_node(&mut self, val: Morton)
        requires
            inv(*old(self)),
            canonical(*old(self)),
            old(self).spec_min() <= val.0 < old(self).spec_max(),
            !covered(*old(self), val.0),
        ensures
            inv(*final(self)),
            canonical(*final(self)),
            final(self).spec_min() == old(self).spec_min(),
            final(self).spec_max() == old(self).spec_max(),
            forall|c: u64|
                #[trigger] covered(*final(self), c) <==> covered(*old(self), c) || c == val.0,
            forall|s: u8|
                s < 8 && bit(old(self).spec_valid_mask(), s) ==> bit(
                    final(self).spec_valid_mask(),
                    s,
                ),
            forall|s: u8|
                s < 8 && bit(old(self).spec_leaf_mask(), s) ==> bit(
                    final(self).spec_leaf_mask(),
                    s,
                ),
    {
        let _ = self.insert_node_command(val);
    }

    /// The recursive insertion: walks to `val`'s octant, creating or
    /// descending into its subtree, and reports whether this whole
    /// subtree is now full, so that the caller can merge it into a
    /// single leaf bit.
    fn insert_node_command(&mut self, val: Morton) -> (r: NodeCommand)
        requires
            inv(*old(self)),
            canonical(*old(self)),
            old(self).spec_min() <= val.0 < old(self).spec_max(),
            !covered(*old(self), val.0),
        ensures
            inv(*final(self)),
            canonical(*final(self)),
            final(self).min == old(self).min,
            final(self).max == old(self).max,
            forall|c: u64|
                #[trigger] covered(*final(self), c) <==> covered(*old(self), c) || c == val.0,
            forall|s: u8|
                s < 8 && bit(old(self).valid_mask, s) ==> bit(final(self).valid_mask, s),
            forall|s: u8| s < 8 && bit(old(self).leaf_mask, s) ==> bit(final(self).leaf_mask, s),
            r is Filled <==> final(self).leaf_mask == 0xff,
        decreases old(self).max.0 - old(self).min.0,
    {
        proof {
            lemma_span_split(*self);
        }
        let ghost n0 = *self;
        let ghost span = self.max.0 as int - self.min.0 as int;
        let total = self.max.0 - self.min.0;
        let tru = val.0 - self.min.0;
        let div = total / 8;
        let slot = tru / div;
        proof {
            lemma_slot(self.min.0 as int, div as int, val.0 as int);
        }
        let sl = slot as u8;
        let ghost lsub = div;
        if total > 8 {
            let vbit = (self.valid_mask >> sl) & 1 == 1;
            let lbit = (self.leaf_mask >> sl) & 1 == 1;
            proof {
                if lbit {
                    assert(covered(n0, val.0));
                    assert(false);
                }
            }
            if vbit {
                let mut child_opt = self.leaves.remove(slot as usize);
                let ghost l0 = n0.leaves@;
                match child_opt {
                    Some(mut boxed) => {
                        proof {
                            lemma_inv_children_index(l0, n0.min.0, lsub, 8, sl as int);
                            lemma_canonical_children_index(l0, 8, sl as int);
                            assert((sl as int) * (lsub as int) + lsub as int == (sl as int + 1) * (
                            lsub as int)) by (nonlinear_arith);
                            assert(!covered(*boxed, val.0));
                        }
                        let cmd = boxed.insert_node_command(val);
                        let ghost nb = *boxed;
                        let filled = match cmd {
                            NodeCommand::Filled => true,
                            _ => false,
                        };
                        if filled {
                            self.leaf_mask = self.leaf_mask | (1u8 << sl);
                            self.leaves.insert(slot as usize, None);
                        } else {
                            self.leaves.insert(slot as usize, Some(boxed));
                        }
                        proof {
                            assert(forall|j: int|
                                0 <= j < 8 && j != sl ==> #[trigger] self.leaves@[j] == l0[j]);
                            assert(forall|t: u8|
                                t < 8 && t != sl ==> (bit(self.leaf_mask, t) == bit(
                                    n0.leaf_mask,
                                    t,
                                ) && bit(self.valid_mask, t) == bit(n0.valid_mask, t))) by {
                                assert forall|t: u8| t < 8 && t != sl implies (bit(
                                    self.leaf_mask,
                                    t,
                                ) == bit(n0.leaf_mask, t) && bit(self.valid_mask, t) == bit(
                                    n0.valid_mask,
                                    t,
                                )) by {
                                    lemma_bit_set(n0.leaf_mask, sl, t);
                                }
                            }
                            if filled {
                                lemma_bit_set(n0.leaf_mask, sl, sl);
                            }
                            assert forall|j: int| 0 <= j < 8 implies match #[trigger] self.leaves@[j] {
                                Some(c) => {
                                    &&& c.min.0 == n0.min.0 + j * lsub
                                    &&& c.max.0 == n0.min.0 + (j + 1) * lsub
                                    &&& inv(*c)
                                },
                                None => true,
                            } by {
                                lemma_inv_children_index(l0, n0.min.0, lsub, 8, j);
                            }
                            lemma_inv_children_build(self.leaves@, n0.min.0, lsub, 8);
                            assert(inv(*self)) by {
                                assert forall|s: u8|
                                    s < 8 implies (bit(self.leaf_mask, s) ==> bit(
                                    self.valid_mask,
                                    s,
                                )) by {
                                    lemma_bit_set(n0.leaf_mask, sl, s);
                                }
                                assert forall|s: u8|
                                    s < 8 implies ((#[trigger] self.leaves@[s as int]) is Some <==> (
                                span > 8 && bit(self.valid_mask, s) && !bit(self.leaf_mask, s))) by {
                                    lemma_bit_set(n0.leaf_mask, sl, s);
                                }
                            }
                            assert forall|t: u8|
                                t < 8 && bit(n0.leaf_mask, t) implies bit(self.leaf_mask, t) by {
                                if filled {
                                    lemma_bit_set(n0.leaf_mask, sl, t);
                                }
                            }
                            assert forall|j: int| 0 <= j < 8 implies match #[trigger] self.leaves@[j] {
                                Some(c) => {
                                    &&& canonical(*c)
                                    &&& exists|code: u64| covered(*c, code)
                                    &&& exists|code: u64|
                                        c.min.0 <= code < c.max.0 && !covered(*c, code)
                                },
                                None => true,
                            } by {
                                lemma_canonical_children_index(l0, 8, j);
                                if j == sl as int && !filled {
                                    assert(self.leaves@[j] is Some);
                                    assert(*self.leaves@[j]->Some_0 == nb);
                                    assert(covered(nb, val.0));
                                    lemma_not_full(nb);
                                }
                            }
                            lemma_canonical_children_build(self.leaves@, 8);
                            assert(canonical(*self));
                            assert forall|c: u64| #[trigger] covered(*self, c) <==> covered(n0, c)
                                || c == val.0 by {
                                if n0.min.0 <= c < n0.max.0 {
                                    lemma_slot(n0.min.0 as int, lsub as int, c as int);
                                    let sc = (c as int - n0.min.0 as int) / (lsub as int);
                                    lemma_bit_set(n0.leaf_mask, sl, sc as u8);
                                    if sc == sl as int {
                                        let oldchild = l0[sl as int]->Some_0;
                                        assert(covered(n0, c) == covered(*oldchild, c));
                                        assert(covered(nb, c) == (covered(*oldchild, c) || c
                                            == val.0));
                                        if filled {
                                            assert(nb.leaf_mask == 0xff);
                                            assert(nb.min.0 <= c < nb.max.0) by (nonlinear_arith)
                                                requires
                                                    nb.min.0 == n0.min.0 + (sl as int) * (lsub as int),
                                                    nb.max.0 == n0.min.0 + (sl as int + 1) * (lsub as int),
                                                    n0.min.0 + sc * (lsub as int) <= c < n0.min.0 + sc * (lsub as int) + lsub as int,
                                                    sc == sl as int,
                                                    lsub >= 1;
                                            lemma_full_covered(nb, c);
                                            assert(covered(*self, c));
                                        } else {
                                            assert(self.leaves@[sl as int] is Some);
                                            assert(*self.leaves@[sl as int]->Some_0 == nb);
                                            assert(covered(*self, c) == covered(nb, c));
                                        }
                                    } else {
                                        assert(c != val.0);
                                        assert(self.leaves@[sc] == l0[sc]);
                                        assert(covered(*self, c) == covered(n0, c));
                                    }
                                } else {
                                    assert(!covered(*self, c) && !covered(n0, c) && c != val.0);
                                }
                            }
                        }
                    },
                    None => {
                        proof {
                            assert(l0[sl as int] is Some);
                            assert(false);
                        }
                        NodeCommand::Unfilled;
                    },
                }
            } else {
                proof {
                    assert(n0.min.0 as int + (div as int) * (slot as int) + div as int
                        <= n0.max.0) by (nonlinear_arith)
                        requires
                            0 <= slot < 8,
                            div >= 1,
                            span == 8 * (div as int),
                            n0.max.0 == n0.min.0 + span;
                }
                let leaf_min = self.min.0 + div * slot;
                let mut leaf = Node::new(Morton(leaf_min), Morton(leaf_min + div));
                proof {
                    assert((lsub as int) * (sl as int) == (sl as int) * (lsub as int))
                        by (nonlinear_arith);
                }
                let _ = leaf.insert_node_command(val);
                let ghost nb = leaf;
                self.valid_mask = self.valid_mask | (1u8 << sl);
                let ghost l0 = n0.leaves@;
                let removed = self.leaves.remove(slot as usize);
                proof {
                    assert(removed is None);
                }
                self.leaves.insert(slot as usize, Some(Box::new(leaf)));
                proof {
                    assert(forall|j: int|
                        0 <= j < 8 && j != sl ==> #[trigger] self.leaves@[j] == l0[j]);
                    assert forall|j: int| 0 <= j < 8 implies match #[trigger] self.leaves@[j] {
                        Some(c) => {
                            &&& c.min.0 == n0.min.0 + j * lsub
                            &&& c.max.0 == n0.min.0 + (j + 1) * lsub
                            &&& inv(*c)
                        },
                        None => true,
                    } by {
                        lemma_inv_children_index(l0, n0.min.0, lsub, 8, j);
                        if j == sl as int {
                            assert((sl as int) * (lsub as int) + lsub as int == (sl as int + 1) * (
                            lsub as int)) by (nonlinear_arith);
                        }
                    }
                    lemma_inv_children_build(self.leaves@, n0.min.0, lsub, 8);
                    assert(inv(*self)) by {
                        assert forall|s: u8|
                            s < 8 implies (bit(self.leaf_mask, s) ==> bit(self.valid_mask, s)) by {
                            lemma_bit_set(n0.valid_mask, sl, s);
                        }
                        assert forall|s: u8|
                            s < 8 implies ((#[trigger] self.leaves@[s as int]) is Some <==> (span > 8
                            && bit(self.valid_mask, s) && !bit(self.leaf_mask, s))) by {
                            lemma_bit_set(n0.valid_mask, sl, s);
                        }
                    }
                    assert forall|t: u8|
                        t < 8 && bit(n0.valid_mask, t) implies bit(self.valid_mask, t) by {
                        lemma_bit_set(n0.valid_mask, sl, t);
                    }
                    let ghost alt: u64 = if val.0 == nb.min.0 {
                        (nb.min.0 + 1) as u64
                    } else {
                        nb.min.0
                    };
                    assert forall|j: int| 0 <= j < 8 implies match #[trigger] self.leaves@[j] {
                        Some(c) => {
                            &&& canonical(*c)
                            &&& exists|code: u64| covered(*c, code)
                            &&& exists|code: u64| c.min.0 <= code < c.max.0 && !covered(*c, code)
                        },
                        None => true,
                    } by {
                        lemma_canonical_children_index(l0, 8, j);
                        if j == sl as int {
                            assert(self.leaves@[j] is Some);
                            assert(*self.leaves@[j]->Some_0 == nb);
                            assert(covered(nb, val.0));
                            assert(nb.max.0 - nb.min.0 >= 8);
                            assert(nb.min.0 <= alt < nb.max.0 && !covered(nb, alt));
                        }
                    }
                    lemma_canonical_children_build(self.leaves@, 8);
                    assert(canonical(*self));
                    assert forall|c: u64| #[trigger] covered(*self, c) <==> covered(n0, c) || c
                        == val.0 by {
                        if n0.min.0 <= c < n0.max.0 {
                            lemma_slot(n0.min.0 as int, lsub as int, c as int);
                            let sc = (c as int - n0.min.0 as int) / (lsub as int);
                            lemma_bit_set(n0.valid_mask, sl, sc as u8);
                            lemma_bit_set(n0.valid_mask, sl, sl);
                            if sc == sl as int {
                                assert(self.leaves@[sl as int] is Some);
                                assert(*self.leaves@[sl as int]->Some_0 == nb);
                                assert(!bit(self.leaf_mask, sl));
                                assert(covered(*self, c) == covered(nb, c));
                                assert(covered(nb, c) <==> c == val.0);
                                assert(l0[sl as int] is None);
                                assert(!covered(n0, c));
                            } else {
                                assert(c != val.0);
                                assert(self.leaves@[sc] == l0[sc]);
                                assert(covered(*self, c) == covered(n0, c));
                            }
                        } else {
                            assert(!covered(*self, c) && !covered(n0, c) && c != val.0);
                        }
                    }
                }
            }
        } else {
            proof {
                assert(lsub == 1);
                assert(n0.min.0 as int + (slot as int) * 1 <= val.0 as int);
                assert((val.0 as int) < n0.min.0 as int + (slot as int) * 1 + 1);
                assert(val.0 == n0.min.0 + sl as int);
            }
            self.leaf_mask = self.leaf_mask | (1u8 << sl);
            self.valid_mask = self.valid_mask | (1u8 << sl);
            proof {
                assert forall|j: int| 0 <= j < 8 implies match #[trigger] self.leaves@[j] {
                    Some(c) => {
                        &&& c.min.0 == n0.min.0 + j * lsub
                        &&& c.max.0 == n0.min.0 + (j + 1) * lsub
                        &&& inv(*c)
                    },
                    None => true,
                } by {
                    lemma_inv_children_index(n0.leaves@, n0.min.0, lsub, 8, j);
                }
                lemma_inv_children_build(self.leaves@, n0.min.0, lsub, 8);
                assert(inv(*self)) by {
                    assert forall|s: u8|
                        s < 8 implies (bit(self.leaf_mask, s) ==> bit(self.valid_mask, s)) by {
                        lemma_bit_set(n0.leaf_mask, sl, s);
                        lemma_bit_set(n0.valid_mask, sl, s);
                    }
                    assert(self.leaf_mask == self.valid_mask);
                    assert forall|s: u8|
                        s < 8 implies ((#[trigger] self.leaves@[s as int]) is Some <==> (span > 8
                        && bit(self.valid_mask, s) && !bit(self.leaf_mask, s))) by {
                        lemma_bit_set(n0.valid_mask, sl, s);
                    }
                }
                assert(self.leaves@ == n0.leaves@);
                assert(canonical(*self));
                assert forall|t: u8|
                    t < 8 && (bit(n0.valid_mask, t) || bit(n0.leaf_mask, t)) implies (bit(
                    self.valid_mask,
                    t,
                ) || !bit(n0.valid_mask, t)) && (bit(self.leaf_mask, t) || !bit(
                    n0.leaf_mask,
                    t,
                )) by {
                    lemma_bit_set(n0.valid_mask, sl, t);
                    lemma_bit_set(n0.leaf_mask, sl, t);
                }
                assert forall|c: u64| #[trigger] covered(*self, c) <==> covered(n0, c) || c
                    == val.0 by {
                    if n0.min.0 <= c < n0.max.0 {
                        lemma_slot(n0.min.0 as int, 1, c as int);
                        let sc = (c as int - n0.min.0 as int) / 1;
                        lemma_bit_set(n0.leaf_mask, sl, sc as u8);
                        assert(c == n0.min.0 + sc);
                    } else {
                        assert(!covered(*self, c) && !covered(n0, c) && c != val.0);
                    }
                }
            }
        }
        if self.leaf_mask == 0xff {
            NodeCommand::Filled
        } else {
            NodeCommand::Unfilled
        }
    }
}

/// The insert-based sparse voxel octree: a root node spanning
/// `8^(max_depth - 1)` Morton codes, filled one code at a time.
#[derive(Debug)]
pub struct SVO {
    root: Node,
    max_depth: u8,
}

impl SVO {
    /// The root node.
    pub closed spec fn spec_root(&self) -> Node {
        self.root
    }

    /// The configured depth.
    pub closed spec fn spec_max_depth(&self) -> u8 {
        self.max_depth
    }

    /// The number of Morton codes the tree addresses.
    pub closed spec fn spec_capacity(&self) -> int {
        pow8((self.max_depth - 1) as nat) as int
    }

    /// The tree spans exactly its configured capacity from code 0 and
    /// its root is structurally sound.
    pub closed spec fn wf(&self) -> bool {
        &&& inv(self.root)
        &&& canonical(self.root)
        &&& 2 <= self.max_depth <= 11
        &&& self.root.min.0 == 0
        &&& self.root.max.0 == pow8((self.max_depth - 1) as nat)
    }

    /// The code `c` has been inserted (or lies in a fully merged
    /// octant of inserted codes).
    pub closed spec fn spec_covers(&self, c: u64) -> bool {
        covered(self.root, c)
    }

    /// Marks one Morton code as occupied. Duplicate insertion is a
    /// producer fault and is excluded.
    pub fn insert_node(&mut self, val: Morton)
        requires
            old(self).wf(),
            (val.0 as int) < old(self).spec_capacity(),
            !old(self).spec_covers(val.0),
        ensures
            final(self).wf(),
            final(self).spec_max_depth() == old(self).spec_max_depth(),
            final(self).spec_capacity() == old(self).spec_capacity(),
            forall|c: u64|
                #[trigger] final(self).spec_covers(c) <==> old(self).spec_covers(c) || c == val.0,
    {
        self.root.insert_node(val);
    }

    /// Builds a tree of the default depth from a batch of Morton
    /// codes. The codes must be addressable and pairwise distinct.
    pub fn build_from_vec(val: Vec<Morton>) -> (out: SVO)
        requires
            forall|i: int| 0 <= i < val@.len() ==> (#[trigger] val@[i].0 as int) < 4096,
            forall|i: int, j: int|
                0 <= i < j < val@.len() ==> #[trigger] val@[i].0 != #[trigger] val@[j].0,
        ensures
            out.wf(),
            out.spec_max_depth() == 5,
            out.spec_capacity() == 4096,
            forall|c: u64|
                #[trigger] out.spec_covers(c) <==> exists|i: int|
                    0 <= i < val@.len() && (#[trigger] val@[i].0) == c,
    {
        let mut out = SVO::default();
        let mut i: usize = 0;
        while i < val.len()
            invariant
                i <= val@.len(),
                out.wf(),
                out.spec_max_depth() == 5,
                out.spec_capacity() == 4096,
                forall|i2: int| 0 <= i2 < val@.len() ==> (#[trigger] val@[i2].0 as int) < 4096,
                forall|i2: int, j: int|
                    0 <= i2 < j < val@.len() ==> #[trigger] val@[i2].0 != #[trigger] val@[j].0,
                forall|c: u64|
                    #[trigger] out.spec_covers(c) <==> exists|i2: int|
                        0 <= i2 < i && (#[trigger] val@[i2].0) == c,
            decreases val@.len() - i,
        {
            proof {
                if out.spec_covers(val@[i as int].0) {
                    let j = choose|j: int| 0 <= j < i && (#[trigger] val@[j].0) == val@[i as int].0;
                    assert(false);
                }
            }
            out.insert_node(val[i]);
            i += 1;
        }
        out
    }
}

impl Default for SVO {
    /// The default tree: depth 5, spanning `8^4 = 4096` codes, with
    /// nothing inserted.
    fn default() -> (s: SVO)
        ensures
            s.wf(),
            s.spec_max_depth() == 5,
            s.spec_capacity() == 4096,
            forall|c: u64| !s.spec_covers(c),
    {
        proof {
            assert(pow8(4) == 4096) by {
                assert(pow8(0) == 1);
                assert(pow8(1) == 8);
                assert(pow8(2) == 64);
                assert(pow8(3) == 512);
            }
        }
        SVO { root: Node::new(Morton(0), Morton(4096)), max_depth: 5 }
    }
}

/// Whether a node is equivalent to a pure-leaf group: every valid
/// octant is itself a full leaf.
pub closed spec fn node_is_leaf(n: Node) -> bool {
    n.leaf_mask == n.valid_mask
}

/// The 64-bit word a node serializes to, given that its first child
/// will sit `amt` words into the array: the low 15 bits of `amt` in
/// bits 49..64 (omitted for a leaf-equivalent node), the valid mask in
/// bits 40..48, and the leaf mask in bits 32..40.
pub closed spec fn pack(n: Node, amt: int) -> u64 {
    if node_is_leaf(n) {
        ((n.valid_mask as u64) << 40) | ((n.leaf_mask as u64) << 32)
    } else {
        (((amt % 32768) as u64) << 49) | ((n.valid_mask as u64) << 40) | ((n.leaf_mask as u64)
            << 32)
    }
}

/// The explicit subtrees among the first `s` octants, in slot order.
pub closed spec fn kids(l: Seq<Option<Box<Node>>>, s: nat) -> Seq<Node>
    decreases s,
{
    if s == 0 || l.len() < s {
        Seq::empty()
    } else {
        kids(l, (s - 1) as nat) + (match l[s - 1] {
            Some(c) => seq![*c],
            None => Seq::empty(),
        })
    }
}

/// A node's explicit children, in slot order.
pub closed spec fn children_of(n: Node) -> Seq<Node> {
    kids(n.leaves@, 8)
}

/// The number of nodes in a subtree, the root included.
pub closed spec fn nsize(n: Node) -> nat
    decreases n, 1int,
{
    1 + ksize(n.leaves@, 8)
}

/// The number of nodes hanging below the first `s` octants.
pub closed spec fn ksize(l: Seq<Option<Box<Node>>>, s: nat) -> nat
    decreases l, s,
{
    if s == 0 || l.len() < s {
        0
    } else {
        ksize(l, (s - 1) as nat) + (match l[s - 1] {
            Some(c) => nsize(*c),
            None => 0nat,
        })
    }
}

/// The number of nodes in a whole queue of subtrees.
pub closed spec fn qsize(q: Seq<Node>) -> nat
    decreases q.len(),
{
    if q.len() == 0 {
        0
    } else {
        qsize(q.drop_last()) + nsize(q.last())
    }
}

/// `qsize` adds across concatenation.
proof fn lemma_qsize_concat(a: Seq<Node>, b: Seq<Node>)
    ensures
        qsize(a + b) == qsize(a) + qsize(b),
    decreases b.len(),
{
    if b.len() == 0 {
        assert(a + b =~= a);
    } else {
        lemma_qsize_concat(a, b.drop_last());
        assert((a + b).drop_last() =~= a + b.drop_last());
        assert((a + b).last() == b.last());
    }
}

/// Dropping the head of a queue removes exactly its subtree's nodes.
proof fn lemma_qsize_drop_first(q: Seq<Node>)
    requires
        q.len() > 0,
    ensures
        qsize(q.drop_first()) == qsize(q) - nsize(q[0]),
{
    assert(q =~= seq![q[0]] + q.drop_first());
    lemma_qsize_concat(seq![q[0]], q.drop_first());
    assert(qsize(seq![q[0]]) == nsize(q[0])) by {
        assert(seq![q[0]].drop_last() =~= Seq::<Node>::empty());
        assert(qsize(Seq::<Node>::empty()) == 0);
        assert(seq![q[0]].last() == q[0]);
    }
}

/// The nodes below the first `s` octants are exactly the nodes of the
/// explicit subtrees gathered from them.
proof fn lemma_qsize_kids(l: Seq<Option<Box<Node>>>, s: nat)
    ensures
        qsize(kids(l, s)) == ksize(l, s),
    decreases s,
{
    if s > 0 && l.len() >= s {
        lemma_qsize_kids(l, (s - 1) as nat);
        match l[s - 1] {
            Some(c) => {
                lemma_qsize_concat(kids(l, (s - 1) as nat), seq![*c]);
                assert(qsize(seq![*c]) == nsize(*c)) by {
                    assert(seq![*c].drop_last() =~= Seq::<Node>::empty());
                    assert(qsize(Seq::<Node>::empty()) == 0);
                    assert(seq![*c].last() == *c);
                }
            },
            None => {
                assert(kids(l, s) =~= kids(l, (s - 1) as nat));
            },
        }
    }
}

/// At most one child is gathered per octant.
proof fn lemma_kids_len(l: Seq<Option<Box<Node>>>, s: nat)
    ensures
        kids(l, s).len() <= s,
    decreases s,
{
    if s > 0 && l.len() >= s {
        lemma_kids_len(l, (s - 1) as nat);
    }
}

/// A queue never holds fewer nodes than entries.
proof fn lemma_qsize_ge_len(q: Seq<Node>)
    ensures
        qsize(q) >= q.len(),
    decreases q.len(),
{
    if q.len() > 0 {
        lemma_qsize_ge_len(q.drop_last());
    }
}

/// The breadth-first serialization of a queue of pending subtrees,
/// `amt` being the array index the next enqueued child will receive:
/// the head's word, then the serialization of the rest of the queue
/// followed by the head's children.
pub closed spec fn bfs(q: Seq<Node>, amt: int) -> Seq<u64>
    decreases qsize(q),
    via bfs_dec
{
    if q.len() == 0 {
        Seq::empty()
    } else {
        let cs = children_of(q[0]);
        seq![pack(q[0], amt)] + bfs(q.drop_first() + cs, amt + cs.len())
    }
}

#[via_fn]
proof fn bfs_dec(q: Seq<Node>, amt: int) {
    if q.len() > 0 {
        lemma_qsize_drop_first(q);
        lemma_qsize_concat(q.drop_first(), children_of(q[0]));
        lemma_qsize_kids(q[0].leaves@, 8);
    }
}

/// Sizes of sound subtrees: a node of span `w` holds at most `w - 7`
/// nodes (one unit-code leaf per slot at the bottom, an eighth of that
/// one level up, and so on).
proof fn lemma_nsize_bound(n: Node)
    requires
        inv(n),
    ensures
        nsize(n) <= n.max.0 - n.min.0 - 7,
    decreases n, 1int,
{
    lemma_span_split(n);
    let span = n.max.0 as int - n.min.0 as int;
    let sub = span / 8;
    if span == 8 {
        assert(forall|j: int| 0 <= j < 8 ==> (#[trigger] n.leaves@[j]) is None);
        lemma_ksize_none(n.leaves@, 8);
    } else {
        lemma_ksize_bound(n.leaves@, n.min.0, sub as u64, 8);
        assert(8 * (sub - 7) <= span - 8 * 7) by (nonlinear_arith)
            requires sub == span / 8, span == 8 * sub;
    }
}

/// See [`lemma_nsize_bound`]: the subtrees of the first `s` octants of
/// width `sub >= 8` hold at most `s * (sub - 7)` nodes.
proof fn lemma_ksize_bound(l: Seq<Option<Box<Node>>>, base: u64, sub: u64, s: nat)
    requires
        inv_children(l, base, sub, s),
        s <= l.len(),
        sub >= 8,
    ensures
        ksize(l, s) <= s * (sub as int - 7),
    decreases l, s,
{
    if s > 0 {
        lemma_ksize_bound(l, base, sub, (s - 1) as nat);
        match l[s - 1] {
            Some(c) => {
                lemma_nsize_bound(*c);
                assert(c.max.0 - c.min.0 == sub) by (nonlinear_arith)
                    requires
                        c.min.0 == base + (s - 1) * sub,
                        c.max.0 == base + s * sub;
                assert((s - 1) * (sub as int - 7) + (sub as int - 7) == s * (sub as int - 7))
                    by (nonlinear_arith);
            },
            None => {
                assert((s - 1) * (sub as int - 7) <= s * (sub as int - 7)) by (nonlinear_arith)
                    requires sub >= 8, s >= 1;
            },
        }
    }
}

/// A run of absent octants holds no nodes.
proof fn lemma_ksize_none(l: Seq<Option<Box<Node>>>, s: nat)
    requires
        forall|j: int| 0 <= j < s ==> (#[trigger] l[j]) is None,
    ensures
        ksize(l, s) == 0,
    decreases s,
{
    if s > 0 {
        lemma_ksize_none(l, (s - 1) as nat);
    }
}

/// Structural equivalence of two nodes: same range, same masks, and
/// pairwise equivalent subtrees. Everything the serializer reads is
/// equal on equivalent nodes.
pub closed spec fn ndeq(a: Node, b: Node) -> bool
    decreases a, 1int,
{
    &&& a.min == b.min
    &&& a.max == b.max
    &&& a.leaf_mask == b.leaf_mask
    &&& a.valid_mask == b.valid_mask
    &&& a.leaves@.len() == b.leaves@.len()
    &&& ndeq_children(a.leaves@, b.leaves@, 8)
}

/// Pairwise structural equivalence of the first `s` subtree slots.
pub closed spec fn ndeq_children(x: Seq<Option<Box<Node>>>, y: Seq<Option<Box<Node>>>, s: nat) -> bool
    decreases x, s,
{
    if s == 0 || x.len() < s || y.len() < s {
        true
    } else {
        ndeq_children(x, y, (s - 1) as nat) && match (x[s - 1], y[s - 1]) {
            (Some(ca), Some(cb)) => ndeq(*ca, *cb),
            (None, None) => true,
            _ => false,
        }
    }
}

/// Extracts one slot's equivalence.
proof fn lemma_ndeq_children_index(
    x: Seq<Option<Box<Node>>>,
    y: Seq<Option<Box<Node>>>,
    s: nat,
    j: int,
)
    requires
        ndeq_children(x, y, s),
        0 <= j < s,
        s <= x.len(),
        s <= y.len(),
    ensures
        match (x[j], y[j]) {
            (Some(ca), Some(cb)) => ndeq(*ca, *cb),
            (None, None) => true,
            _ => false,
        },
    decreases s,
{
    if j < s - 1 {
        lemma_ndeq_children_index(x, y, (s - 1) as nat, j);
    }
}

/// Assembles pairwise equivalence from per-slot facts.
proof fn lemma_ndeq_children_build(x: Seq<Option<Box<Node>>>, y: Seq<Option<Box<Node>>>, s: nat)
    requires
        s <= x.len(),
        s <= y.len(),
        forall|j: int|
            0 <= j < s ==> match (#[trigger] x[j], y[j]) {
                (Some(ca), Some(cb)) => ndeq(*ca, *cb),
                (None, None) => true,
                _ => false,
            },
    ensures
        ndeq_children(x, y, s),
    decreases s,
{
    if s > 0 {
        lemma_ndeq_children_build(x, y, (s - 1) as nat);
    }
}

/// Uniqueness of the canonical representation: two sound, canonical
/// nodes over the same range covering the same codes are structurally
/// equivalent — the covered-code set pins the whole tree.
pub proof fn lemma_canonical_unique(a: Node, b: Node)
    requires
        inv(a),
        inv(b),
        canonical(a),
        canonical(b),
        a.spec_min() == b.spec_min(),
        a.spec_max() == b.spec_max(),
        forall|c: u64| covered(a, c) == #[trigger] covered(b, c),
    ensures
        ndeq(a, b),
    decreases a,
{
    lemma_span_split(a);
    lemma_span_split(b);
    let span = a.max.0 as int - a.min.0 as int;
    let sub = span / 8;
    assert forall|s: u8| s < 8 implies bit(a.leaf_mask, s) == bit(b.leaf_mask, s) && bit(
        a.valid_mask,
        s,
    ) == bit(b.valid_mask, s) by {
        lemma_octant_bits(a, s);
        lemma_octant_bits(b, s);
        let lo = octant_lo(a, s);
        let w = octant_sub(a);
        assert(octant_lo(b, s) == lo && octant_sub(b) == w);
        if bit(a.leaf_mask, s) {
            assert forall|c: u64| lo <= c < lo + w implies #[trigger] covered(b, c) by {
                assert(covered(a, c));
            }
        }
        if bit(b.leaf_mask, s) {
            assert forall|c: u64| lo <= c < lo + w implies #[trigger] covered(a, c) by {
                assert(covered(b, c));
            }
        }
        if bit(a.valid_mask, s) {
            let c = choose|c: u64| lo <= c < lo + w && covered(a, c);
            assert(covered(b, c));
        }
        if bit(b.valid_mask, s) {
            let c = choose|c: u64| lo <= c < lo + w && covered(b, c);
            assert(covered(a, c));
        }
    }
    lemma_mask_eq(a.leaf_mask, b.leaf_mask);
    lemma_mask_eq(a.valid_mask, b.valid_mask);
    assert forall|j: int| 0 <= j < 8 implies match (#[trigger] a.leaves@[j], b.leaves@[j]) {
        (Some(ca), Some(cb)) => ndeq(*ca, *cb),
        (None, None) => true,
        _ => false,
    } by {
        assert(a.leaves@[j] is Some <==> b.leaves@[j] is Some) by {
            assert(bit(a.valid_mask, j as u8) == bit(b.valid_mask, j as u8));
            assert(bit(a.leaf_mask, j as u8) == bit(b.leaf_mask, j as u8));
        }
        if a.leaves@[j] is Some {
            let ca = a.leaves@[j]->Some_0;
            let cb = b.leaves@[j]->Some_0;
            lemma_inv_children_index(a.leaves@, a.min.0, sub as u64, 8, j);
            lemma_inv_children_index(b.leaves@, b.min.0, sub as u64, 8, j);
            lemma_canonical_children_index(a.leaves@, 8, j);
            lemma_canonical_children_index(b.leaves@, 8, j);
            lemma_octant_range(a, j as u8);
            assert(ca.min.0 == cb.min.0 && ca.max.0 == cb.max.0) by (nonlinear_arith)
                requires
                    ca.min.0 == a.min.0 + j * sub,
                    ca.max.0 == a.min.0 + (j + 1) * sub,
                    cb.min.0 == a.min.0 + j * sub,
                    cb.max.0 == a.min.0 + (j + 1) * sub,
            ;
            assert(ca.min.0 == octant_lo(a, j as u8) && ca.max.0 == octant_lo(a, j as u8)
                + octant_sub(a)) by (nonlinear_arith)
                requires
                    ca.min.0 == a.min.0 + j * sub,
                    ca.max.0 == a.min.0 + (j + 1) * sub,
                    octant_lo(a, j as u8) as int == a.min.0 as int + j * (octant_sub(a) as int),
                    octant_sub(a) == sub,
            ;
            assert forall|c: u64| covered(*ca, c) == #[trigger] covered(*cb, c) by {
                if ca.min.0 <= c < ca.max.0 {
                    proof_slot_of(a, j as u8, c);
                    assert(!bit(a.leaf_mask, j as u8));
                    assert(covered(a, c) == covered(*ca, c));
                    assert(covered(b, c) == covered(*cb, c));
                } else {
                    assert(!covered(*ca, c) && !covered(*cb, c));
                }
            }
            lemma_canonical_unique(*ca, *cb);
        }
    }
    lemma_ndeq_children_build(a.leaves@, b.leaves@, 8);
}

/// Equivalent slots gather equivalent child runs.
proof fn lemma_ndeq_kids(x: Seq<Option<Box<Node>>>, y: Seq<Option<Box<Node>>>, s: nat)
    requires
        x.len() == y.len(),
        ndeq_children(x, y, s),
    ensures
        kids(x, s).len() == kids(y, s).len(),
        forall|i: int|
            0 <= i < kids(x, s).len() ==> ndeq(#[trigger] kids(x, s)[i], kids(y, s)[i]),
    decreases s,
{
    if s > 0 && x.len() >= s {
        lemma_ndeq_kids(x, y, (s - 1) as nat);
    }
}

/// Structurally equivalent queues serialize to identical word arrays.
proof fn lemma_ndeq_bfs(qa: Seq<Node>, qb: Seq<Node>, amt: int)
    requires
        qa.len() == qb.len(),
        forall|i: int| 0 <= i < qa.len() ==> ndeq(#[trigger] qa[i], qb[i]),
    ensures
        bfs(qa, amt) == bfs(qb, amt),
    decreases qsize(qa),
{
    if qa.len() > 0 {
        let a0 = qa[0];
        let b0 = qb[0];
        assert(ndeq(a0, b0));
        assert(pack(a0, amt) == pack(b0, amt));
        lemma_ndeq_kids(a0.leaves@, b0.leaves@, 8);
        let ca = children_of(a0);
        let cb = children_of(b0);
        assert(ca.len() == cb.len());
        let qa2 = qa.drop_first() + ca;
        let qb2 = qb.drop_first() + cb;
        assert forall|i: int| 0 <= i < qa2.len() implies ndeq(#[trigger] qa2[i], qb2[i]) by {
            if i < qa.len() - 1 {
                assert(qa2[i] == qa[i + 1] && qb2[i] == qb[i + 1]);
            } else {
                assert(qa2[i] == ca[i - (qa.len() - 1)] && qb2[i] == cb[i - (qa.len() - 1)]);
            }
        }
        lemma_qsize_drop_first(qa);
        lemma_qsize_concat(qa.drop_first(), ca);
        lemma_qsize_kids(a0.leaves@, 8);
        lemma_ndeq_bfs(qa2, qb2, amt + ca.len());
        assert(bfs(qa, amt) =~= bfs(qb, amt));
    } else {
        assert(bfs(qa, amt) =~= bfs(qb, amt));
    }
}

/// The bit-packed octree: one 64-bit word per node, laid out in
/// breadth-first order with forward child-group offsets.
#[derive(Debug)]
pub struct RawSVO {
    tree: Vec<u64>,
    max_depth: u8,
}

impl View for RawSVO {
    type V = Seq<u64>;

    /// The serialized words, in breadth-first order.
    closed spec fn view(&self) -> Seq<u64> {
        self.tree@
    }
}

impl RawSVO {
    /// The configured depth carried alongside the words.
    pub closed spec fn spec_max_depth(&self) -> u8 {
        self.max_depth
    }

    /// The serialized words, for read-only consumers.
    pub fn words(&self) -> (r: &Vec<u64>)
        ensures
            r@ == self@,
    {
        &self.tree
    }

    /// Serializes a finished tree breadth-first: each dequeued node
    /// emits one word whose offset field is the index its first child
    /// will occupy, and enqueues its explicit children in slot order.
    pub fn from(svo: SVO) -> (out: RawSVO)
        requires
            svo.wf(),
        ensures
            out@ == bfs(seq![svo.spec_root()], 1),
            out.spec_max_depth() == svo.spec_max_depth(),
    {
        let SVO { root, max_depth } = svo;
        let ghost q0 = seq![root];
        let ghost total = nsize(root);
        proof {
            lemma_nsize_bound(root);
            lemma_pow8_mono((max_depth - 1) as nat, 10);
            lemma_pow8_pow2(10);
            vstd::arithmetic::power2::lemma2_to64();
            assert(qsize(q0) == nsize(root)) by {
                assert(q0.drop_last() =~= Seq::<Node>::empty());
                assert(qsize(Seq::<Node>::empty()) == 0);
                assert(q0.last() == root);
            }
        }
        let mut tree: Vec<u64> = Vec::new();
        let mut queue: VecDeque<Node> = VecDeque::new();
        queue.push_back(root);
        let mut amount: u64 = 1;
        proof {
            assert(queue@ =~= q0);
        }
        while queue.len() > 0
            invariant
                total == nsize(root),
                total <= 0x40000000,
                bfs(q0, 1) == tree@ + bfs(queue@, amount as int),
                amount as int + qsize(queue@) - queue@.len() == total,
                forall|i: int| 0 <= i < queue@.len() ==> inv(#[trigger] queue@[i]),
            decreases qsize(queue@),
        {
            let ghost qentry = queue@;
            let ghost amt0 = amount as int;
            let node = match queue.pop_front() {
                Some(n) => n,
                None => {
                    proof {
                        assert(false);
                    }
                    return RawSVO { tree, max_depth };
                },
            };
            let ghost ng = node;
            proof {
                assert(qentry =~= seq![ng] + queue@);
                assert(qentry[0] == ng);
                assert(qentry.drop_first() =~= queue@);
                lemma_qsize_drop_first(qentry);
                lemma_qsize_ge_len(qentry);
            }
            let leafish = node.is_leaf();
            let mut word: u64 = ((node.valid_mask as u64) << 40) | ((node.leaf_mask as u64)
                << 32);
            if !leafish {
                word = word | ((amount % 32768) << 49);
            }
            tree.push(word);
            let mut ls = node.leaves;
            let ghost l0 = ng.leaves@;
            let ghost qmid = queue@;
            proof {
                assert(inv(ng));
            }
            let mut si: usize = 0;
            let mut k: u64 = 0;
            while si < 8
                invariant
                    si <= 8,
                    l0.len() == 8,
                    ls@ =~= l0.skip(si as int),
                    queue@ == qmid + kids(l0, si as nat),
                    k == kids(l0, si as nat).len(),
                    k <= si,
                    inv_children(l0, ng.min.0, ((ng.max.0 as int - ng.min.0 as int) / 8) as u64, 8),
                    forall|i: int| 0 <= i < queue@.len() ==> inv(#[trigger] queue@[i]),
                decreases 8 - si,
            {
                proof {
                    lemma_inv_children_index(
                        l0,
                        ng.min.0,
                        ((ng.max.0 as int - ng.min.0 as int) / 8) as u64,
                        8,
                        si as int,
                    );
                    assert(ls@[0] == l0[si as int]);
                }
                let ghost kpre = kids(l0, si as nat);
                proof {
                    lemma_kids_len(l0, si as nat);
                    lemma_kids_len(l0, (si + 1) as nat);
                }
                match ls.remove(0) {
                    Some(b) => {
                        queue.push_back(*b);
                        k += 1;
                        proof {
                            assert(kids(l0, (si + 1) as nat) =~= kpre + seq![*l0[si as int]->Some_0]);
                            assert(queue@ =~= qmid + kids(l0, (si + 1) as nat));
                        }
                    },
                    None => {
                        proof {
                            assert(kids(l0, (si + 1) as nat) =~= kpre);
                        }
                    },
                }
                si += 1;
            }
            proof {
                assert(queue@ == qmid + children_of(ng));
                lemma_qsize_concat(qmid, children_of(ng));
                lemma_qsize_kids(l0, 8);
                assert(word == pack(ng, amount as int)) by {
                    let v = ng.valid_mask;
                    let lm = ng.leaf_mask;
                    let a = amount;
                    assert((((v as u64) << 40) | ((lm as u64) << 32)) | ((a % 32768) << 49)
                        == (((a % 32768) as u64) << 49) | ((v as u64) << 40) | ((lm as u64)
                        << 32)) by (bit_vector);
                }
                assert(bfs(qentry, amount as int) == seq![pack(ng, amount as int)] + bfs(
                    queue@,
                    amount as int + children_of(ng).len(),
                ));
                assert(tree@ + bfs(queue@, amount as int + k) =~= bfs(q0, 1));
                assert(k == children_of(ng).len());
                assert(qsize(queue@) == qsize(qmid) + ksize(l0, 8));
                assert(nsize(ng) == 1 + ksize(l0, 8));
                assert(amt0 <= total);
                assert(k <= 8);
                assert(amt0 + qsize(queue@) - queue@.len() + k == total);
            }
            amount = amount + k;
        }
        proof {
            assert(queue@.len() == 0);
            assert(bfs(queue@, amount as int) =~= Seq::<u64>::empty());
            assert(tree@ =~= bfs(q0, 1));
        }
        RawSVO { tree, max_depth }
    }
}

/// Absent slots gather no children.
proof fn lemma_kids_none(l: Seq<Option<Box<Node>>>, s: nat)
    requires
        forall|j: int| 0 <= j < s ==> (#[trigger] l[j]) is None,
    ensures
        kids(l, s) == Seq::<Node>::empty(),
    decreases s,
{
    if s > 0 && l.len() >= s {
        lemma_kids_none(l, (s - 1) as nat);
        assert(kids(l, s) =~= Seq::<Node>::empty());
    } else {
    }
}

/// A childless node serializes to exactly its own word.
proof fn lemma_bfs_single(r: Node, amt: int)
    requires
        forall|j: int| 0 <= j < 8 ==> (#[trigger] r.leaves@[j]) is None,
        r.leaves@.len() == 8,
    ensures
        bfs(seq![r], amt) == seq![pack(r, amt)],
{
    lemma_kids_none(r.leaves@, 8);
    assert(seq![r].drop_first() + children_of(r) =~= Seq::<Node>::empty());
    assert(bfs(Seq::<Node>::empty(), amt) =~= Seq::<u64>::empty());
    assert(bfs(seq![r], amt) =~= seq![pack(r, amt)]);
}

/// The packed empty-input law: a tree covering nothing serializes to
/// the single all-zero word. With [`RawSVO::from`]'s contract this
/// pins the packed output of an empty build.
pub proof fn lemma_packed_empty(t: SVO)
    requires
        t.wf(),
        forall|c: u64| !t.spec_covers(c),
    ensures
        bfs(seq![t.spec_root()], 1) == seq![0u64],
{
    let r = t.spec_root();
    assert forall|c: u64| !(#[trigger] covered(r, c)) by {
        assert(!t.spec_covers(c));
    }
    lemma_vacant_shape(r);
    lemma_bfs_single(r, 1);
    assert(pack(r, 1) == 0) by {
        assert(((0u8 as u64) << 40) | ((0u8 as u64) << 32) == 0u64) by (bit_vector);
    }
}

/// The packed uniform-input law: a tree covering its whole addressable
/// range serializes to the single word whose valid and leaf masks are
/// both full — the entire space merged bottom-up into one leaf root.
pub proof fn lemma_packed_full(t: SVO)
    requires
        t.wf(),
        forall|c: u64| (c as int) < t.spec_capacity() ==> #[trigger] t.spec_covers(c),
    ensures
        bfs(seq![t.spec_root()], 1) == seq![((0xffu64) << 40) | ((0xffu64) << 32)],
{
    let r = t.spec_root();
    assert forall|c: u64| r.spec_min() <= c < r.spec_max() implies #[trigger] covered(r, c) by {
        assert(t.spec_covers(c));
    }
    lemma_full_shape(r);
    lemma_bfs_single(r, 1);
    assert(pack(r, 1) == ((0xffu64) << 40) | ((0xffu64) << 32)) by {
        assert(((0xffu8 as u64) << 40) | ((0xffu8 as u64) << 32) == ((0xffu64) << 40) | ((
        0xffu64) << 32)) by (bit_vector);
    }
}

/// Packed root totality: the serialization is never empty, and its
/// first word carries the root's two masks in the documented fields.
pub proof fn lemma_packed_root(t: SVO)
    requires
        t.wf(),
    ensures
        bfs(seq![t.spec_root()], 1).len() >= 1,
        word_valid(bfs(seq![t.spec_root()], 1)[0]) == t.spec_root().spec_valid_mask() as u64,
        word_leaf(bfs(seq![t.spec_root()], 1)[0]) == t.spec_root().spec_leaf_mask() as u64,
{
    let r = t.spec_root();
    let q = seq![r];
    assert(bfs(q, 1) == seq![pack(r, 1)] + bfs(
        q.drop_first() + children_of(r),
        1 + children_of(r).len() as int,
    ));
    assert(bfs(q, 1)[0] == pack(r, 1));
    let v = r.valid_mask;
    let l = r.leaf_mask;
    if node_is_leaf(r) {
        assert(((((v as u64) << 40) | ((l as u64) << 32)) >> 40) & 0xff == v as u64
            && ((((v as u64) << 40) | ((l as u64) << 32)) >> 32) & 0xff == l as u64)
            by (bit_vector);
    } else {
        assert((((1u64 << 49) | ((v as u64) << 40) | ((l as u64) << 32)) >> 40) & 0xff == v as u64
            && (((1u64 << 49) | ((v as u64) << 40) | ((l as u64) << 32)) >> 32) & 0xff == l
            as u64) by (bit_vector);
        assert((1int % 32768) as u64 == 1u64);
    }
}

/// The forward-offset field of a packed word (bits 49..64).
pub open spec fn word_offset(w: u64) -> u64 {
    w >> 49
}

/// The valid-mask field of a packed word (bits 40..48).
pub open spec fn word_valid(w: u64) -> u64 {
    (w >> 40) & 0xff
}

/// The leaf-mask field of a packed word (bits 32..40).
pub open spec fn word_leaf(w: u64) -> u64 {
    (w >> 32) & 0xff
}

/// A serialization emits exactly one word per node.
proof fn lemma_bfs_len(q: Seq<Node>, amt: int)
    ensures
        bfs(q, amt).len() == qsize(q),
    decreases qsize(q),
{
    if q.len() > 0 {
        lemma_qsize_drop_first(q);
        lemma_qsize_concat(q.drop_first(), children_of(q[0]));
        lemma_qsize_kids(q[0].leaves@, 8);
        lemma_bfs_len(q.drop_first() + children_of(q[0]), amt + children_of(q[0]).len() as int);
    }
}

/// Counting more slots never loses children.
proof fn lemma_ksize_mono(l: Seq<Option<Box<Node>>>, a: nat, b: nat)
    requires
        a <= b,
        b <= l.len(),
    ensures
        ksize(l, a) <= ksize(l, b),
    decreases b,
{
    if a < b {
        lemma_ksize_mono(l, a, (b - 1) as nat);
    }
}

/// The children gathered from sound slots are themselves sound.
proof fn lemma_kids_inv(l: Seq<Option<Box<Node>>>, base: u64, sub: u64, s: nat)
    requires
        s <= l.len(),
        inv_children(l, base, sub, s),
    ensures
        forall|i: int| 0 <= i < kids(l, s).len() ==> inv(#[trigger] kids(l, s)[i]),
    decreases s,
{
    if s > 0 {
        lemma_kids_inv(l, base, sub, (s - 1) as nat);
        lemma_inv_children_index(l, base, sub, s, s - 1);
        assert forall|i: int| 0 <= i < kids(l, s).len() implies inv(#[trigger] kids(l, s)[i]) by {
            if i < kids(l, (s - 1) as nat).len() {
                assert(kids(l, s)[i] == kids(l, (s - 1) as nat)[i]);
            } else {
                assert(l[s - 1] is Some);
                assert(kids(l, s)[i] == *l[s - 1]->Some_0);
            }
        }
    }
}

/// Offset sanity of a serialization: with every node of the queue
/// sound, each emitted non-leaf word's offset field points strictly
/// past the word's own index and inside the array. `a` is the absolute
/// index at which this queue's words land, and the whole array must
/// fit the 15-bit offset field.
proof fn lemma_bfs_offsets(q: Seq<Node>, amt: int, a: int)
    requires
        amt == a + q.len(),
        0 <= a,
        a + qsize(q) <= 32767,
        forall|i: int| 0 <= i < q.len() ==> inv(#[trigger] q[i]),
    ensures
        forall|p: int|
            0 <= p < bfs(q, amt).len() ==> {
                let w = #[trigger] bfs(q, amt)[p];
                &&& (word_valid(w) != word_leaf(w) ==> a + p < word_offset(w) < a + qsize(q))
                &&& (word_valid(w) == word_leaf(w) ==> word_offset(w) == 0)
            },
    decreases qsize(q),
{
    lemma_bfs_len(q, amt);
    if q.len() > 0 {
        let n0 = q[0];
        let v64 = n0.valid_mask as u64;
        let l64 = n0.leaf_mask as u64;
        let w0 = pack(n0, amt);
        lemma_qsize_drop_first(q);
        lemma_qsize_concat(q.drop_first(), children_of(n0));
        lemma_qsize_kids(n0.leaves@, 8);
        lemma_qsize_ge_len(q.drop_first());
        if node_is_leaf(n0) {
            assert(word_offset(w0) == 0 && word_valid(w0) == v64 && word_leaf(w0) == l64) by {
                assert((((v64 << 40) | (l64 << 32)) >> 49) == 0 && (((v64 << 40) | (l64 << 32))
                    >> 40) & 0xff == v64 && (((v64 << 40) | (l64 << 32)) >> 32) & 0xff == l64)
                    by (bit_vector)
                    requires v64 < 256, l64 < 256;
            }
        } else {
            let o = (amt % 32768) as u64;
            assert(o == amt);
            assert(word_offset(w0) == o && word_valid(w0) == v64 && word_leaf(w0) == l64) by {
                assert((((o << 49) | (v64 << 40) | (l64 << 32)) >> 49) == o && (((o << 49) | (v64
                    << 40) | (l64 << 32)) >> 40) & 0xff == v64 && (((o << 49) | (v64 << 40) | (l64
                    << 32)) >> 32) & 0xff == l64) by (bit_vector)
                    requires o < 32768, v64 < 256, l64 < 256;
            }
            assert(word_valid(w0) != word_leaf(w0));
            assert(exists|t: u8| t < 8 && bit(n0.valid_mask, t) && !bit(n0.leaf_mask, t)) by {
                if forall|t: u8| t < 8 ==> (bit(n0.valid_mask, t) ==> bit(n0.leaf_mask, t)) {
                    assert forall|t: u8| t < 8 implies bit(n0.valid_mask, t) == bit(
                        n0.leaf_mask,
                        t,
                    ) by {}
                    lemma_mask_eq(n0.valid_mask, n0.leaf_mask);
                }
            }
            let t = choose|t: u8| t < 8 && bit(n0.valid_mask, t) && !bit(n0.leaf_mask, t);
            assert(n0.leaves@[t as int] is Some);
            assert(ksize(n0.leaves@, 8) >= 1) by {
                assert(ksize(n0.leaves@, (t + 1) as nat) >= nsize(
                    *n0.leaves@[t as int]->Some_0,
                ));
                lemma_ksize_mono(n0.leaves@, (t + 1) as nat, 8);
            }
            assert(nsize(n0) >= 2);
            assert(a + 0 < word_offset(w0) < a + qsize(q));
        }
        let cs = children_of(n0);
        let q2 = q.drop_first() + cs;
        assert forall|i: int| 0 <= i < q2.len() implies inv(#[trigger] q2[i]) by {
            if i < q.len() - 1 {
                assert(q2[i] == q[i + 1]);
            } else {
                assert(q2[i] == cs[i - (q.len() - 1)]);
                lemma_span_split(n0);
                lemma_kids_inv(
                    n0.leaves@,
                    n0.min.0,
                    ((n0.max.0 as int - n0.min.0 as int) / 8) as u64,
                    8,
                );
            }
        }
        lemma_bfs_offsets(q2, amt + cs.len() as int, a + 1);
        lemma_bfs_len(q2, amt + cs.len() as int);
        assert forall|p: int| 0 <= p < bfs(q, amt).len() implies {
            let w = #[trigger] bfs(q, amt)[p];
            &&& (word_valid(w) != word_leaf(w) ==> a + p < word_offset(w) < a + qsize(q))
            &&& (word_valid(w) == word_leaf(w) ==> word_offset(w) == 0)
        } by {
            if p == 0 {
                assert(bfs(q, amt)[0] == w0);
            } else {
                assert(bfs(q, amt)[p] == bfs(q2, amt + cs.len() as int)[p - 1]);
            }
        }
    }
}

/// Packed pointer validity: in a serialization that fits the 15-bit
/// offset field, every non-leaf word's offset is a strict forward
/// index into the array, and every leaf-equivalent word carries none.
pub proof fn lemma_packed_offsets(t: SVO)
    requires
        t.wf(),
        bfs(seq![t.spec_root()], 1).len() <= 32767,
    ensures
        forall|p: int|
            0 <= p < bfs(seq![t.spec_root()], 1).len() ==> {
                let w = #[trigger] bfs(seq![t.spec_root()], 1)[p];
                &&& (word_valid(w) != word_leaf(w) ==> p < word_offset(w) < bfs(
                    seq![t.spec_root()],
                    1,
                ).len())
                &&& (word_valid(w) == word_leaf(w) ==> word_offset(w) == 0)
            },
{
    let r = t.spec_root();
    let q = seq![r];
    assert(qsize(q) == nsize(r)) by {
        assert(q.drop_last() =~= Seq::<Node>::empty());
        assert(qsize(Seq::<Node>::empty()) == 0);
        assert(q.last() == r);
    }
    lemma_bfs_len(q, 1);
    lemma_bfs_offsets(q, 1, 0);
}

/// Packed determinism: two trees of one depth covering the same codes
/// serialize to identical word arrays. Since [`SVO::build_from_vec`]
/// pins the covered set as a function of the input code set alone,
/// building from any reordering of one batch gives the same packed
/// output.
pub proof fn lemma_packed_deterministic(a: SVO, b: SVO)
    requires
        a.wf(),
        b.wf(),
        a.spec_max_depth() == b.spec_max_depth(),
        forall|c: u64| a.spec_covers(c) == #[trigger] b.spec_covers(c),
    ensures
        ndeq(a.spec_root(), b.spec_root()),
        bfs(seq![a.spec_root()], 1) == bfs(seq![b.spec_root()], 1),
{
    let ra = a.spec_root();
    let rb = b.spec_root();
    assert forall|c: u64| covered(ra, c) == #[trigger] covered(rb, c) by {
        assert(a.spec_covers(c) == b.spec_covers(c));
    }
    lemma_canonical_unique(ra, rb);
    lemma_ndeq_bfs(seq![ra], seq![rb], 1);
}

/// Some entry of `v` carries the Morton code `c`.
pub open spec fn has_code(v: Seq<Morton>, c: u64) -> bool {
    exists|i: int| 0 <= i < v.len() && (#[trigger] v[i].0) == c
}

/// Reordering a batch of Morton codes does not change which codes it
/// holds: the hypothesis of the determinism laws for rebuilt trees.
pub proof fn lemma_codes_perm(v1: Seq<Morton>, v2: Seq<Morton>)
    requires
        v1.to_multiset() == v2.to_multiset(),
    ensures
        forall|c: u64| #[trigger] has_code(v1, c) <==> has_code(v2, c),
{
    v1.to_multiset_ensures();
    v2.to_multiset_ensures();
    assert forall|c: u64| #[trigger] has_code(v1, c) <==> has_code(v2, c) by {
        if exists|i: int| 0 <= i < v1.len() && (#[trigger] v1[i].0) == c {
            let i = choose|i: int| 0 <= i < v1.len() && (#[trigger] v1[i].0) == c;
            assert(v1.contains(v1[i]));
            assert(v2.to_multiset().count(v1[i]) >= 1);
            assert(v2.contains(v1[i]));
            let j = choose|j: int| 0 <= j < v2.len() && v2[j] == v1[i];
            assert(v2[j].0 == c);
        }
        if exists|i: int| 0 <= i < v2.len() && (#[trigger] v2[i].0) == c {
            let i = choose|i: int| 0 <= i < v2.len() && (#[trigger] v2[i].0) == c;
            assert(v2.contains(v2[i]));
            assert(v1.to_multiset().count(v2[i]) >= 1);
            assert(v1.contains(v2[i]));
            let j = choose|j: int| 0 <= j < v1.len() && v1[j] == v2[i];
            assert(v1[j].0 == c);
        }
    }
}

} // verus!
