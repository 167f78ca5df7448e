//! Morton (Z-order) codec: a bijective interleaved-bit mapping from 3D
//! integer coordinates to a linear index that keeps the eight children of
//! one octree cell at eight consecutive codes on every level.

use vstd::prelude::*;
use vstd::arithmetic::power2::{pow2, lemma_pow2_unfold};

verus! {

/// A Morton (Z-order) code: the linear index of a voxel coordinate.
///
/// Codes order voxels so that the eight siblings below one octree node
/// occupy eight consecutive values at every depth; all arithmetic the
/// octree builder performs on codes (subtraction, division and modulo by
/// powers of eight) respects that grouping.
#[derive(Clone, Copy, Debug, PartialEq, Eq, Structural, PartialOrd, Ord, Hash)]
pub struct Morton(pub u64);

/// The interleaved-bit value of the coordinate triple `(x, y, z)`: bit `i`
/// of `x` lands at bit `3*i` of the code, bit `i` of `y` at `3*i + 1`,
/// and bit `i` of `z` at `3*i + 2`.
pub open spec fn morton3(x: nat, y: nat, z: nat) -> nat
    decreases x + y + z,
{
    if x == 0 && y == 0 && z == 0 {
        0
    } else {
        x % 2 + 2 * (y % 2) + 4 * (z % 2) + 8 * morton3(x / 2, y / 2, z / 2)
    }
}

/// Coordinates below `2^k` interleave to a code below `2^(3*k)`.
pub proof fn lemma_morton3_bound(x: nat, y: nat, z: nat, k: nat)
    requires
        x < pow2(k),
        y < pow2(k),
        z < pow2(k),
    ensures
        morton3(x, y, z) < pow2(3 * k),
    decreases k,
{
    if k == 0 {
        assert(pow2(0) == 1) by {
            vstd::arithmetic::power2::lemma2_to64();
        }
        assert(x == 0 && y == 0 && z == 0);
    } else {
        lemma_pow2_unfold(k);
        lemma_morton3_bound(x / 2, y / 2, z / 2, (k - 1) as nat);
        lemma_pow2_unfold(3 * k);
        lemma_pow2_unfold((3 * k - 1) as nat);
        lemma_pow2_unfold((3 * k - 2) as nat);
        assert(morton3(x, y, z) <= 7 + 8 * morton3(x / 2, y / 2, z / 2));
        assert(pow2(3 * k) == 8 * pow2((3 * k - 3) as nat));
        assert(3 * ((k - 1) as nat) == 3 * k - 3);
    }
}

/// The interleaving is injective: distinct coordinate triples get
/// distinct Morton codes.
pub proof fn lemma_morton3_injective(x: nat, y: nat, z: nat, x2: nat, y2: nat, z2: nat)
    requires
        morton3(x, y, z) == morton3(x2, y2, z2),
    ensures
        x == x2 && y == y2 && z == z2,
    decreases x + y + z + x2 + y2 + z2,
{
    let m = morton3(x, y, z);
    assert(m == x % 2 + 2 * (y % 2) + 4 * (z % 2) + 8 * morton3(x / 2, y / 2, z / 2));
    assert(m == x2 % 2 + 2 * (y2 % 2) + 4 * (z2 % 2) + 8 * morton3(x2 / 2, y2 / 2, z2 / 2));
    assert(x % 2 == x2 % 2 && y % 2 == y2 % 2 && z % 2 == z2 % 2
        && morton3(x / 2, y / 2, z / 2) == morton3(x2 / 2, y2 / 2, z2 / 2)) by {
        let low = (x % 2 + 2 * (y % 2) + 4 * (z % 2)) as int;
        let low2 = (x2 % 2 + 2 * (y2 % 2) + 4 * (z2 % 2)) as int;
        assert(0 <= low < 8 && 0 <= low2 < 8);
        assert(low == m % 8 && low2 == m % 8);
        assert(morton3(x / 2, y / 2, z / 2) == m / 8);
        assert(morton3(x2 / 2, y2 / 2, z2 / 2) == m / 8);
    }
    if x + y + z + x2 + y2 + z2 == 0 {
    } else {
        lemma_morton3_injective(x / 2, y / 2, z / 2, x2 / 2, y2 / 2, z2 / 2);
        assert(x == 2 * (x / 2) + x % 2);
        assert(x2 == 2 * (x2 / 2) + x2 % 2);
        assert(y == 2 * (y / 2) + y % 2);
        assert(y2 == 2 * (y2 / 2) + y2 % 2);
        assert(z == 2 * (z / 2) + z % 2);
        assert(z2 == 2 * (z2 / 2) + z2 % 2);
    }
}

/// Encodes the coordinate triple `(x, y, z)` as its Morton code by
/// interleaving the bits of the three coordinates; each axis offers
/// sixteen bits, so every code fits well within a 64-bit word.
pub fn encode(x: u16, y: u16, z: u16) -> (m: Morton)
    ensures
        m.0 == morton3(x as nat, y as nat, z as nat),
{
    Morton(interleave(x, y, z))
}

fn interleave(x: u16, y: u16, z: u16) -> (c: u64)
    ensures
        c == morton3(x as nat, y as nat, z as nat),
    decreases x + y + z,
{
    if x == 0 && y == 0 && z == 0 {
        0
    } else {
        let low: u64 = (x % 2) as u64 + 2 * ((y % 2) as u64) + 4 * ((z % 2) as u64);
        let rest: u64 = interleave(x / 2, y / 2, z / 2);
        proof {
            vstd::arithmetic::power2::lemma2_to64();
            vstd::arithmetic::power2::lemma2_to64_rest();
            lemma_morton3_bound((x / 2) as nat, (y / 2) as nat, (z / 2) as nat, 16);
        }
        low + 8 * rest
    }
}

} // verus!
