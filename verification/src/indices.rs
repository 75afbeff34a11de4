//! Storage-index arithmetic. Nodes are indexed level-order from the root:
//! index 0 is the root, indices 1 and 2 its children, and the leaf layer of
//! a depth-`d` tree begins at storage index `2^d - 1`.

use vstd::arithmetic::power2::{lemma_pow2_pos, lemma_pow2_strictly_increases, pow2};
use vstd::prelude::*;

verus! {

/// The storage index of leaf `leaf_idx` in a tree of depth `tree_depth`.
pub open spec fn leaf_to_storage_spec(leaf_idx: nat, tree_depth: nat) -> nat {
    (pow2(tree_depth) - 1 + leaf_idx) as nat
}

/// The leaf index of a leaf-layer storage index in a tree of depth
/// `tree_depth`.
pub open spec fn storage_to_leaf_spec(storage_idx: nat, tree_depth: nat) -> nat {
    (storage_idx - (pow2(tree_depth) - 1)) as nat
}

/// The level (distance from the root) of a storage index.
pub open spec fn level_of(storage_idx: nat) -> nat
    decreases storage_idx,
{
    if storage_idx == 0 {
        0
    } else {
        1 + level_of(((storage_idx - 1) / 2) as nat)
    }
}

/// The offset of a storage index within its level.
pub open spec fn offset_of(storage_idx: nat) -> nat {
    (storage_idx + 1 - pow2(level_of(storage_idx))) as nat
}

/// 2 to the `e`, as a `u32`.
pub fn pow2_u32(e: usize) -> (r: u32)
    requires
        e <= 31,
    ensures
        r == pow2(e as nat),
{
    proof {
        lemma_pow2_strictly_increases(e as nat, 32);
        vstd::arithmetic::power2::lemma2_to64();
    }
    let mut r: u32 = 1;
    let mut i: usize = 0;
    while i < e
        invariant
            i <= e <= 31,
            r == pow2(i as nat),
            pow2(e as nat) < 0x1_0000_0000,
        decreases e - i,
    {
        proof {
            vstd::arithmetic::power2::lemma_pow2_unfold((i + 1) as nat);
            if i + 1 < e {
                lemma_pow2_strictly_increases((i + 1) as nat, e as nat);
            }
        }
        r = r * 2;
        i = i + 1;
    }
    r
}

/// Converts a leaf index to its storage index: `2^tree_depth - 1 + leaf_idx`.
pub fn leaf_to_storage_idx(leaf_idx: u32, tree_depth: usize) -> (storage_idx: u32)
    requires
        tree_depth <= 31,
        pow2(tree_depth as nat) - 1 + leaf_idx <= u32::MAX,
    ensures
        storage_idx == leaf_to_storage_spec(leaf_idx as nat, tree_depth as nat),
{
    proof {
        lemma_pow2_pos(tree_depth as nat);
    }
    let leaf_0 = pow2_u32(tree_depth) - 1;
    leaf_0 + leaf_idx
}

/// Converts a leaf-layer storage index back to its leaf index:
/// `storage_idx - (2^tree_depth - 1)`.
pub fn storage_to_leaf_idx(storage_idx: u32, tree_depth: usize) -> (leaf_idx: u32)
    requires
        tree_depth <= 31,
        storage_idx >= pow2(tree_depth as nat) - 1,
    ensures
        leaf_idx == storage_to_leaf_spec(storage_idx as nat, tree_depth as nat),
{
    proof {
        lemma_pow2_pos(tree_depth as nat);
    }
    let leaf_0 = pow2_u32(tree_depth) - 1;
    storage_idx - leaf_0
}

/// Storage-to-leaf inverts leaf-to-storage on every leaf index, at every
/// depth.
pub proof fn lemma_leaf_storage_round_trip(leaf_idx: nat, tree_depth: nat)
    ensures
        storage_to_leaf_spec(leaf_to_storage_spec(leaf_idx, tree_depth), tree_depth) == leaf_idx,
{
    lemma_pow2_pos(tree_depth);
}

/// Converts a storage index to `(depth, offset)` coordinates: the depth is
/// `floor(log2(index + 1))` — characterized by
/// `2^depth <= index + 1 < 2^(depth + 1)` — and the offset is
/// `index - (2^depth - 1)`, which always lies below `2^depth`.
pub fn storage_idx_to_coords(index: usize) -> (coords: (usize, usize))
    requires
        index < usize::MAX,
    ensures
        pow2(coords.0 as nat) <= index + 1 < pow2((coords.0 + 1) as nat),
        coords.1 == index + 1 - pow2(coords.0 as nat),
        coords.1 < pow2(coords.0 as nat),
        coords.0 == level_of(index as nat),
        coords.1 == offset_of(index as nat),
{
    proof {
        vstd::arithmetic::power2::lemma2_to64();
    }
    let target = index + 1;
    let mut d: usize = 0;
    let mut p: usize = 1;
    while target - p >= p
        invariant
            1 <= p <= target,
            p == pow2(d as nat),
            d < 64,
        decreases target - p,
    {
        proof {
            vstd::arithmetic::power2::lemma_pow2_unfold((d + 1) as nat);
            if d + 1 >= 64 {
                vstd::arithmetic::power2::lemma2_to64();
                if d + 1 > 64 {
                    lemma_pow2_strictly_increases(64, (d + 1) as nat);
                }
            }
        }
        p = p * 2;
        d = d + 1;
    }
    proof {
        vstd::arithmetic::power2::lemma_pow2_unfold((d + 1) as nat);
        lemma_level_of_characterization(index as nat, d as nat);
    }
    (d, index - (p - 1))
}

/// A storage index between `2^d - 1` and `2^(d+1) - 2` lies at level `d`,
/// at offset `index + 1 - 2^d`.
pub proof fn lemma_level_of_characterization(index: nat, d: nat)
    requires
        pow2(d) <= index + 1 < pow2(d + 1),
    ensures
        level_of(index) == d,
        offset_of(index) == index + 1 - pow2(d),
    decreases d,
{
    vstd::arithmetic::power2::lemma_pow2_unfold(d + 1);
    if d == 0 {
        assert(pow2(0) == 1) by {
            vstd::arithmetic::power2::lemma2_to64();
        }
        assert(index == 0);
    } else {
        lemma_pow2_pos((d - 1) as nat);
        vstd::arithmetic::power2::lemma_pow2_unfold(d);
        assert(index > 0);
        let parent = ((index - 1) / 2) as nat;
        assert(pow2((d - 1) as nat) <= parent + 1 < pow2(d));
        lemma_level_of_characterization(parent, (d - 1) as nat);
    }
}


/// Every storage index lies between `2^level - 1` and `2^(level+1) - 2`
/// for its own level.
pub proof fn lemma_level_bounds(s: nat)
    ensures
        pow2(level_of(s)) <= s + 1 < pow2(level_of(s) + 1),
    decreases s,
{
    if s == 0 {
        vstd::arithmetic::power2::lemma2_to64();
    } else {
        let p = ((s - 1) / 2) as nat;
        lemma_level_bounds(p);
        vstd::arithmetic::power2::lemma_pow2_unfold(level_of(s));
        vstd::arithmetic::power2::lemma_pow2_unfold(level_of(s) + 1);
    }
}

/// Powers of two are monotone.
pub proof fn lemma_pow2_mono(a: nat, b: nat)
    requires
        a <= b,
    ensures
        pow2(a) <= pow2(b),
{
    if a < b {
        lemma_pow2_strictly_increases(a, b);
    }
}

} // verus!
