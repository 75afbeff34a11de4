//! The identity tree facade: the canonical Poseidon Merkle tree, the
//! chronological overlay of pending node patches keyed by future roots,
//! and the leaf index from hash to leaf position.

use vstd::arithmetic::power2::{lemma_pow2_strictly_increases, pow2};
use vstd::prelude::*;

use crate::hash::{poseidon_of, Hash256};
use crate::indices::{
    leaf_to_storage_spec, level_of, offset_of, storage_to_leaf_spec,
};
use crate::maps::{keys_distinct, pairs_as_map, LeafMap, NodeMap};
use crate::merkle::{
    node_hash, padded_leaf, proof_spec, root_of, set_leaf_model, tree_depth_of, tree_leaves,
    Branch, MerkleTree,
};

verus! {

/// A root descriptor: a root hash and the block number it was (or will
/// be) produced at. The overlay is ordered by `block_number` and looked
/// up by `hash`; the two fields deliberately play different roles, and
/// callers never stage two descriptors sharing a hash.
#[derive(Clone, Copy, PartialEq, Eq, Structural, Debug)]
pub struct Root {
    pub hash: Hash256,
    pub block_number: u64,
}

/// A batch of leaf mutations: `Insert` maps leaf indices to fresh
/// non-zero hashes, `Delete` maps leaf indices to the previous values
/// being removed.
pub enum LeafUpdates {
    Insert(NodeMap),
    Delete(NodeMap),
}

impl LeafUpdates {
    /// The leaf-index-to-hash map carried, whichever the case.
    pub open spec fn leaves_spec(&self) -> Map<u32, Hash256> {
        match self {
            LeafUpdates::Insert(m) => m@,
            LeafUpdates::Delete(m) => m@,
        }
    }

    /// The carried entry sequence.
    pub open spec fn entries_spec(&self) -> Seq<(u32, Hash256)> {
        match self {
            LeafUpdates::Insert(m) => m.entries@,
            LeafUpdates::Delete(m) => m.entries@,
        }
    }

    /// Whether this is the `Insert` case.
    pub open spec fn is_insert_spec(&self) -> bool {
        match self {
            LeafUpdates::Insert(m) => true,
            LeafUpdates::Delete(m) => false,
        }
    }

    /// A well-formed batch for a depth-`depth` tree: distinct leaf
    /// indices below the leaf count, reduced values, and non-zero values
    /// when inserting.
    pub open spec fn wf(&self, depth: nat) -> bool {
        &&& match self {
            LeafUpdates::Insert(m) => m.wf(),
            LeafUpdates::Delete(m) => m.wf(),
        }
        &&& forall|i: int|
            0 <= i < self.entries_spec().len() ==> (#[trigger] self.entries_spec()[i]).0 < pow2(
                depth,
            )
        &&& forall|i: int|
            0 <= i < self.entries_spec().len() ==> (#[trigger] self.entries_spec()[i]).1.is_field()
        &&& self.is_insert_spec() ==> forall|i: int|
            0 <= i < self.entries_spec().len() ==> (#[trigger] self.entries_spec()[i]).1
                != Hash256::zero_spec()
    }

    /// The carried map has pairwise-distinct leaf indices.
    pub open spec fn map_wf(&self) -> bool {
        match self {
            LeafUpdates::Insert(m) => m.wf(),
            LeafUpdates::Delete(m) => m.wf(),
        }
    }

    /// Takes the carried leaf map out, whichever the case.
    pub fn into_leaves(self) -> (m: NodeMap)
        ensures
            m@ == self.leaves_spec(),
            m.entries@ == self.entries_spec(),
    {
        match self {
            LeafUpdates::Insert(m) => m,
            LeafUpdates::Delete(m) => m,
        }
    }
}

/// A query failure of the identity tree.
#[derive(Clone, Copy, PartialEq, Eq, Structural, Debug)]
pub enum TreeError {
    /// The queried leaf hash is not in the leaf index.
    LeafNotFound,
    /// The requested root is neither canonical nor in the overlay.
    RootNotFound,
}

/// An inclusion proof: the root it attests and the sibling branches from
/// the leaf up to (but excluding) that root.
#[derive(Debug)]
pub struct InclusionProof {
    pub root: Hash256,
    pub branches: Vec<Branch>,
}

impl InclusionProof {
    /// Packs an attested root and its sibling branches.
    pub fn new(root: Hash256, branches: Vec<Branch>) -> (p: InclusionProof)
        ensures
            p.root == root,
            p.branches == branches,
    {
        InclusionProof { root, branches }
    }
}

/// The leaf index after inserting hash-to-index pairs, in order.
pub open spec fn insert_pairs_model(m: Map<Hash256, u32>, s: Seq<(u32, Hash256)>) -> Map<
    Hash256,
    u32,
>
    decreases s.len(),
{
    if s.len() == 0 {
        m
    } else {
        insert_pairs_model(m.insert(s[0].1, s[0].0), s.drop_first())
    }
}

/// The leaf index after removing the hash values of the pairs, in order.
pub open spec fn remove_values_model(m: Map<Hash256, u32>, s: Seq<(u32, Hash256)>) -> Map<
    Hash256,
    u32,
>
    decreases s.len(),
{
    if s.len() == 0 {
        m
    } else {
        remove_values_model(m.remove(s[0].1), s.drop_first())
    }
}

/// The leaf index after removing the listed hashes, in order.
pub open spec fn remove_hashes_model(m: Map<Hash256, u32>, s: Seq<Hash256>) -> Map<Hash256, u32>
    decreases s.len(),
{
    if s.len() == 0 {
        m
    } else {
        remove_hashes_model(m.remove(s[0]), s.drop_first())
    }
}

/// The canonical leaf layer and leaf index after removing the listed
/// leaf positions, in order: each removed position is zeroed and its
/// previous value leaves the index.
pub open spec fn remove_positions_model(
    canon: Seq<Hash256>,
    m: Map<Hash256, u32>,
    idxs: Seq<usize>,
) -> (Seq<Hash256>, Map<Hash256, u32>)
    decreases idxs.len(),
{
    if idxs.len() == 0 {
        (canon, m)
    } else {
        remove_positions_model(
            canon.update(idxs[0] as int, Hash256::zero_spec()),
            m.remove(canon[idxs[0] as int]),
            idxs.drop_first(),
        )
    }
}

/// Leaf-index invariant: non-zero reduced hashes at positions within a
/// depth-`depth` tree.
pub open spec fn leaf_map_ok(m: Map<Hash256, u32>, depth: nat) -> bool {
    forall|h: Hash256|
        #[trigger] m.dom().contains(h) ==> h != Hash256::zero_spec() && h.is_field() && m[h]
            < pow2(depth)
}

/// Every value of the sequence is a reduced field element.
pub open spec fn all_field(s: Seq<Hash256>) -> bool {
    forall|i: int| 0 <= i < s.len() ==> (#[trigger] s[i]).is_field()
}

/// Inserting a non-zero reduced hash at a position within capacity keeps
/// the leaf-index invariants.
proof fn lemma_leaf_map_wf_insert(m: Map<Hash256, u32>, value: Hash256, index: u32, depth: nat)
    requires
        leaf_map_ok(m, depth),
        value != Hash256::zero_spec(),
        value.is_field(),
        index < pow2(depth),
    ensures
        leaf_map_ok(m.insert(value, index), depth),
{
    let m2 = m.insert(value, index);
    assert forall|h: Hash256| #![trigger m2.dom().contains(h)] m2.dom().contains(h) implies h
        != Hash256::zero_spec() && h.is_field() && m2[h] < pow2(depth) by {
        if h != value {
            assert(m.dom().contains(h));
            assert(m2[h] == m[h]);
        } else {
            assert(m2[h] == index);
        }
    }
    assert(leaf_map_ok(m2, depth));
}

/// Removing any key keeps the leaf-index invariant.
proof fn lemma_leaf_map_wf_remove(m: Map<Hash256, u32>, key: Hash256, depth: nat)
    requires
        leaf_map_ok(m, depth),
    ensures
        leaf_map_ok(m.remove(key), depth),
{
    let m2 = m.remove(key);
    assert forall|h: Hash256| #![trigger m2.dom().contains(h)] m2.dom().contains(h) implies h
        != Hash256::zero_spec() && h.is_field() && m2[h] < pow2(depth) by {
        assert(m.dom().contains(h));
        assert(m2[h] == m[h]);
    }
    assert(leaf_map_ok(m2, depth));
}


/// The hash a proof synthesis reads for a storage index: the patch entry
/// when present, else the canonical node.
pub open spec fn resolve_node(
    patch: Map<u32, Hash256>,
    leaves: Seq<Hash256>,
    depth: nat,
    s: nat,
) -> Hash256 {
    if patch.dom().contains(s as u32) {
        patch[s as u32]
    } else {
        node_hash(leaves, depth, level_of(s), offset_of(s))
    }
}

/// The sibling branches synthesized against an overlay patch, from the
/// storage index `s` up to (but excluding) the root: each sibling is
/// taken from the patch when present, else from the canonical tree, and
/// tagged by the side the path takes.
pub open spec fn synth_branches(
    patch: Map<u32, Hash256>,
    leaves: Seq<Hash256>,
    depth: nat,
    s: nat,
) -> Seq<Branch>
    decreases s,
{
    if s == 0 {
        Seq::empty()
    } else {
        let sib: nat = if s % 2 == 0 {
            (s - 1) as nat
        } else {
            s + 1
        };
        let sv = resolve_node(patch, leaves, depth, sib);
        let b = if s % 2 == 0 {
            Branch::Right(sv)
        } else {
            Branch::Left(sv)
        };
        seq![b] + synth_branches(patch, leaves, depth, ((s - 1) / 2) as nat)
    }
}

/// Storage indices of a depth-bounded tree fit in `u32`.
proof fn lemma_storage_fits(depth: nat, leaf: nat)
    requires
        depth <= 30,
        leaf < pow2(depth),
    ensures
        pow2(depth) - 1 + leaf <= pow2(depth + 1) - 2,
        pow2(depth + 1) - 2 < u32::MAX,
{
    vstd::arithmetic::power2::lemma_pow2_unfold(depth + 1);
    vstd::arithmetic::power2::lemma2_to64();
    if depth + 1 < 32 {
        lemma_pow2_strictly_increases(depth + 1, 32);
    }
}


/// The hash a patch computation reads for a child storage index: the
/// freshly computed entries first, then the previous patch, then the
/// canonical tree.
pub open spec fn child_resolve(
    upd: Map<u32, Hash256>,
    prev: Map<u32, Hash256>,
    leaves: Seq<Hash256>,
    depth: nat,
    c: nat,
) -> Hash256 {
    if upd.dom().contains(c as u32) {
        upd[c as u32]
    } else if prev.dom().contains(c as u32) {
        prev[c as u32]
    } else {
        node_hash(leaves, depth, level_of(c), offset_of(c))
    }
}

/// One level of the patch computation: for each dirty node, its parent is
/// computed from the resolved children and recorded, unless it was
/// already computed via a sibling. Returns the extended map and the
/// parents recorded, in order.
pub open spec fn process_level(
    upd: Map<u32, Hash256>,
    dirty: Seq<u32>,
    prev: Map<u32, Hash256>,
    leaves: Seq<Hash256>,
    depth: nat,
) -> (Map<u32, Hash256>, Seq<u32>)
    decreases dirty.len(),
{
    if dirty.len() == 0 {
        (upd, Seq::empty())
    } else {
        let n = dirty[0];
        let p = (((n - 1) / 2) as u32);
        if upd.dom().contains(p) {
            process_level(upd, dirty.drop_first(), prev, leaves, depth)
        } else {
            let h = poseidon_of(
                child_resolve(upd, prev, leaves, depth, 2 * (p as nat) + 1),
                child_resolve(upd, prev, leaves, depth, 2 * (p as nat) + 2),
            );
            let rec = process_level(upd.insert(p, h), dirty.drop_first(), prev, leaves, depth);
            (rec.0, seq![p] + rec.1)
        }
    }
}

/// The patch computation run for `levels` levels, from the dirty leaf
/// layer up to the root.
pub open spec fn build_patch(
    upd: Map<u32, Hash256>,
    dirty: Seq<u32>,
    prev: Map<u32, Hash256>,
    leaves: Seq<Hash256>,
    depth: nat,
    levels: nat,
) -> Map<u32, Hash256>
    decreases levels,
{
    if levels == 0 {
        upd
    } else {
        let st = process_level(upd, dirty, prev, leaves, depth);
        build_patch(st.0, st.1, prev, leaves, depth, (levels - 1) as nat)
    }
}

/// Leaf updates lowered to the storage layer: each leaf index becomes its
/// storage index, and delete values become the zero value.
pub open spec fn lowered_pairs(entries: Seq<(u32, Hash256)>, is_insert: bool, depth: nat) -> Seq<
    (u32, Hash256),
> {
    entries.map_values(
        |p: (u32, Hash256)|
            (
                ((pow2(depth) - 1 + p.0) as u32),
                if is_insert {
                    p.1
                } else {
                    Hash256::zero_spec()
                },
            ),
    )
}

/// The node patch `append_updates` stores: the lowered leaf writes, every
/// interior node on a dirtied path recomputed level by level against the
/// previous patch and the canonical tree, and the rest of the previous
/// patch copied forward.
pub open spec fn appended_patch(
    entries: Seq<(u32, Hash256)>,
    is_insert: bool,
    prev: Map<u32, Hash256>,
    leaves: Seq<Hash256>,
    depth: nat,
) -> Map<u32, Hash256> {
    let low = lowered_pairs(entries, is_insert, depth);
    let built = build_patch(
        pairs_as_map(low),
        low.map_values(|p: (u32, Hash256)| p.0),
        prev,
        leaves,
        depth,
        depth,
    );
    prev.union_prefer_right(built)
}

/// The node patch of the latest overlay entry, or empty with no entry.
pub open spec fn prev_patch_spec(s: Seq<(Root, NodeMap)>) -> Map<u32, Hash256> {
    if s.len() == 0 {
        Map::empty()
    } else {
        s.last().1@
    }
}


/// The canonical leaf layer after applying a promoted patch's leaf-layer
/// entries, in the patch's entry order: each entry at or past the leaf
/// layer writes its value at the corresponding leaf position.
pub open spec fn apply_patch_leaves(
    canon: Seq<Hash256>,
    entries: Seq<(u32, Hash256)>,
    depth: nat,
) -> Seq<Hash256>
    decreases entries.len(),
{
    if entries.len() == 0 {
        canon
    } else {
        let e = entries[0];
        let canon2 = if e.0 as nat >= pow2(depth) - 1 {
            set_leaf_model(canon, storage_to_leaf_spec(e.0 as nat, depth), e.1)
        } else {
            canon
        };
        apply_patch_leaves(canon2, entries.drop_first(), depth)
    }
}

/// Strictly ascending keys.
pub open spec fn sorted_pairs(s: Seq<(u32, Hash256)>) -> bool {
    forall|a: int, b: int| 0 <= a < b < s.len() ==> (#[trigger] s[a]).0 < (#[trigger] s[b]).0
}

/// The net per-leaf result of applying the batches in order, the latest
/// writer winning per leaf index.
pub open spec fn flatten_model(s: Seq<(Root, LeafUpdates)>) -> Map<u32, Hash256>
    decreases s.len(),
{
    if s.len() == 0 {
        Map::empty()
    } else {
        flatten_model(s.drop_last()).union_prefer_right(s.last().1.leaves_spec())
    }
}

/// The apply-in-order model read from the front: the first batch loses to
/// everything after it.
pub proof fn lemma_flatten_model_first(s: Seq<(Root, LeafUpdates)>)
    requires
        s.len() > 0,
    ensures
        flatten_model(s) == s[0].1.leaves_spec().union_prefer_right(
            flatten_model(s.drop_first()),
        ),
    decreases s.len(),
{
    if s.len() == 1 {
        assert(s.drop_last().len() == 0);
        assert(s.drop_first().len() == 0);
        assert(flatten_model(s.drop_last()) == Map::<u32, Hash256>::empty());
        assert(flatten_model(s.drop_first()) == Map::<u32, Hash256>::empty());
        assert(s.last() == s[0]);
        assert(flatten_model(s) =~= s[0].1.leaves_spec().union_prefer_right(
            flatten_model(s.drop_first()),
        ));
    } else {
        let dl = s.drop_last();
        lemma_flatten_model_first(dl);
        let df = s.drop_first();
        assert(dl[0] == s[0]);
        assert(df.last() == s.last());
        assert(df.drop_last() =~= dl.drop_first());
        let a = s[0].1.leaves_spec();
        let b = flatten_model(dl.drop_first());
        let c = s.last().1.leaves_spec();
        assert(flatten_model(dl) == a.union_prefer_right(b));
        assert(flatten_model(s) == a.union_prefer_right(b).union_prefer_right(c));
        assert(flatten_model(df) == b.union_prefer_right(c));
        assert(a.union_prefer_right(b).union_prefer_right(c) =~= a.union_prefer_right(
            b.union_prefer_right(c),
        ));
    }
}

/// Inserts a pair into a strictly sorted vector unless its key is
/// already present.
fn sorted_insert_if_absent(v: &mut Vec<(u32, Hash256)>, key: u32, value: Hash256)
    requires
        sorted_pairs(old(v)@),
    ensures
        sorted_pairs(final(v)@),
        pairs_as_map(final(v)@) == (if pairs_as_map(old(v)@).dom().contains(key) {
            pairs_as_map(old(v)@)
        } else {
            pairs_as_map(old(v)@).insert(key, value)
        }),
{
    let n = v.len();
    let mut pos: usize = 0;
    while pos < n && v[pos].0 < key
        invariant
            n == v@.len(),
            pos <= n,
            v == old(v),
            forall|t: int| 0 <= t < pos ==> (#[trigger] v@[t]).0 < key,
        decreases n - pos,
    {
        pos = pos + 1;
    }
    if pos < n && v[pos].0 == key {
        proof {
            assert(sorted_pairs(v@) ==> keys_distinct(v@)) by {
                assert forall|a: int, b: int| 0 <= a < b < v@.len() implies (#[trigger] v@[a]).0
                    != (#[trigger] v@[b]).0 by {
                    assert(v@[a].0 < v@[b].0);
                }
            }
            crate::maps::lemma_pairs_as_map_index(v@, pos as int);
        }
        return ;
    }
    proof {
        assert forall|t: int| 0 <= t < v@.len() implies (#[trigger] v@[t]).0 != key by {
            if t >= pos {
                assert(v@[pos as int].0 <= v@[t].0);
            }
        }
        assert forall|a: int, b: int| 0 <= a < b < v@.len() implies (#[trigger] v@[a]).0 != (
        #[trigger] v@[b]).0 by {
            assert(v@[a].0 < v@[b].0);
        }
        crate::maps::lemma_pairs_as_map_absent(v@, key);
        crate::maps::lemma_pairs_as_map_insert_at(v@, pos as int, key, value);
    }
    let ghost pre = v@;
    v.insert(pos, (key, value));
    proof {
        assert forall|a: int, b: int| 0 <= a < b < v@.len() implies (#[trigger] v@[a]).0 < (
        #[trigger] v@[b]).0 by {
            if a < pos as int && b < pos as int {
                assert(v@[a] == pre[a] && v@[b] == pre[b]);
            } else if a < pos as int && b == pos as int {
                assert(v@[a] == pre[a]);
            } else if a < pos as int && b > pos as int {
                assert(v@[a] == pre[a] && v@[b] == pre[b - 1]);
                if pos as int <= b - 1 {
                    assert(pre[pos as int].0 <= pre[b - 1].0 || pos as int == b - 1);
                }
            } else if a == pos as int {
                assert(v@[b] == pre[b - 1]);
                assert(b - 1 >= pos as int);
                if pos as int == b - 1 {
                    assert(pre[b - 1].0 >= key);
                } else {
                    assert(pre[pos as int].0 < pre[b - 1].0);
                    assert(pre[pos as int].0 >= key);
                }
            } else {
                assert(v@[a] == pre[a - 1] && v@[b] == pre[b - 1]);
            }
        }
    }
}

/// Collapses chronologically ordered leaf-update batches into the net
/// per-leaf result, the latest writer winning per leaf index, sorted
/// ascending by leaf index.
pub fn flatten_leaf_updates(leaf_updates: Vec<(Root, LeafUpdates)>) -> (r: Vec<(u32, Hash256)>)
    requires
        forall|i: int|
            0 <= i < leaf_updates@.len() ==> (#[trigger] leaf_updates@[i]).1.map_wf(),
        forall|i: int, j: int|
            0 <= i < j < leaf_updates@.len() ==> (#[trigger] leaf_updates@[i]).0.block_number < (
            #[trigger] leaf_updates@[j]).0.block_number,
    ensures
        sorted_pairs(r@),
        pairs_as_map(r@) == flatten_model(leaf_updates@),
{
    let n = leaf_updates.len();
    let mut acc: Vec<(u32, Hash256)> = Vec::new();
    let mut i = n;
    proof {
        assert(leaf_updates@.subrange(n as int, n as int).len() == 0);
    }
    while i > 0
        invariant
            n == leaf_updates@.len(),
            i <= n,
            forall|t: int|
                0 <= t < leaf_updates@.len() ==> (#[trigger] leaf_updates@[t]).1.map_wf(),
            sorted_pairs(acc@),
            pairs_as_map(acc@) == flatten_model(leaf_updates@.subrange(i as int, n as int)),
        decreases i,
    {
        i = i - 1;
        let entv: &Vec<(u32, Hash256)> = match &leaf_updates[i].1 {
            LeafUpdates::Insert(m) => &m.entries,
            LeafUpdates::Delete(m) => &m.entries,
        };
        let ghost patch_map = leaf_updates@[i as int].1.leaves_spec();
        let ghost acc0 = pairs_as_map(acc@);
        let pm = entv.len();
        let mut j: usize = 0;
        proof {
            assert(pairs_as_map(entv@.subrange(0, 0)).union_prefer_right(acc0) =~= acc0);
        }
        while j < pm
            invariant
                pm == entv@.len(),
                j <= pm,
                entv@ == leaf_updates@[i as int].1.entries_spec(),
                keys_distinct(entv@),
                sorted_pairs(acc@),
                pairs_as_map(acc@) == pairs_as_map(entv@.subrange(0, j as int))
                    .union_prefer_right(acc0),
            decreases pm - j,
        {
            let (k, v) = entv[j];
            let ghost pre_acc = pairs_as_map(acc@);
            let ghost mpre = pairs_as_map(entv@.subrange(0, j as int));
            sorted_insert_if_absent(&mut acc, k, v);
            proof {
                assert(entv@.subrange(0, j as int + 1) =~= entv@.subrange(0, j as int).push(
                    (k, v),
                ));
                assert(entv@.subrange(0, j as int + 1).drop_last() =~= entv@.subrange(
                    0,
                    j as int,
                ));
                assert(pairs_as_map(entv@.subrange(0, j as int + 1)) == mpre.insert(k, v));
                assert forall|t: int|
                    0 <= t < entv@.subrange(0, j as int).len() implies (
                #[trigger] entv@.subrange(0, j as int)[t]).0 != k by {
                    assert(entv@.subrange(0, j as int)[t] == entv@[t]);
                }
                crate::maps::lemma_pairs_as_map_absent(entv@.subrange(0, j as int), k);
                assert(!mpre.dom().contains(k));
                if pre_acc.dom().contains(k) {
                    assert(acc0.dom().contains(k));
                    assert(pairs_as_map(acc@) =~= mpre.insert(k, v).union_prefer_right(acc0));
                } else {
                    assert(pairs_as_map(acc@) =~= mpre.insert(k, v).union_prefer_right(acc0));
                }
            }
            j = j + 1;
        }
        proof {
            assert(entv@.subrange(0, pm as int) =~= entv@);
            assert(pairs_as_map(entv@) == patch_map);
            let suf = leaf_updates@.subrange(i as int, n as int);
            lemma_flatten_model_first(suf);
            assert(suf[0] == leaf_updates@[i as int]);
            assert(suf.drop_first() =~= leaf_updates@.subrange(i as int + 1, n as int));
            assert(pairs_as_map(acc@) == flatten_model(suf));
        }
    }
    proof {
        assert(leaf_updates@.subrange(0, n as int) =~= leaf_updates@);
    }
    acc
}


/// Writing a reduced value at a leaf keeps every leaf-layer value
/// reduced.
proof fn lemma_set_leaf_all_field(canon: Seq<Hash256>, leaf: nat, v: Hash256)
    requires
        all_field(canon),
        v.is_field(),
    ensures
        all_field(set_leaf_model(canon, leaf, v)),
{
    let r = set_leaf_model(canon, leaf, v);
    assert(Hash256::zero_spec().is_field());
    assert forall|i: int| 0 <= i < r.len() implies (#[trigger] r[i]).is_field() by {
        if leaf < canon.len() {
            if i != leaf as int {
                assert(r[i] == canon[i]);
            }
        } else {
            if i < canon.len() {
                assert(r[i] == canon[i]);
            } else if i < r.len() - 1 {
                assert(r[i] == Hash256::zero_spec());
            } else {
                assert(r[i] == v);
            }
        }
    }
}


/// A patch is consistent along the path from storage index `s` to the
/// root: every proper ancestor of `s` is present and holds the Poseidon
/// hash of its two resolved children. `append_updates` computes exactly
/// this for every path it dirties.
pub open spec fn path_consistent(
    patch: Map<u32, Hash256>,
    leaves: Seq<Hash256>,
    depth: nat,
    s: nat,
) -> bool
    decreases s,
{
    if s == 0 {
        true
    } else {
        let p = ((s - 1) / 2) as nat;
        &&& patch.dom().contains(p as u32)
        &&& patch[p as u32] == poseidon_of(
            resolve_node(patch, leaves, depth, 2 * p + 1),
            resolve_node(patch, leaves, depth, 2 * p + 2),
        )
        &&& path_consistent(patch, leaves, depth, p)
    }
}

/// Law: an inclusion proof synthesized against an overlay patch that is
/// consistent along the leaf's path reproduces the patch's root entry
/// from the leaf's resolved value. With the patch of `append_updates`,
/// whose entry at storage index 0 is the staged root hash, the proof
/// for a staged leaf thus verifies to that root hash, while the
/// canonical tree is untouched.
pub proof fn lemma_synth_proof_verifies(
    patch: Map<u32, Hash256>,
    leaves: Seq<Hash256>,
    depth: nat,
    s: nat,
)
    requires
        path_consistent(patch, leaves, depth, s),
    ensures
        crate::merkle::branches_root(
            synth_branches(patch, leaves, depth, s),
            resolve_node(patch, leaves, depth, s),
        ) == resolve_node(patch, leaves, depth, 0),
    decreases s,
{
    if s == 0 {
    } else {
        let p = ((s - 1) / 2) as nat;
        let sib: nat = if s % 2 == 0 {
            (s - 1) as nat
        } else {
            s + 1
        };
        let sv = resolve_node(patch, leaves, depth, sib);
        let here = resolve_node(patch, leaves, depth, s);
        let b = if s % 2 == 0 {
            Branch::Right(sv)
        } else {
            Branch::Left(sv)
        };
        let step = if s % 2 == 0 {
            poseidon_of(sv, here)
        } else {
            poseidon_of(here, sv)
        };
        if s % 2 == 0 {
            assert(s == 2 * p + 2);
            assert(sib == 2 * p + 1);
        } else {
            assert(s == 2 * p + 1);
            assert(sib == 2 * p + 2);
        }
        assert(step == patch[p as u32]);
        assert(step == resolve_node(patch, leaves, depth, p));
        let full = synth_branches(patch, leaves, depth, s);
        assert(full == seq![b] + synth_branches(patch, leaves, depth, p));
        assert(full[0] == b);
        assert(full.drop_first() =~= synth_branches(patch, leaves, depth, p));
        lemma_synth_proof_verifies(patch, leaves, depth, p);
    }
}


/// A patch under construction is consistent along the path from `s` to
/// the root: every proper ancestor is present and holds the Poseidon
/// hash of its children as the construction resolves them.
spec fn path_built(
    upd: Map<u32, Hash256>,
    prev: Map<u32, Hash256>,
    leaves: Seq<Hash256>,
    depth: nat,
    s: nat,
) -> bool
    decreases s,
{
    if s == 0 {
        true
    } else {
        let p = ((s - 1) / 2) as nat;
        &&& upd.dom().contains(p as u32)
        &&& upd[p as u32] == poseidon_of(
            child_resolve(upd, prev, leaves, depth, 2 * p + 1),
            child_resolve(upd, prev, leaves, depth, 2 * p + 2),
        )
        &&& path_built(upd, prev, leaves, depth, p)
    }
}

/// Growing the map with entries at one fixed level leaves the resolution
/// of a node at any other level unchanged.
proof fn lemma_cr_frame(
    small: Map<u32, Hash256>,
    big: Map<u32, Hash256>,
    prev: Map<u32, Hash256>,
    leaves: Seq<Hash256>,
    depth: nat,
    c: nat,
    newlvl: nat,
)
    requires
        forall|k: u32|
            #[trigger] small.dom().contains(k) ==> big.dom().contains(k) && big[k] == small[k],
        forall|k: u32|
            #[trigger] big.dom().contains(k) ==> small.dom().contains(k) || level_of(k as nat)
                == newlvl,
        c < 0x1_0000_0000,
        level_of(c) != newlvl,
    ensures
        child_resolve(big, prev, leaves, depth, c) == child_resolve(small, prev, leaves, depth, c),
{
    if small.dom().contains(c as u32) {
    } else if big.dom().contains(c as u32) {
        assert((c as u32) as nat == c);
        assert(false);
    }
}

/// One level of the patch computation: the map grows monotonically by
/// exactly the emitted parents, each parent of a dirty node is present,
/// and every node at the new level holds the Poseidon hash of its
/// resolved children.
proof fn lemma_process_level(
    upd: Map<u32, Hash256>,
    dirty: Seq<u32>,
    prev: Map<u32, Hash256>,
    leaves: Seq<Hash256>,
    depth: nat,
    lvl: nat,
)
    requires
        1 <= lvl <= depth <= 30,
        forall|j: int| 0 <= j < dirty.len() ==> level_of((#[trigger] dirty[j]) as nat) == lvl,
        forall|k: u32| #[trigger] upd.dom().contains(k) ==> level_of(k as nat) >= lvl - 1,
        forall|k: u32|
            #[trigger] upd.dom().contains(k) && level_of(k as nat) == lvl - 1 ==> upd[k]
                == poseidon_of(
                child_resolve(upd, prev, leaves, depth, 2 * (k as nat) + 1),
                child_resolve(upd, prev, leaves, depth, 2 * (k as nat) + 2),
            ),
    ensures
        ({
            let r = process_level(upd, dirty, prev, leaves, depth);
            &&& forall|k: u32|
                #[trigger] upd.dom().contains(k) ==> r.0.dom().contains(k) && r.0[k] == upd[k]
            &&& forall|k: u32|
                #[trigger] r.0.dom().contains(k) ==> upd.dom().contains(k) || (level_of(k as nat)
                    == lvl - 1 && r.1.contains(k))
            &&& forall|t: int|
                0 <= t < r.1.len() ==> level_of((#[trigger] r.1[t]) as nat) == lvl - 1
                    && r.0.dom().contains(r.1[t])
            &&& forall|j: int|
                0 <= j < dirty.len() ==> r.0.dom().contains(
                    (((#[trigger] dirty[j] - 1) / 2) as u32),
                )
            &&& forall|k: u32|
                #[trigger] r.0.dom().contains(k) && level_of(k as nat) == lvl - 1 ==> r.0[k]
                    == poseidon_of(
                    child_resolve(r.0, prev, leaves, depth, 2 * (k as nat) + 1),
                    child_resolve(r.0, prev, leaves, depth, 2 * (k as nat) + 2),
                )
        }),
    decreases dirty.len(),
{
    if dirty.len() == 0 {
    } else {
        let n = dirty[0];
        let p = (((n - 1) / 2) as u32);
        assert(level_of(n as nat) == lvl);
        assert(n as nat > 0) by {
            if n as nat == 0 {
                assert(level_of(0) == 0);
            }
        }
        assert(level_of(p as nat) == (lvl - 1) as nat);
        crate::indices::lemma_level_bounds(p as nat);
        crate::indices::lemma_pow2_mono(level_of(p as nat) + 1, depth);
        crate::indices::lemma_pow2_mono(depth + 1, 31);
        vstd::arithmetic::power2::lemma_pow2_unfold(depth + 1);
        vstd::arithmetic::power2::lemma2_to64();
        assert(2 * (p as nat) + 2 < pow2(depth + 1));
        let rest = dirty.drop_first();
        assert(forall|j: int|
            0 <= j < rest.len() ==> level_of((#[trigger] rest[j]) as nat) == lvl);
        if upd.dom().contains(p) {
            lemma_process_level(upd, rest, prev, leaves, depth, lvl);
            let r = process_level(upd, rest, prev, leaves, depth);
            assert(process_level(upd, dirty, prev, leaves, depth) == r);
            assert forall|j: int|
                0 <= j < dirty.len() implies r.0.dom().contains(
                (((#[trigger] dirty[j] - 1) / 2) as u32),
            ) by {
                if j == 0 {
                    assert(upd.dom().contains(p));
                    assert(r.0.dom().contains(p));
                } else {
                    assert(rest[j - 1] == dirty[j]);
                }
            }
        } else {
            let lc = 2 * (p as nat) + 1;
            let rc = 2 * (p as nat) + 2;
            let h = poseidon_of(
                child_resolve(upd, prev, leaves, depth, lc),
                child_resolve(upd, prev, leaves, depth, rc),
            );
            let upd2 = upd.insert(p, h);
            assert(forall|k: u32|
                #[trigger] upd2.dom().contains(k) ==> level_of(k as nat) >= (lvl - 1) as nat);
            assert forall|k: u32|
                #[trigger] upd2.dom().contains(k) && level_of(k as nat) == lvl - 1 implies upd2[k]
                    == poseidon_of(
                    child_resolve(upd2, prev, leaves, depth, 2 * (k as nat) + 1),
                    child_resolve(upd2, prev, leaves, depth, 2 * (k as nat) + 2),
                ) by {
                crate::indices::lemma_level_bounds(k as nat);
                crate::indices::lemma_pow2_mono(level_of(k as nat) + 1, depth);
                assert(2 * (k as nat) + 2 < pow2(depth + 1));
                assert(level_of(2 * (k as nat) + 1) == lvl) by {
                    assert(((2 * (k as nat) + 1 - 1) / 2) as nat == k as nat);
                }
                assert(level_of(2 * (k as nat) + 2) == lvl) by {
                    assert(((2 * (k as nat) + 2 - 1) / 2) as nat == k as nat);
                }
                lemma_cr_frame(upd, upd2, prev, leaves, depth, 2 * (k as nat) + 1, (lvl - 1) as nat);
                lemma_cr_frame(upd, upd2, prev, leaves, depth, 2 * (k as nat) + 2, (lvl - 1) as nat);
                if k != p {
                    assert(upd.dom().contains(k));
                    assert(upd2[k] == upd[k]);
                }
            }
            lemma_process_level(upd2, rest, prev, leaves, depth, lvl);
            let r2 = process_level(upd2, rest, prev, leaves, depth);
            let r = process_level(upd, dirty, prev, leaves, depth);
            assert(r == (r2.0, seq![p] + r2.1));
            assert(r.1[0] == p);
            assert(forall|t: int| 0 <= t < r2.1.len() ==> r.1[t + 1] == (#[trigger] r2.1[t]));
            assert(upd2.dom().contains(p));
            assert(r2.0.dom().contains(p));
            assert forall|k: u32| #[trigger] upd.dom().contains(k) implies r2.0.dom().contains(k)
                && r2.0[k] == upd[k] by {
                assert(k != p);
                assert(upd2.dom().contains(k));
                assert(upd2[k] == upd[k]);
            }
            assert forall|t: int| 0 <= t < r.1.len() implies level_of((
            #[trigger] r.1[t]) as nat) == lvl - 1 && r.0.dom().contains(r.1[t]) by {
                if t > 0 {
                    assert(r.1[t] == r2.1[t - 1]);
                } else {
                    assert(r.1[0] == p);
                }
            }
            assert forall|k: u32|
                #[trigger] r.0.dom().contains(k) implies upd.dom().contains(k) || (level_of(
                k as nat,
            ) == lvl - 1 && r.1.contains(k)) by {
                if !upd.dom().contains(k) {
                    if k == p {
                        assert(r.1[0] == p);
                        assert(r.1.contains(p));
                    } else {
                        assert(upd2.dom().contains(k) || (level_of(k as nat) == lvl - 1
                            && r2.1.contains(k)));
                        if !upd2.dom().contains(k) {
                            let t = choose|t: int| 0 <= t < r2.1.len() && r2.1[t] == k;
                            assert(r.1[t + 1] == k);
                            assert(r.1.contains(k));
                        }
                    }
                }
            }
            assert forall|j: int|
                0 <= j < dirty.len() implies r.0.dom().contains(
                (((#[trigger] dirty[j] - 1) / 2) as u32),
            ) by {
                if j == 0 {
                    assert(upd2.dom().contains(p));
                } else {
                    assert(rest[j - 1] == dirty[j]);
                }
            }
        }
    }
}

/// The full patch computation: the map grows monotonically, only nodes
/// below the starting level are added, every interior node added holds
/// the Poseidon hash of its resolved children, and the path of every
/// dirty node is fully built.
proof fn lemma_build_patch(
    upd: Map<u32, Hash256>,
    dirty: Seq<u32>,
    prev: Map<u32, Hash256>,
    leaves: Seq<Hash256>,
    depth: nat,
    lvl: nat,
)
    requires
        lvl <= depth <= 30,
        forall|j: int| 0 <= j < dirty.len() ==> level_of((#[trigger] dirty[j]) as nat) == lvl,
        forall|k: u32| #[trigger] upd.dom().contains(k) ==> level_of(k as nat) >= lvl,
        forall|k: u32|
            #[trigger] upd.dom().contains(k) && level_of(k as nat) < depth ==> upd[k]
                == poseidon_of(
                child_resolve(upd, prev, leaves, depth, 2 * (k as nat) + 1),
                child_resolve(upd, prev, leaves, depth, 2 * (k as nat) + 2),
            ),
    ensures
        ({
            let b = build_patch(upd, dirty, prev, leaves, depth, lvl);
            &&& forall|k: u32|
                #[trigger] upd.dom().contains(k) ==> b.dom().contains(k) && b[k] == upd[k]
            &&& forall|k: u32|
                #[trigger] b.dom().contains(k) ==> upd.dom().contains(k) || level_of(k as nat)
                    < lvl
            &&& forall|k: u32|
                #[trigger] b.dom().contains(k) && level_of(k as nat) < depth ==> b[k]
                    == poseidon_of(
                    child_resolve(b, prev, leaves, depth, 2 * (k as nat) + 1),
                    child_resolve(b, prev, leaves, depth, 2 * (k as nat) + 2),
                )
            &&& forall|j: int|
                0 <= j < dirty.len() ==> path_built(b, prev, leaves, depth, (
                #[trigger] dirty[j]) as nat)
        }),
    decreases lvl,
{
    if lvl == 0 {
        assert forall|j: int|
            0 <= j < dirty.len() implies path_built(
            build_patch(upd, dirty, prev, leaves, depth, lvl),
            prev,
            leaves,
            depth,
            (#[trigger] dirty[j]) as nat,
        ) by {
            assert(level_of(dirty[j] as nat) == 0);
            assert(dirty[j] as nat == 0) by {
                if dirty[j] as nat > 0 {
                    assert(level_of(dirty[j] as nat) == 1 + level_of(
                        ((dirty[j] as nat - 1) / 2) as nat,
                    ));
                }
            }
        }
    } else {
        assert forall|k: u32|
            #[trigger] upd.dom().contains(k) && level_of(k as nat) == lvl - 1 implies false by {
            assert(level_of(k as nat) >= lvl);
        }
        lemma_process_level(upd, dirty, prev, leaves, depth, lvl);
        let st = process_level(upd, dirty, prev, leaves, depth);
        assert forall|k: u32| #[trigger] st.0.dom().contains(k) implies level_of(k as nat) >= lvl
            - 1 by {
            if !upd.dom().contains(k) {
                assert(level_of(k as nat) == (lvl - 1) as nat);
            }
        }
        assert forall|k: u32|
            #[trigger] st.0.dom().contains(k) && level_of(k as nat) < depth implies st.0[k]
                == poseidon_of(
                child_resolve(st.0, prev, leaves, depth, 2 * (k as nat) + 1),
                child_resolve(st.0, prev, leaves, depth, 2 * (k as nat) + 2),
            ) by {
            crate::indices::lemma_level_bounds(k as nat);
            crate::indices::lemma_pow2_mono(level_of(k as nat) + 1, depth);
            crate::indices::lemma_pow2_mono(depth + 1, 31);
            vstd::arithmetic::power2::lemma_pow2_unfold(depth + 1);
            vstd::arithmetic::power2::lemma2_to64();
            assert(2 * (k as nat) + 2 < pow2(depth + 1));
            assert(level_of(2 * (k as nat) + 1) == level_of(k as nat) + 1) by {
                assert(((2 * (k as nat) + 1 - 1) / 2) as nat == k as nat);
            }
            assert(level_of(2 * (k as nat) + 2) == level_of(k as nat) + 1) by {
                assert(((2 * (k as nat) + 2 - 1) / 2) as nat == k as nat);
            }
            if level_of(k as nat) == lvl - 1 {
            } else {
                assert(upd.dom().contains(k));
                assert(level_of(k as nat) >= lvl);
                lemma_cr_frame(upd, st.0, prev, leaves, depth, 2 * (k as nat) + 1, (lvl - 1) as nat);
                lemma_cr_frame(upd, st.0, prev, leaves, depth, 2 * (k as nat) + 2, (lvl - 1) as nat);
            }
        }
        lemma_build_patch(st.0, st.1, prev, leaves, depth, (lvl - 1) as nat);
        let b = build_patch(st.0, st.1, prev, leaves, depth, (lvl - 1) as nat);
        assert(build_patch(upd, dirty, prev, leaves, depth, lvl) == b);
        assert forall|j: int|
            0 <= j < dirty.len() implies path_built(b, prev, leaves, depth, (
        #[trigger] dirty[j]) as nat) by {
            let e = dirty[j] as nat;
            assert(e > 0) by {
                if e == 0 {
                    assert(level_of(0) == 0);
                }
            }
            let p = (((dirty[j] - 1) / 2) as u32);
            assert(st.0.dom().contains(p));
            assert(p as nat == (e - 1) / 2);
            assert(level_of(p as nat) == lvl - 1) by {
                assert(level_of(e) == 1 + level_of(((e - 1) / 2) as nat));
            }
            assert(!upd.dom().contains(p)) by {
                if upd.dom().contains(p) {
                    assert(level_of(p as nat) >= lvl);
                }
            }
            assert(st.1.contains(p));
            let t = choose|t: int| 0 <= t < st.1.len() && st.1[t] == p;
            assert(path_built(b, prev, leaves, depth, p as nat));
            assert(b.dom().contains(p));
            assert(level_of(p as nat) < depth);
        }
    }
}


/// Reading a child during construction equals resolving it against the
/// finished patch, the previous patch under the built entries.
proof fn lemma_cr_resolve(
    built: Map<u32, Hash256>,
    prev: Map<u32, Hash256>,
    leaves: Seq<Hash256>,
    depth: nat,
    c: nat,
)
    ensures
        child_resolve(built, prev, leaves, depth, c) == resolve_node(
            prev.union_prefer_right(built),
            leaves,
            depth,
            c,
        ),
{
    let pm = prev.union_prefer_right(built);
    if built.dom().contains(c as u32) {
        assert(pm[c as u32] == built[c as u32]);
    } else if prev.dom().contains(c as u32) {
        assert(pm[c as u32] == prev[c as u32]);
    } else {
        assert(!pm.dom().contains(c as u32));
    }
}

/// A path built during construction is consistent in the finished patch.
proof fn lemma_path_built_to_consistent(
    built: Map<u32, Hash256>,
    prev: Map<u32, Hash256>,
    leaves: Seq<Hash256>,
    depth: nat,
    s: nat,
)
    requires
        path_built(built, prev, leaves, depth, s),
    ensures
        path_consistent(prev.union_prefer_right(built), leaves, depth, s),
    decreases s,
{
    if s > 0 {
        let p = ((s - 1) / 2) as nat;
        let pm = prev.union_prefer_right(built);
        assert(pm.dom().contains(p as u32));
        assert(pm[p as u32] == built[p as u32]);
        lemma_cr_resolve(built, prev, leaves, depth, 2 * p + 1);
        lemma_cr_resolve(built, prev, leaves, depth, 2 * p + 2);
        lemma_path_built_to_consistent(built, prev, leaves, depth, p);
    }
}

/// A patch consistent along any non-root path holds a root entry.
proof fn lemma_consistent_root_present(
    patch: Map<u32, Hash256>,
    leaves: Seq<Hash256>,
    depth: nat,
    s: nat,
)
    requires
        path_consistent(patch, leaves, depth, s),
        s > 0,
    ensures
        patch.dom().contains(0u32),
    decreases s,
{
    let p = ((s - 1) / 2) as nat;
    if p == 0 {
        assert(patch.dom().contains(0u32));
    } else {
        lemma_consistent_root_present(patch, leaves, depth, p);
    }
}

/// Law: the patch `append_updates` stores holds the lowered value of
/// every touched leaf and a fully recomputed path above it, and an
/// inclusion proof synthesized against that patch for a touched leaf
/// verifies to the patch's root entry (storage index 0) — the hash the
/// staged root descriptor carries whenever the caller staged a
/// consistent one. That the canonical tree is unchanged is stated in
/// `append_updates`' own contract.
pub proof fn lemma_appended_proof_verifies(
    entries: Seq<(u32, Hash256)>,
    is_insert: bool,
    prev: Map<u32, Hash256>,
    leaves: Seq<Hash256>,
    depth: nat,
    i: int,
)
    requires
        1 <= depth <= 30,
        keys_distinct(entries),
        forall|k: int| 0 <= k < entries.len() ==> (#[trigger] entries[k]).0 < pow2(depth),
        0 <= i < entries.len(),
    ensures
        ({
            let patch = appended_patch(entries, is_insert, prev, leaves, depth);
            let s = leaf_to_storage_spec(entries[i].0 as nat, depth);
            let value = if is_insert {
                entries[i].1
            } else {
                Hash256::zero_spec()
            };
            &&& patch.dom().contains(s as u32)
            &&& patch[s as u32] == value
            &&& patch.dom().contains(0u32)
            &&& crate::merkle::branches_root(synth_branches(patch, leaves, depth, s), value)
                == patch[0u32]
        }),
{
    let low = lowered_pairs(entries, is_insert, depth);
    let patch = appended_patch(entries, is_insert, prev, leaves, depth);
    let s = leaf_to_storage_spec(entries[i].0 as nat, depth);
    let value = if is_insert {
        entries[i].1
    } else {
        Hash256::zero_spec()
    };
    assert(low.len() == entries.len());
    vstd::arithmetic::power2::lemma_pow2_unfold(depth + 1);
    assert forall|t: int| 0 <= t < low.len() implies (#[trigger] low[t]).0 as nat == pow2(depth)
        - 1 + entries[t].0 && level_of(low[t].0 as nat) == depth by {
        lemma_storage_fits(depth, entries[t].0 as nat);
        crate::indices::lemma_level_of_characterization(
            (pow2(depth) - 1 + entries[t].0) as nat,
            depth,
        );
    }
    assert forall|a: int, b: int| 0 <= a < b < low.len() implies (#[trigger] low[a]).0 != (
    #[trigger] low[b]).0 by {
        assert(entries[a].0 != entries[b].0);
    }
    let upd0 = pairs_as_map(low);
    let dirty0 = low.map_values(|p: (u32, Hash256)| p.0);
    assert(dirty0.len() == low.len());
    assert forall|j: int| 0 <= j < dirty0.len() implies level_of((
    #[trigger] dirty0[j]) as nat) == depth by {
        assert(dirty0[j] == low[j].0);
    }
    assert forall|k: u32| #[trigger] upd0.dom().contains(k) implies level_of(k as nat)
        >= depth by {
        crate::maps::lemma_pairs_as_map_dom_index(low, k);
        let t = choose|t: int| 0 <= t < low.len() && (#[trigger] low[t]).0 == k;
        assert(level_of(low[t].0 as nat) == depth);
    }
    assert forall|k: u32|
        #[trigger] upd0.dom().contains(k) && level_of(k as nat) < depth implies upd0[k]
            == poseidon_of(
            child_resolve(upd0, prev, leaves, depth, 2 * (k as nat) + 1),
            child_resolve(upd0, prev, leaves, depth, 2 * (k as nat) + 2),
        ) by {
        assert(level_of(k as nat) >= depth);
    }
    lemma_build_patch(upd0, dirty0, prev, leaves, depth, depth);
    let b = build_patch(upd0, dirty0, prev, leaves, depth, depth);
    assert(patch == prev.union_prefer_right(b));
    crate::maps::lemma_pairs_as_map_index(low, i);
    assert(upd0.contains_pair(low[i].0, low[i].1));
    assert(low[i].1 == value);
    assert(low[i].0 as nat == s);
    assert(s as u32 == low[i].0) by {
        lemma_storage_fits(depth, entries[i].0 as nat);
    }
    assert(b.dom().contains(s as u32) && b[s as u32] == value);
    assert(patch.dom().contains(s as u32) && patch[s as u32] == value);
    assert(dirty0[i] == low[i].0);
    assert(path_built(b, prev, leaves, depth, dirty0[i] as nat));
    lemma_path_built_to_consistent(b, prev, leaves, depth, s);
    assert(s > 0) by {
        vstd::arithmetic::power2::lemma_pow2_pos(depth);
        vstd::arithmetic::power2::lemma_pow2_unfold(depth);
    }
    lemma_consistent_root_present(patch, leaves, depth, s);
    lemma_synth_proof_verifies(patch, leaves, depth, s);
    assert(resolve_node(patch, leaves, depth, s) == value);
    assert(resolve_node(patch, leaves, depth, 0) == patch[0u32]);
}


/// Swapping the fallback patch changes nothing when the two fallbacks
/// agree outside the keys this level run will ever hold.
proof fn lemma_process_level_parallel(
    upd: Map<u32, Hash256>,
    dirty: Seq<u32>,
    prev0: Map<u32, Hash256>,
    alt: Map<u32, Hash256>,
    leaves: Seq<Hash256>,
    depth: nat,
    lvl: nat,
)
    requires
        1 <= lvl <= depth <= 30,
        forall|j: int| 0 <= j < dirty.len() ==> level_of((#[trigger] dirty[j]) as nat) == lvl,
        forall|k: u32| #[trigger] upd.dom().contains(k) ==> level_of(k as nat) >= lvl - 1,
        forall|k: u32|
            #[trigger] upd.dom().contains(k) && level_of(k as nat) == lvl - 1 ==> upd[k]
                == poseidon_of(
                child_resolve(upd, prev0, leaves, depth, 2 * (k as nat) + 1),
                child_resolve(upd, prev0, leaves, depth, 2 * (k as nat) + 2),
            ),
        forall|k: u32|
            level_of(k as nat) == lvl && !process_level(
                upd,
                dirty,
                prev0,
                leaves,
                depth,
            ).0.dom().contains(k) ==> ((#[trigger] alt.dom().contains(k) <==> prev0.dom().contains(
                k,
            )) && (prev0.dom().contains(k) ==> alt[k] == prev0[k])),
    ensures
        process_level(upd, dirty, alt, leaves, depth) == process_level(
            upd,
            dirty,
            prev0,
            leaves,
            depth,
        ),
    decreases dirty.len(),
{
    if dirty.len() == 0 {
    } else {
        let n = dirty[0];
        let p = (((n - 1) / 2) as u32);
        assert(n as nat > 0) by {
            if n as nat == 0 {
                assert(level_of(0) == 0);
            }
        }
        assert(level_of(p as nat) == lvl - 1);
        let rest = dirty.drop_first();
        assert(forall|j: int|
            0 <= j < rest.len() ==> level_of((#[trigger] rest[j]) as nat) == lvl);
        let r1 = process_level(upd, dirty, prev0, leaves, depth);
        if upd.dom().contains(p) {
            assert(r1 == process_level(upd, rest, prev0, leaves, depth));
            lemma_process_level_parallel(upd, rest, prev0, alt, leaves, depth, lvl);
        } else {
            crate::indices::lemma_level_bounds(p as nat);
            crate::indices::lemma_pow2_mono(level_of(p as nat) + 1, depth);
            crate::indices::lemma_pow2_mono(depth + 1, 31);
            vstd::arithmetic::power2::lemma_pow2_unfold(depth + 1);
            vstd::arithmetic::power2::lemma2_to64();
            let lc = 2 * (p as nat) + 1;
            let rc = 2 * (p as nat) + 2;
            assert(rc < pow2(depth + 1));
            assert(level_of(lc) == lvl) by {
                assert(((lc - 1) / 2) as nat == p as nat);
            }
            assert(level_of(rc) == lvl) by {
                assert(((rc - 1) / 2) as nat == p as nat);
            }
            lemma_process_level(upd, dirty, prev0, leaves, depth, lvl);
            assert forall|c: nat| c == lc || c == rc implies child_resolve(
                upd,
                alt,
                leaves,
                depth,
                c,
            ) == child_resolve(upd, prev0, leaves, depth, c) by {
                if !upd.dom().contains(c as u32) {
                    assert((c as u32) as nat == c);
                    if r1.0.dom().contains(c as u32) {
                        assert(upd.dom().contains(c as u32) || (level_of(c) == lvl - 1
                            && r1.1.contains(c as u32)));
                        assert(false);
                    }
                    assert(level_of(c) == lvl);
                }
            }
            let h = poseidon_of(
                child_resolve(upd, prev0, leaves, depth, lc),
                child_resolve(upd, prev0, leaves, depth, rc),
            );
            let upd2 = upd.insert(p, h);
            assert(forall|k: u32|
                #[trigger] upd2.dom().contains(k) ==> level_of(k as nat) >= lvl - 1);
            assert forall|k: u32|
                #[trigger] upd2.dom().contains(k) && level_of(k as nat) == lvl - 1 implies upd2[k]
                    == poseidon_of(
                    child_resolve(upd2, prev0, leaves, depth, 2 * (k as nat) + 1),
                    child_resolve(upd2, prev0, leaves, depth, 2 * (k as nat) + 2),
                ) by {
                crate::indices::lemma_level_bounds(k as nat);
                crate::indices::lemma_pow2_mono(level_of(k as nat) + 1, depth);
                assert(2 * (k as nat) + 2 < pow2(depth + 1));
                assert(level_of(2 * (k as nat) + 1) == lvl) by {
                    assert(((2 * (k as nat) + 1 - 1) / 2) as nat == k as nat);
                }
                assert(level_of(2 * (k as nat) + 2) == lvl) by {
                    assert(((2 * (k as nat) + 2 - 1) / 2) as nat == k as nat);
                }
                lemma_cr_frame(upd, upd2, prev0, leaves, depth, 2 * (k as nat) + 1, (lvl - 1) as nat);
                lemma_cr_frame(upd, upd2, prev0, leaves, depth, 2 * (k as nat) + 2, (lvl - 1) as nat);
                if k != p {
                    assert(upd.dom().contains(k));
                    assert(upd2[k] == upd[k]);
                }
            }
            assert(process_level(upd2, rest, prev0, leaves, depth).0 == r1.0);
            lemma_process_level_parallel(upd2, rest, prev0, alt, leaves, depth, lvl);
        }
    }
}

/// Swapping the fallback patch changes nothing when the two fallbacks
/// agree outside the keys the whole run will ever hold.
proof fn lemma_build_patch_parallel(
    upd: Map<u32, Hash256>,
    dirty: Seq<u32>,
    prev0: Map<u32, Hash256>,
    alt: Map<u32, Hash256>,
    leaves: Seq<Hash256>,
    depth: nat,
    lvl: nat,
)
    requires
        lvl <= depth <= 30,
        forall|j: int| 0 <= j < dirty.len() ==> level_of((#[trigger] dirty[j]) as nat) == lvl,
        forall|k: u32| #[trigger] upd.dom().contains(k) ==> level_of(k as nat) >= lvl,
        forall|k: u32|
            #[trigger] upd.dom().contains(k) && level_of(k as nat) < depth ==> upd[k]
                == poseidon_of(
                child_resolve(upd, prev0, leaves, depth, 2 * (k as nat) + 1),
                child_resolve(upd, prev0, leaves, depth, 2 * (k as nat) + 2),
            ),
        forall|k: u32|
            !build_patch(upd, dirty, prev0, leaves, depth, lvl).dom().contains(k) ==> ((
            #[trigger] alt.dom().contains(k) <==> prev0.dom().contains(k)) && (prev0.dom()
                .contains(k) ==> alt[k] == prev0[k])),
    ensures
        build_patch(upd, dirty, alt, leaves, depth, lvl) == build_patch(
            upd,
            dirty,
            prev0,
            leaves,
            depth,
            lvl,
        ),
    decreases lvl,
{
    if lvl == 0 {
    } else {
        let b = build_patch(upd, dirty, prev0, leaves, depth, lvl);
        lemma_process_level(upd, dirty, prev0, leaves, depth, lvl);
        let st = process_level(upd, dirty, prev0, leaves, depth);
        assert forall|k: u32| #[trigger] st.0.dom().contains(k) implies level_of(k as nat) >= lvl
            - 1 by {
            if !upd.dom().contains(k) {
                assert(level_of(k as nat) == lvl - 1);
            }
        }
        assert forall|k: u32|
            #[trigger] st.0.dom().contains(k) && level_of(k as nat) < depth implies st.0[k]
                == poseidon_of(
                child_resolve(st.0, prev0, leaves, depth, 2 * (k as nat) + 1),
                child_resolve(st.0, prev0, leaves, depth, 2 * (k as nat) + 2),
            ) by {
            crate::indices::lemma_level_bounds(k as nat);
            crate::indices::lemma_pow2_mono(level_of(k as nat) + 1, depth);
            crate::indices::lemma_pow2_mono(depth + 1, 31);
            vstd::arithmetic::power2::lemma_pow2_unfold(depth + 1);
            vstd::arithmetic::power2::lemma2_to64();
            assert(2 * (k as nat) + 2 < pow2(depth + 1));
            assert(level_of(2 * (k as nat) + 1) == level_of(k as nat) + 1) by {
                assert(((2 * (k as nat) + 1 - 1) / 2) as nat == k as nat);
            }
            assert(level_of(2 * (k as nat) + 2) == level_of(k as nat) + 1) by {
                assert(((2 * (k as nat) + 2 - 1) / 2) as nat == k as nat);
            }
            if level_of(k as nat) == lvl - 1 {
            } else {
                assert(upd.dom().contains(k));
                lemma_cr_frame(upd, st.0, prev0, leaves, depth, 2 * (k as nat) + 1, (lvl
                    - 1) as nat);
                lemma_cr_frame(upd, st.0, prev0, leaves, depth, 2 * (k as nat) + 2, (lvl
                    - 1) as nat);
            }
        }
        lemma_build_patch(st.0, st.1, prev0, leaves, depth, (lvl - 1) as nat);
        assert(b == build_patch(st.0, st.1, prev0, leaves, depth, (lvl - 1) as nat));
        assert forall|k: u32|
            level_of(k as nat) == lvl && !st.0.dom().contains(k) implies ((
        #[trigger] alt.dom().contains(k) <==> prev0.dom().contains(k)) && (prev0.dom().contains(
            k,
        ) ==> alt[k] == prev0[k])) by {
            if b.dom().contains(k) {
                assert(st.0.dom().contains(k) || level_of(k as nat) < lvl - 1);
                assert(false);
            }
        }
        assert forall|k: u32|
            #[trigger] upd.dom().contains(k) && level_of(k as nat) == lvl - 1 implies false by {
            assert(level_of(k as nat) >= lvl);
        }
        lemma_process_level_parallel(upd, dirty, prev0, alt, leaves, depth, lvl);
        assert(process_level(upd, dirty, alt, leaves, depth) == st);
        assert forall|k: u32|
            !build_patch(st.0, st.1, prev0, leaves, depth, (lvl - 1) as nat).dom().contains(
                k,
            ) implies ((#[trigger] alt.dom().contains(k) <==> prev0.dom().contains(k)) && (
        prev0.dom().contains(k) ==> alt[k] == prev0[k])) by {
            assert(!b.dom().contains(k));
        }
        lemma_build_patch_parallel(st.0, st.1, prev0, alt, leaves, depth, (lvl - 1) as nat);
    }
}

/// Law: staging the same batch a second time, on top of the patch it
/// produced, yields that same patch again: the recomputation resolves
/// every sibling to the value the first run stored or read, so the
/// second patch equals the first. Re-delivery of a batch is therefore
/// harmless to the stored overlay value.
pub proof fn lemma_append_idempotent(
    entries: Seq<(u32, Hash256)>,
    is_insert: bool,
    prev: Map<u32, Hash256>,
    leaves: Seq<Hash256>,
    depth: nat,
)
    requires
        1 <= depth <= 30,
        keys_distinct(entries),
        forall|k: int| 0 <= k < entries.len() ==> (#[trigger] entries[k]).0 < pow2(depth),
    ensures
        appended_patch(
            entries,
            is_insert,
            appended_patch(entries, is_insert, prev, leaves, depth),
            leaves,
            depth,
        ) == appended_patch(entries, is_insert, prev, leaves, depth),
{
    let low = lowered_pairs(entries, is_insert, depth);
    let upd0 = pairs_as_map(low);
    let dirty0 = low.map_values(|p: (u32, Hash256)| p.0);
    let b1 = build_patch(upd0, dirty0, prev, leaves, depth, depth);
    let p1 = prev.union_prefer_right(b1);
    vstd::arithmetic::power2::lemma_pow2_unfold(depth + 1);
    assert forall|t: int| 0 <= t < low.len() implies (#[trigger] low[t]).0 as nat == pow2(depth)
        - 1 + entries[t].0 && level_of(low[t].0 as nat) == depth by {
        lemma_storage_fits(depth, entries[t].0 as nat);
        crate::indices::lemma_level_of_characterization(
            (pow2(depth) - 1 + entries[t].0) as nat,
            depth,
        );
    }
    assert forall|j: int| 0 <= j < dirty0.len() implies level_of((
    #[trigger] dirty0[j]) as nat) == depth by {
        assert(dirty0[j] == low[j].0);
    }
    assert forall|k: u32| #[trigger] upd0.dom().contains(k) implies level_of(k as nat)
        >= depth by {
        crate::maps::lemma_pairs_as_map_dom_index(low, k);
        let t = choose|t: int| 0 <= t < low.len() && (#[trigger] low[t]).0 == k;
        assert(level_of(low[t].0 as nat) == depth);
    }
    assert forall|k: u32|
        #[trigger] upd0.dom().contains(k) && level_of(k as nat) < depth implies upd0[k]
            == poseidon_of(
            child_resolve(upd0, prev, leaves, depth, 2 * (k as nat) + 1),
            child_resolve(upd0, prev, leaves, depth, 2 * (k as nat) + 2),
        ) by {
        assert(level_of(k as nat) >= depth);
    }
    assert forall|k: u32|
        !b1.dom().contains(k) implies ((#[trigger] p1.dom().contains(k) <==> prev.dom().contains(
            k,
        )) && (prev.dom().contains(k) ==> p1[k] == prev[k])) by {}
    lemma_build_patch_parallel(upd0, dirty0, prev, p1, leaves, depth, depth);
    let b2 = build_patch(upd0, dirty0, p1, leaves, depth, depth);
    assert(b2 == b1);
    lemma_build_patch(upd0, dirty0, prev, leaves, depth, depth);
    assert(p1.union_prefer_right(b1) =~= p1);
    assert(appended_patch(entries, is_insert, p1, leaves, depth) == p1.union_prefer_right(b2));
}

/// The identity tree: canonical tree, overlay of pending node patches in
/// block order, and the leaf index of active non-zero leaves.
pub struct IdentityTree {
    pub tree: MerkleTree,
    pub tree_updates: Vec<(Root, NodeMap)>,
    pub leaves: LeafMap,
}

impl IdentityTree {
    /// The fixed depth of the canonical tree.
    pub open spec fn depth(&self) -> nat {
        tree_depth_of(self.tree)
    }

    /// The pushed canonical leaves.
    pub open spec fn canon(&self) -> Seq<Hash256> {
        tree_leaves(self.tree)
    }

    /// All overlay entries lie at blocks strictly below `b`.
    pub open spec fn blocks_below(&self, b: u64) -> bool {
        forall|i: int|
            0 <= i < self.tree_updates@.len() ==> (#[trigger] self.tree_updates@[i]).0.block_number
                < b
    }

    /// No overlay entry carries the hash.
    pub open spec fn hash_fresh(&self, h: Hash256) -> bool {
        forall|i: int|
            0 <= i < self.tree_updates@.len() ==> (#[trigger] self.tree_updates@[i]).0.hash != h
    }

    /// Well-formedness: a bounded depth, a canonical leaf layer of
    /// reduced values within capacity, a leaf index of non-zero reduced
    /// hashes at positions within capacity, and an overlay strictly
    /// ordered by block, with pairwise-distinct root hashes and
    /// well-formed patches over valid storage indices.
    pub open spec fn wf(&self) -> bool {
        &&& 1 <= self.depth() <= 30
        &&& self.canon().len() <= pow2(self.depth())
        &&& all_field(self.canon())
        &&& self.leaves.wf()
        &&& leaf_map_ok(self.leaves@, self.depth())
        &&& forall|i: int, j: int|
            0 <= i < j < self.tree_updates@.len() ==> (#[trigger] self.tree_updates@[i]).0
                .block_number < (#[trigger] self.tree_updates@[j]).0.block_number
        &&& forall|i: int, j: int|
            0 <= i < self.tree_updates@.len() && 0 <= j < self.tree_updates@.len() && i != j ==> (
            #[trigger] self.tree_updates@[i]).0.hash != (#[trigger] self.tree_updates@[j]).0.hash
        &&& forall|i: int|
            0 <= i < self.tree_updates@.len() ==> (#[trigger] self.tree_updates@[i]).1.wf()
        &&& forall|i: int|
            0 <= i < self.tree_updates@.len() ==> (#[trigger] self.tree_updates@[i]).1.keys_below(
                (pow2(self.depth() + 1) - 1) as nat,
            )
        &&& forall|i: int|
            0 <= i < self.tree_updates@.len() ==> (
            #[trigger] self.tree_updates@[i]).1.values_are_field()
    }

    /// A fresh identity tree of the given depth: an all-zero canonical
    /// tree, no overlay entries, and an empty leaf index.
    pub fn new(tree_depth: usize) -> (t: IdentityTree)
        requires
            1 <= tree_depth <= 30,
        ensures
            t.wf(),
            t.depth() == tree_depth,
            t.canon() == Seq::<Hash256>::empty(),
            t.tree_updates@.len() == 0,
            t.leaves@ == Map::<Hash256, u32>::empty(),
    {
        IdentityTree {
            tree: MerkleTree::new(tree_depth),
            tree_updates: Vec::new(),
            leaves: LeafMap::new(),
        }
    }

    /// Appends a non-zero leaf at the next empty position and records it
    /// in the leaf index. The caller supplies the position, which must be
    /// the next empty one.
    pub fn insert(&mut self, index: u32, value: Hash256)
        requires
            old(self).wf(),
            value.is_field(),
            value != Hash256::zero_spec(),
            index as nat == tree_leaves(old(self).tree).len(),
            tree_leaves(old(self).tree).len() < pow2(tree_depth_of(old(self).tree)),
        ensures
            final(self).wf(),
            final(self).canon() == old(self).canon().push(value),
            final(self).leaves@ == old(self).leaves@.insert(value, index),
            final(self).tree_updates == old(self).tree_updates,
            final(self).depth() == old(self).depth(),
    {
        self.leaves.insert(value, index);
        self.tree.push(value);
        proof {
            lemma_leaf_map_wf_insert(old(self).leaves@, value, index, self.depth());
            assert forall|i: int| 0 <= i < self.canon().len() implies (#[trigger] self.canon()[i]).is_field() by {
                if i < old(self).canon().len() {
                    assert(self.canon()[i] == old(self).canon()[i]);
                }
            }
        }
    }

    /// Inserts several leaves at consecutive next positions, in order.
    pub fn insert_many(&mut self, values: &[(u32, Hash256)])
        requires
            old(self).wf(),
            forall|k: int|
                0 <= k < values@.len() ==> (#[trigger] values@[k]).1.is_field() && values@[k].1
                    != Hash256::zero_spec(),
            forall|k: int|
                0 <= k < values@.len() ==> (#[trigger] values@[k]).0 as nat == tree_leaves(
                    old(self).tree,
                ).len() + k,
            tree_leaves(old(self).tree).len() + values@.len() <= pow2(
                tree_depth_of(old(self).tree),
            ),
        ensures
            final(self).wf(),
            final(self).canon() == old(self).canon() + values@.map_values(
                |p: (u32, Hash256)| p.1,
            ),
            final(self).leaves@ == insert_pairs_model(old(self).leaves@, values@),
            final(self).tree_updates == old(self).tree_updates,
            final(self).depth() == old(self).depth(),
    {
        let n = values.len();
        let mut i: usize = 0;
        proof {
            assert(values@.subrange(0, n as int) =~= values@);
            assert(old(self).canon() + values@.subrange(0, 0).map_values(|p: (u32, Hash256)| p.1)
                =~= old(self).canon());
        }
        while i < n
            invariant
                self.wf(),
                n == values@.len(),
                i <= n,
                forall|k: int|
                    0 <= k < values@.len() ==> (#[trigger] values@[k]).1.is_field() && values@[k].1
                        != Hash256::zero_spec(),
                forall|k: int|
                    0 <= k < values@.len() ==> (#[trigger] values@[k]).0 as nat == old(
                        self,
                    ).canon().len() + k,
                old(self).canon().len() + n <= pow2(old(self).depth()),
                self.depth() == old(self).depth(),
                self.tree_updates == old(self).tree_updates,
                self.canon() == old(self).canon() + values@.subrange(0, i as int).map_values(
                    |p: (u32, Hash256)| p.1,
                ),
                insert_pairs_model(self.leaves@, values@.subrange(i as int, n as int))
                    == insert_pairs_model(old(self).leaves@, values@),
            decreases n - i,
        {
            let (idx, v) = values[i];
            proof {
                let pre = values@.subrange(i as int, n as int);
                assert(pre[0] == values@[i as int]);
                assert(pre.drop_first() =~= values@.subrange(i as int + 1, n as int));
            }
            self.insert(idx, v);
            proof {
                assert(self.canon() =~= old(self).canon() + values@.subrange(
                    0,
                    i as int + 1,
                ).map_values(|p: (u32, Hash256)| p.1));
            }
            i = i + 1;
        }
        proof {
            assert(values@.subrange(0, n as int) =~= values@);
        }
    }

    /// Zeroes the leaf at a pushed position and erases its previous value
    /// from the leaf index.
    pub fn remove(&mut self, index: usize)
        requires
            old(self).wf(),
            index < tree_leaves(old(self).tree).len(),
        ensures
            final(self).wf(),
            final(self).canon() == old(self).canon().update(index as int, Hash256::zero_spec()),
            final(self).leaves@ == old(self).leaves@.remove(old(self).canon()[index as int]),
            final(self).tree_updates == old(self).tree_updates,
            final(self).depth() == old(self).depth(),
    {
        let leaf = self.tree.get_leaf(index);
        self.leaves.remove(&leaf);
        self.tree.set_leaf(index, Hash256::zero());
        proof {
            lemma_leaf_map_wf_remove(old(self).leaves@, old(self).canon()[index as int], self.depth());
            assert forall|i: int| 0 <= i < self.canon().len() implies (#[trigger] self.canon()[i]).is_field() by {
                if i != index as int {
                    assert(self.canon()[i] == old(self).canon()[i]);
                }
            }
        }
    }

    /// Removes several pushed leaf positions, in order.
    pub fn remove_many(&mut self, indices: &[usize])
        requires
            old(self).wf(),
            forall|k: int|
                0 <= k < indices@.len() ==> (#[trigger] indices@[k]) < tree_leaves(
                    old(self).tree,
                ).len(),
        ensures
            final(self).wf(),
            (final(self).canon(), final(self).leaves@) == remove_positions_model(
                old(self).canon(),
                old(self).leaves@,
                indices@,
            ),
            final(self).tree_updates == old(self).tree_updates,
            final(self).depth() == old(self).depth(),
    {
        let n = indices.len();
        let mut i: usize = 0;
        proof {
            assert(indices@.subrange(0, n as int) =~= indices@);
        }
        while i < n
            invariant
                self.wf(),
                n == indices@.len(),
                i <= n,
                forall|k: int|
                    0 <= k < indices@.len() ==> (#[trigger] indices@[k]) < old(self).canon().len(),
                self.canon().len() == old(self).canon().len(),
                self.depth() == old(self).depth(),
                self.tree_updates == old(self).tree_updates,
                remove_positions_model(
                    self.canon(),
                    self.leaves@,
                    indices@.subrange(i as int, n as int),
                ) == remove_positions_model(old(self).canon(), old(self).leaves@, indices@),
            decreases n - i,
        {
            proof {
                let pre = indices@.subrange(i as int, n as int);
                assert(pre[0] == indices@[i as int]);
                assert(pre.drop_first() =~= indices@.subrange(i as int + 1, n as int));
            }
            self.remove(indices[i]);
            i = i + 1;
        }
    }

    /// Records hash-to-index pairs in the leaf index without touching the
    /// canonical tree.
    pub fn insert_many_leaves(&mut self, leaves: &[(u32, Hash256)])
        requires
            old(self).wf(),
            forall|k: int|
                0 <= k < leaves@.len() ==> (#[trigger] leaves@[k]).1.is_field() && leaves@[k].1
                    != Hash256::zero_spec() && leaves@[k].0 < pow2(tree_depth_of(old(self).tree)),
        ensures
            final(self).wf(),
            final(self).leaves@ == insert_pairs_model(old(self).leaves@, leaves@),
            final(self).canon() == old(self).canon(),
            final(self).tree_updates == old(self).tree_updates,
            final(self).depth() == old(self).depth(),
    {
        let n = leaves.len();
        let mut i: usize = 0;
        proof {
            assert(leaves@.subrange(0, n as int) =~= leaves@);
        }
        while i < n
            invariant
                self.wf(),
                n == leaves@.len(),
                i <= n,
                forall|k: int|
                    0 <= k < leaves@.len() ==> (#[trigger] leaves@[k]).1.is_field() && leaves@[k].1
                        != Hash256::zero_spec() && leaves@[k].0 < pow2(old(self).depth()),
                self.canon() == old(self).canon(),
                self.depth() == old(self).depth(),
                self.tree_updates == old(self).tree_updates,
                insert_pairs_model(self.leaves@, leaves@.subrange(i as int, n as int))
                    == insert_pairs_model(old(self).leaves@, leaves@),
            decreases n - i,
        {
            proof {
                let pre = leaves@.subrange(i as int, n as int);
                assert(pre[0] == leaves@[i as int]);
                assert(pre.drop_first() =~= leaves@.subrange(i as int + 1, n as int));
            }
            let ghost pre_leaves = self.leaves@;
            let (idx, v) = leaves[i];
            self.leaves.insert(v, idx);
            proof {
                lemma_leaf_map_wf_insert(pre_leaves, v, idx, self.depth());
            }
            i = i + 1;
        }
    }

    /// Erases the listed hashes from the leaf index without touching the
    /// canonical tree.
    pub fn remove_many_leaves(&mut self, leaves: &[Hash256])
        requires
            old(self).wf(),
        ensures
            final(self).wf(),
            final(self).leaves@ == remove_hashes_model(old(self).leaves@, leaves@),
            final(self).canon() == old(self).canon(),
            final(self).tree_updates == old(self).tree_updates,
            final(self).depth() == old(self).depth(),
    {
        let n = leaves.len();
        let mut i: usize = 0;
        proof {
            assert(leaves@.subrange(0, n as int) =~= leaves@);
        }
        while i < n
            invariant
                self.wf(),
                n == leaves@.len(),
                i <= n,
                self.canon() == old(self).canon(),
                self.depth() == old(self).depth(),
                self.tree_updates == old(self).tree_updates,
                remove_hashes_model(self.leaves@, leaves@.subrange(i as int, n as int))
                    == remove_hashes_model(old(self).leaves@, leaves@),
            decreases n - i,
        {
            proof {
                let pre = leaves@.subrange(i as int, n as int);
                assert(pre[0] == leaves@[i as int]);
                assert(pre.drop_first() =~= leaves@.subrange(i as int + 1, n as int));
            }
            let ghost pre_leaves = self.leaves@;
            self.leaves.remove(&leaves[i]);
            proof {
                lemma_leaf_map_wf_remove(pre_leaves, leaves@[i as int], self.depth());
            }
            i = i + 1;
        }
    }


    /// Whether a query against `root` is answered by the canonical tree:
    /// no root was given, or its hash is the canonical root.
    pub open spec fn wants_canonical(&self, root: Option<&Root>) -> bool {
        match root {
            None => true,
            Some(rt) => rt.hash == root_of(self.canon(), self.depth()),
        }
    }

    /// Synthesizes an inclusion proof for a leaf index against the
    /// overlay patch stored under the root's hash: each sibling on the
    /// path is read from the patch, falling back to the canonical tree.
    pub fn construct_proof_from_root(&self, leaf_idx: u32, root: &Root) -> (r: Result<
        Vec<Branch>,
        TreeError,
    >)
        requires
            self.wf(),
            leaf_idx < pow2(tree_depth_of(self.tree)),
        ensures
            forall|i: int|
                0 <= i < self.tree_updates@.len() && (#[trigger] self.tree_updates@[i]).0.hash
                    == root.hash ==> (r matches Ok(p) && p@ == synth_branches(
                    self.tree_updates@[i].1@,
                    self.canon(),
                    self.depth(),
                    leaf_to_storage_spec(leaf_idx as nat, self.depth()),
                )),
            (forall|i: int|
                0 <= i < self.tree_updates@.len() ==> (#[trigger] self.tree_updates@[i]).0.hash
                    != root.hash) ==> r == Err::<Vec<Branch>, TreeError>(TreeError::RootNotFound),
    {
        let n = self.tree_updates.len();
        let mut k: usize = 0;
        let mut found = false;
        while k < n && !found
            invariant
                n == self.tree_updates@.len(),
                k <= n,
                !found ==> forall|j: int|
                    0 <= j < k ==> (#[trigger] self.tree_updates@[j]).0.hash != root.hash,
                found ==> k < n && self.tree_updates@[k as int].0.hash == root.hash,
            decreases n - k + if found { 0int } else { 1int },
        {
            if self.tree_updates[k].0.hash == root.hash {
                found = true;
            } else {
                k = k + 1;
            }
        }
        if !found {
            return Err(TreeError::RootNotFound);
        }
        let ghost patch_map = self.tree_updates@[k as int].1@;
        let depth = self.tree.depth();
        proof {
            lemma_storage_fits(depth as nat, leaf_idx as nat);
        }
        let mut node_idx = crate::indices::leaf_to_storage_idx(leaf_idx, depth);
        let ghost s0 = node_idx as nat;
        let mut out: Vec<Branch> = Vec::new();
        proof {
            assert(out@ + synth_branches(patch_map, self.canon(), self.depth(), s0)
                =~= synth_branches(patch_map, self.canon(), self.depth(), s0));
        }
        while node_idx > 0
            invariant
                self.wf(),
                0 <= k < self.tree_updates@.len(),
                patch_map == self.tree_updates@[k as int].1@,
                depth == tree_depth_of(self.tree),
                node_idx as nat <= pow2(self.depth() + 1) - 2,
                pow2(self.depth() + 1) - 2 < u32::MAX,
                out@ + synth_branches(patch_map, self.canon(), self.depth(), node_idx as nat)
                    == synth_branches(patch_map, self.canon(), self.depth(), s0),
            decreases node_idx,
        {
            proof {
                vstd::arithmetic::power2::lemma_pow2_unfold(self.depth() + 1);
            }
            let sibling_idx = if node_idx % 2 == 0 {
                node_idx - 1
            } else {
                node_idx + 1
            };
            let sibling = match self.tree_updates[k].1.get(sibling_idx) {
                Some(v) => v,
                None => {
                    let (d, o) = crate::indices::storage_idx_to_coords(sibling_idx as usize);
                    proof {
                        if d as nat > self.depth() {
                            if d as nat > self.depth() + 1 {
                                lemma_pow2_strictly_increases(self.depth() + 1, d as nat);
                            }
                            assert(false);
                        }
                    }
                    self.tree.get_node(d, o)
                },
            };
            let b = if node_idx % 2 == 0 {
                Branch::Right(sibling)
            } else {
                Branch::Left(sibling)
            };
            out.push(b);
            proof {
                let cur = node_idx as nat;
                let parent = ((cur - 1) / 2) as nat;
                assert(synth_branches(patch_map, self.canon(), self.depth(), cur)
                    == seq![b] + synth_branches(patch_map, self.canon(), self.depth(), parent));
                assert(out@ + synth_branches(patch_map, self.canon(), self.depth(), parent)
                    =~= (out@.drop_last() + (seq![b] + synth_branches(
                    patch_map,
                    self.canon(),
                    self.depth(),
                    parent,
                ))));
            }
            node_idx = (node_idx - 1) / 2;
        }
        proof {
            assert(out@ + synth_branches(patch_map, self.canon(), self.depth(), 0) =~= out@);
            assert forall|i: int|
                0 <= i < self.tree_updates@.len() && (#[trigger] self.tree_updates@[i]).0.hash
                    == root.hash implies self.tree_updates@[i].1@ == patch_map by {
                if i != k as int {
                    assert(self.tree_updates@[i].0.hash != self.tree_updates@[k as int].0.hash);
                }
            }
        }
        Ok(out)
    }

    /// An inclusion proof for a leaf hash, against the canonical root
    /// when no root is given or the given root is canonical, else
    /// against the overlay patch stored under the root's hash. Fails
    /// with `LeafNotFound` on a hash outside the leaf index, and with
    /// `RootNotFound` on a root that is neither canonical nor staged.
    pub fn inclusion_proof(&self, leaf: Hash256, root: Option<&Root>) -> (r: Result<
        Option<InclusionProof>,
        TreeError,
    >)
        requires
            self.wf(),
            self.leaves@.dom().contains(leaf) && self.wants_canonical(root)
                ==> self.leaves@[leaf] < tree_leaves(self.tree).len(),
        ensures
            !self.leaves@.dom().contains(leaf) ==> r == Err::<
                Option<InclusionProof>,
                TreeError,
            >(TreeError::LeafNotFound),
            self.leaves@.dom().contains(leaf) && self.wants_canonical(root) ==> (r matches Ok(op)
                && op matches Some(p) && p.root == root_of(self.canon(), self.depth())
                && p.branches@ == proof_spec(
                self.canon(),
                self.depth(),
                self.leaves@[leaf] as nat,
            )),
            self.leaves@.dom().contains(leaf) && !self.wants_canonical(root) ==> {
                let rt = root->Some_0;
                &&& forall|i: int|
                    0 <= i < self.tree_updates@.len() && (#[trigger] self.tree_updates@[i]).0.hash
                        == rt.hash ==> (r matches Ok(op) && op matches Some(p) && p.root == rt.hash
                        && p.branches@ == synth_branches(
                        self.tree_updates@[i].1@,
                        self.canon(),
                        self.depth(),
                        leaf_to_storage_spec(self.leaves@[leaf] as nat, self.depth()),
                    ))
                &&& (forall|i: int|
                    0 <= i < self.tree_updates@.len() ==> (#[trigger] self.tree_updates@[i]).0.hash
                        != rt.hash) ==> r == Err::<Option<InclusionProof>, TreeError>(
                    TreeError::RootNotFound,
                )
            },
    {
        let leaf_idx = match self.leaves.get(&leaf) {
            Some(i) => i,
            None => {
                return Err(TreeError::LeafNotFound);
            },
        };
        match root {
            Some(rt) => {
                if rt.hash == self.tree.root() {
                    let branches = self.tree.branches_for(leaf_idx as usize);
                    Ok(Some(InclusionProof::new(self.tree.root(), branches)))
                } else {
                    match self.construct_proof_from_root(leaf_idx, rt) {
                        Ok(branches) => Ok(Some(InclusionProof::new(rt.hash, branches))),
                        Err(e) => Err(e),
                    }
                }
            },
            None => {
                let branches = self.tree.branches_for(leaf_idx as usize);
                Ok(Some(InclusionProof::new(self.tree.root(), branches)))
            },
        }
    }


    /// Appends a patch of leaf updates keyed by the future root `root`:
    /// records the updates in the leaf index, lowers them to the storage
    /// layer, recomputes every interior node on a dirtied path level by
    /// level — resolving siblings from the new entries, then the latest
    /// previous patch, then the canonical tree — copies the rest of the
    /// previous patch forward, and stores the patch under `root`. The
    /// canonical tree is untouched.
    pub fn append_updates(&mut self, root: Root, leaf_updates: LeafUpdates)
        requires
            old(self).wf(),
            leaf_updates.wf(tree_depth_of(old(self).tree)),
            old(self).blocks_below(root.block_number),
            old(self).hash_fresh(root.hash),
        ensures
            final(self).wf(),
            final(self).canon() == old(self).canon(),
            final(self).depth() == old(self).depth(),
            final(self).leaves@ == (if leaf_updates.is_insert_spec() {
                insert_pairs_model(old(self).leaves@, leaf_updates.entries_spec())
            } else {
                remove_values_model(old(self).leaves@, leaf_updates.entries_spec())
            }),
            final(self).tree_updates@.len() == old(self).tree_updates@.len() + 1,
            forall|i: int|
                0 <= i < old(self).tree_updates@.len() ==> final(self).tree_updates@[i] == old(
                    self,
                ).tree_updates@[i],
            final(self).tree_updates@.last().0 == root,
            final(self).tree_updates@.last().1.wf(),
            final(self).tree_updates@.last().1@ == appended_patch(
                leaf_updates.entries_spec(),
                leaf_updates.is_insert_spec(),
                prev_patch_spec(old(self).tree_updates@),
                old(self).canon(),
                old(self).depth(),
            ),
    {
        let ghost d = self.depth();
        let ghost ent = leaf_updates.entries_spec();
        let ghost is_ins = leaf_updates.is_insert_spec();
        let ghost prev_map = prev_patch_spec(self.tree_updates@);
        let ghost canon0 = self.canon();
        let is_insert_case = (match &leaf_updates {
            LeafUpdates::Insert(m) => true,
            LeafUpdates::Delete(m) => false,
        });

        // Record the updates in the leaf index.
        match &leaf_updates {
            LeafUpdates::Insert(m) => {
                let n = m.entries.len();
                let mut i: usize = 0;
                proof {
                    assert(m.entries@.subrange(0, n as int) =~= m.entries@);
                }
                while i < n
                    invariant
                        self.wf(),
                        self.canon() == canon0,
                        self.depth() == d,
                        self.tree_updates == old(self).tree_updates,
                        n == m.entries@.len(),
                        i <= n,
                        m.entries@ == ent,
                        forall|k: int|
                            0 <= k < ent.len() ==> (#[trigger] ent[k]).0 < pow2(d) && ent[k].1.is_field()
                                && ent[k].1 != Hash256::zero_spec(),
                        insert_pairs_model(self.leaves@, ent.subrange(i as int, n as int))
                            == insert_pairs_model(old(self).leaves@, ent),
                    decreases n - i,
                {
                    proof {
                        let pre = ent.subrange(i as int, n as int);
                        assert(pre[0] == ent[i as int]);
                        assert(pre.drop_first() =~= ent.subrange(i as int + 1, n as int));
                    }
                    let ghost pre_leaves = self.leaves@;
                    let (idx, v) = m.entries[i];
                    self.leaves.insert(v, idx);
                    proof {
                        lemma_leaf_map_wf_insert(pre_leaves, v, idx, d);
                    }
                    i = i + 1;
                }
                proof {
                    assert(ent.subrange(n as int, n as int).len() == 0);
                }
            },
            LeafUpdates::Delete(m) => {
                let n = m.entries.len();
                let mut i: usize = 0;
                proof {
                    assert(m.entries@.subrange(0, n as int) =~= m.entries@);
                }
                while i < n
                    invariant
                        self.wf(),
                        self.canon() == canon0,
                        self.depth() == d,
                        self.tree_updates == old(self).tree_updates,
                        n == m.entries@.len(),
                        i <= n,
                        m.entries@ == ent,
                        remove_values_model(self.leaves@, ent.subrange(i as int, n as int))
                            == remove_values_model(old(self).leaves@, ent),
                    decreases n - i,
                {
                    proof {
                        let pre = ent.subrange(i as int, n as int);
                        assert(pre[0] == ent[i as int]);
                        assert(pre.drop_first() =~= ent.subrange(i as int + 1, n as int));
                    }
                    let ghost pre_leaves = self.leaves@;
                    self.leaves.remove(&m.entries[i].1);
                    proof {
                        lemma_leaf_map_wf_remove(pre_leaves, ent[i as int].1, d);
                    }
                    i = i + 1;
                }
                proof {
                    assert(ent.subrange(n as int, n as int).len() == 0);
                }
            },
        }
        let ghost leaves1 = self.leaves@;

        // Copy the latest previous patch, or start empty.
        let mut prev = NodeMap::new();
        if self.tree_updates.len() > 0 {
            let li = self.tree_updates.len() - 1;
            let pn = self.tree_updates[li].1.entries.len();
            let mut i: usize = 0;
            while i < pn
                invariant
                    li == self.tree_updates@.len() - 1,
                    pn == self.tree_updates@[li as int].1.entries@.len(),
                    i <= pn,
                    prev.entries@ == self.tree_updates@[li as int].1.entries@.subrange(
                        0,
                        i as int,
                    ),
                decreases pn - i,
            {
                let e = self.tree_updates[li].1.entries[i];
                prev.entries.push(e);
                proof {
                    assert(prev.entries@ =~= self.tree_updates@[li as int].1.entries@.subrange(
                        0,
                        i as int + 1,
                    ));
                }
                i = i + 1;
            }
            proof {
                assert(prev.entries@ =~= self.tree_updates@[li as int].1.entries@);
            }
        }
        proof {
            assert(prev@ == prev_map);
            assert(prev.wf());
            if self.tree_updates@.len() > 0 {
                assert(self.tree_updates@[self.tree_updates@.len() - 1].1.keys_below(
                    (pow2(d + 1) - 1) as nat,
                ));
                assert(self.tree_updates@[self.tree_updates@.len() - 1].1.values_are_field());
            }
            assert(prev.keys_below((pow2(d + 1) - 1) as nat));
            assert(prev.values_are_field());
        }

        // Lower the leaf updates to the storage layer.
        let depth_e = self.tree.depth();
        let lm = leaf_updates.into_leaves();
        let ghost low = lowered_pairs(ent, is_ins, d);
        let mut updates = NodeMap::new();
        let mut dirty: Vec<u32> = Vec::new();
        let n3 = lm.entries.len();
        let mut i: usize = 0;
        proof {
            assert(low.len() == n3);
            assert(low.subrange(0, 0) =~= Seq::<(u32, Hash256)>::empty());
            assert(low.subrange(0, 0).map_values(|p: (u32, Hash256)| p.0) =~= Seq::<u32>::empty());
        }
        while i < n3
            invariant
                self.wf(),
                self.canon() == canon0,
                self.depth() == d,
                d == depth_e,
                1 <= d <= 30,
                self.tree_updates == old(self).tree_updates,
                self.leaves@ == leaves1,
                n3 == lm.entries@.len(),
                i <= n3,
                lm.entries@ == ent,
                low == lowered_pairs(ent, is_ins, d),
                forall|k: int|
                    0 <= k < ent.len() ==> (#[trigger] ent[k]).0 < pow2(d) && ent[k].1.is_field(),
                is_insert_case == is_ins,
                updates.wf(),
                updates@ == pairs_as_map(low.subrange(0, i as int)),
                dirty@ == low.subrange(0, i as int).map_values(|p: (u32, Hash256)| p.0),
                updates.keys_below((pow2(d + 1) - 1) as nat),
                updates.values_are_field(),
                forall|j: int|
                    0 <= j < dirty@.len() ==> level_of((#[trigger] dirty@[j]) as nat) == d
                        && dirty@[j] as nat <= pow2(d + 1) - 2,
            decreases n3 - i,
        {
            let (leaf_i, h) = lm.entries[i];
            proof {
                lemma_storage_fits(d, leaf_i as nat);
                vstd::arithmetic::power2::lemma_pow2_unfold(d + 1);
            }
            let s_idx = crate::indices::leaf_to_storage_idx(leaf_i, depth_e);
            let v = if is_insert_case {
                h
            } else {
                Hash256::zero()
            };
            let ghost pre_u = updates@;
            updates.insert(s_idx, v);
            dirty.push(s_idx);
            proof {
                assert(low[i as int] == (s_idx, v));
                assert(low.subrange(0, i as int + 1) =~= low.subrange(0, i as int).push(
                    (s_idx, v),
                ));
                assert(low.subrange(0, i as int + 1).drop_last() =~= low.subrange(0, i as int));
                assert(dirty@ =~= low.subrange(0, i as int + 1).map_values(
                    |p: (u32, Hash256)| p.0,
                ));
                crate::indices::lemma_level_of_characterization(s_idx as nat, d);
                assert forall|k: u32| updates@.dom().contains(k) implies k < (pow2(d + 1)
                    - 1) as nat by {
                    if k != s_idx {
                        assert(pre_u.dom().contains(k));
                    }
                }
                assert forall|k: u32| updates@.dom().contains(k) implies (
                #[trigger] updates@[k]).is_field() by {
                    if k != s_idx {
                        assert(pre_u.dom().contains(k));
                        assert(updates@[k] == pre_u[k]);
                    }
                }
            }
            i = i + 1;
        }
        proof {
            assert(low.subrange(0, n3 as int) =~= low);
        }

        // Recompute the dirtied interior nodes, level by level.
        let ghost target_patch = build_patch(
            pairs_as_map(low),
            low.map_values(|p: (u32, Hash256)| p.0),
            prev_map,
            canon0,
            d,
            d,
        );
        let mut lvl: usize = 0;
        while lvl < depth_e
            invariant
                self.wf(),
                self.canon() == canon0,
                self.depth() == d,
                d == depth_e,
                1 <= d <= 30,
                self.tree_updates == old(self).tree_updates,
                self.leaves@ == leaves1,
                lvl <= depth_e,
                prev@ == prev_map,
                prev.wf(),
                prev.keys_below((pow2(d + 1) - 1) as nat),
                prev.values_are_field(),
                updates.wf(),
                updates.keys_below((pow2(d + 1) - 1) as nat),
                updates.values_are_field(),
                forall|j: int|
                    0 <= j < dirty@.len() ==> level_of((#[trigger] dirty@[j]) as nat) == d - lvl
                        && dirty@[j] as nat <= pow2(d + 1) - 2,
                build_patch(updates@, dirty@, prev_map, canon0, d, (d - lvl) as nat)
                    == target_patch,
            decreases depth_e - lvl,
        {
            let ghost st = process_level(updates@, dirty@, prev_map, canon0, d);
            let ghost dirty_in = dirty@;
            let mut next: Vec<u32> = Vec::new();
            let m4 = dirty.len();
            let mut j: usize = 0;
            proof {
                assert(dirty_in.subrange(0, m4 as int) =~= dirty_in);
                assert(next@ + st.1 =~= st.1);
            }
            while j < m4
                invariant
                    self.wf(),
                    self.canon() == canon0,
                    self.depth() == d,
                    d == depth_e,
                    1 <= d <= 30,
                    lvl < depth_e,
                    m4 == dirty@.len(),
                    dirty@ == dirty_in,
                    j <= m4,
                    prev@ == prev_map,
                    prev.wf(),
                    prev.keys_below((pow2(d + 1) - 1) as nat),
                    prev.values_are_field(),
                    updates.wf(),
                    updates.keys_below((pow2(d + 1) - 1) as nat),
                    updates.values_are_field(),
                    forall|t: int|
                        0 <= t < dirty@.len() ==> level_of((#[trigger] dirty@[t]) as nat) == d
                            - lvl && dirty@[t] as nat <= pow2(d + 1) - 2,
                    forall|t: int|
                        0 <= t < next@.len() ==> level_of((#[trigger] next@[t]) as nat) == d - lvl
                            - 1 && next@[t] as nat <= pow2(d + 1) - 2,
                    st == ({
                        let r = process_level(
                            updates@,
                            dirty_in.subrange(j as int, m4 as int),
                            prev_map,
                            canon0,
                            d,
                        );
                        (r.0, next@ + r.1)
                    }),
                decreases m4 - j,
            {
                let nd = dirty[j];
                proof {
                    if nd == 0 {
                        assert(level_of(0) == 0);
                        assert(false);
                    }
                    let rem = dirty_in.subrange(j as int, m4 as int);
                    assert(rem[0] == dirty_in[j as int]);
                    assert(rem.drop_first() =~= dirty_in.subrange(j as int + 1, m4 as int));
                }
                let p = (nd - 1) / 2;
                proof {
                    assert(level_of(nd as nat) == 1 + level_of(p as nat));
                    crate::indices::lemma_level_bounds(p as nat);
                    crate::indices::lemma_pow2_mono(level_of(p as nat) + 1, d);
                    vstd::arithmetic::power2::lemma_pow2_unfold(d + 1);
                    crate::indices::lemma_pow2_mono(d + 1, 31);
                    vstd::arithmetic::power2::lemma2_to64();
                    assert(p as nat + 1 < pow2(d));
                }
                if updates.contains_key(p) {
                    proof {
                        assert(next@ + (seq![] + process_level(
                            updates@,
                            dirty_in.subrange(j as int + 1, m4 as int),
                            prev_map,
                            canon0,
                            d,
                        ).1) =~= next@ + process_level(
                            updates@,
                            dirty_in.subrange(j as int + 1, m4 as int),
                            prev_map,
                            canon0,
                            d,
                        ).1);
                    }
                } else {
                    let lc = 2 * p + 1;
                    let rc = 2 * p + 2;
                    let left = match updates.get(lc) {
                        Some(v) => v,
                        None => match prev.get(lc) {
                            Some(v) => v,
                            None => {
                                let (dd, oo) = crate::indices::storage_idx_to_coords(lc as usize);
                                proof {
                                    if dd as nat > d {
                                        if dd as nat > d + 1 {
                                            lemma_pow2_strictly_increases(d + 1, dd as nat);
                                        }
                                        assert(false);
                                    }
                                }
                                self.tree.get_node(dd, oo)
                            },
                        },
                    };
                    let right = match updates.get(rc) {
                        Some(v) => v,
                        None => match prev.get(rc) {
                            Some(v) => v,
                            None => {
                                let (dd, oo) = crate::indices::storage_idx_to_coords(rc as usize);
                                proof {
                                    if dd as nat > d {
                                        if dd as nat > d + 1 {
                                            lemma_pow2_strictly_increases(d + 1, dd as nat);
                                        }
                                        assert(false);
                                    }
                                }
                                self.tree.get_node(dd, oo)
                            },
                        },
                    };
                    proof {
                        assert(left == child_resolve(updates@, prev_map, canon0, d, 2 * (
                        p as nat) + 1));
                        assert(right == child_resolve(updates@, prev_map, canon0, d, 2 * (
                        p as nat) + 2));
                    }
                    let hsh = crate::hash::poseidon_hash(&left, &right);
                    let ghost pre_u = updates@;
                    updates.insert(p, hsh);
                    next.push(p);
                    proof {
                        assert forall|k: u32| updates@.dom().contains(k) implies k < (pow2(d + 1)
                            - 1) as nat by {
                            if k != p {
                                assert(pre_u.dom().contains(k));
                            }
                        }
                        assert forall|k: u32| updates@.dom().contains(k) implies (
                        #[trigger] updates@[k]).is_field() by {
                            if k != p {
                                assert(pre_u.dom().contains(k));
                                assert(updates@[k] == pre_u[k]);
                            }
                        }
                        let rest = process_level(
                            updates@,
                            dirty_in.subrange(j as int + 1, m4 as int),
                            prev_map,
                            canon0,
                            d,
                        );
                        assert(next@.drop_last() + (seq![p] + rest.1) =~= next@ + rest.1);
                    }
                }
                j = j + 1;
            }
            proof {
                assert(dirty_in.subrange(m4 as int, m4 as int).len() == 0);
                assert(st == (updates@, next@));
                assert(build_patch(updates@, next@, prev_map, canon0, d, (d - lvl - 1) as nat)
                    == target_patch);
            }
            dirty = next;
            lvl = lvl + 1;
        }
        proof {
            assert(updates@ == target_patch);
        }
        let ghost built = updates@;

        // Copy the rest of the previous patch forward, so the stored
        // patch is self-contained.
        let pn = prev.entries.len();
        let mut i: usize = 0;
        proof {
            assert(pairs_as_map(prev.entries@.subrange(0, 0)).union_prefer_right(built)
                =~= built);
        }
        while i < pn
            invariant
                self.wf(),
                self.canon() == canon0,
                self.depth() == d,
                self.tree_updates == old(self).tree_updates,
                self.leaves@ == leaves1,
                pn == prev.entries@.len(),
                i <= pn,
                prev@ == prev_map,
                prev.wf(),
                prev.keys_below((pow2(d + 1) - 1) as nat),
                prev.values_are_field(),
                updates.wf(),
                updates.keys_below((pow2(d + 1) - 1) as nat),
                updates.values_are_field(),
                updates@ == pairs_as_map(prev.entries@.subrange(0, i as int)).union_prefer_right(
                    built,
                ),
            decreases pn - i,
        {
            let (k, v) = prev.entries[i];
            let ghost pre_u = updates@;
            let ghost mpre = pairs_as_map(prev.entries@.subrange(0, i as int));
            updates.insert_if_absent(k, v);
            proof {
                crate::maps::lemma_pairs_as_map_index(prev.entries@, i as int);
                assert(prev.entries@.subrange(0, i as int + 1) =~= prev.entries@.subrange(
                    0,
                    i as int,
                ).push((k, v)));
                assert(prev.entries@.subrange(0, i as int + 1).drop_last()
                    =~= prev.entries@.subrange(0, i as int));
                assert(pairs_as_map(prev.entries@.subrange(0, i as int + 1)) == mpre.insert(k, v));
                if pre_u.dom().contains(k) {
                    assert forall|t: int|
                        0 <= t < prev.entries@.subrange(0, i as int).len() implies (
                    #[trigger] prev.entries@.subrange(0, i as int)[t]).0 != k by {
                        assert(prev.entries@.subrange(0, i as int)[t] == prev.entries@[t]);
                    }
                    crate::maps::lemma_pairs_as_map_absent(prev.entries@.subrange(0, i as int), k);
                    assert(!mpre.dom().contains(k));
                    assert(built.dom().contains(k));
                    assert(updates@ =~= mpre.insert(k, v).union_prefer_right(built));
                } else {
                    assert(updates@ =~= mpre.insert(k, v).union_prefer_right(built));
                }
                assert forall|x: u32| updates@.dom().contains(x) implies x < (pow2(d + 1)
                    - 1) as nat by {
                    if x != k {
                        assert(pre_u.dom().contains(x));
                    } else {
                        assert(prev@.dom().contains(k));
                    }
                }
                assert forall|x: u32| updates@.dom().contains(x) implies (
                #[trigger] updates@[x]).is_field() by {
                    if pre_u.dom().contains(x) && updates@[x] == pre_u[x] {
                    } else {
                        assert(prev@.dom().contains(k) && updates@[x] == prev@[k]);
                    }
                }
            }
            i = i + 1;
        }
        proof {
            assert(prev.entries@.subrange(0, pn as int) =~= prev.entries@);
            assert(updates@ == prev_map.union_prefer_right(built));
            assert(updates@ == appended_patch(ent, is_ins, prev_map, canon0, d));
        }

        // Store the patch under its root.
        let ghost pre_updates = self.tree_updates@;
        self.tree_updates.push((root, updates));
        proof {
            assert(self.tree_updates@.last() == (root, updates));
            assert forall|a: int, b: int|
                0 <= a < b < self.tree_updates@.len() implies (
            #[trigger] self.tree_updates@[a]).0.block_number < (
            #[trigger] self.tree_updates@[b]).0.block_number by {
                if b < pre_updates.len() {
                } else {
                    assert(self.tree_updates@[a] == pre_updates[a]);
                }
            }
            assert forall|a: int, b: int|
                0 <= a < self.tree_updates@.len() && 0 <= b < self.tree_updates@.len() && a
                    != b implies (#[trigger] self.tree_updates@[a]).0.hash != (
            #[trigger] self.tree_updates@[b]).0.hash by {
                if a < pre_updates.len() && b < pre_updates.len() {
                } else if a < pre_updates.len() {
                    assert(self.tree_updates@[a] == pre_updates[a]);
                } else {
                    assert(self.tree_updates@[b] == pre_updates[b]);
                }
            }
        }
    }


    /// Promotes the overlay entry staged at the root's block number:
    /// writes its leaf-layer entries into the canonical tree, then
    /// discards it together with every older overlay entry, keeping only
    /// entries at strictly greater block numbers. A no-op on the tree
    /// when no entry is staged at that block. The leaf index was already
    /// updated when the patch was appended.
    pub fn apply_updates_to_root(&mut self, root: &Root)
        requires
            old(self).wf(),
        ensures
            final(self).wf(),
            final(self).depth() == old(self).depth(),
            final(self).leaves@ == old(self).leaves@,
            forall|kk: int|
                0 <= kk < old(self).tree_updates@.len() && (
                #[trigger] old(self).tree_updates@[kk]).0.block_number == root.block_number
                    ==> final(self).canon() == apply_patch_leaves(
                    old(self).canon(),
                    old(self).tree_updates@[kk].1.entries@,
                    old(self).depth(),
                ),
            (forall|kk: int|
                0 <= kk < old(self).tree_updates@.len() ==> (
                #[trigger] old(self).tree_updates@[kk]).0.block_number != root.block_number)
                ==> final(self).canon() == old(self).canon(),
            final(self).tree_updates@ == old(self).tree_updates@.subrange(
                old(self).tree_updates@.len() - final(self).tree_updates@.len(),
                old(self).tree_updates@.len() as int,
            ),
            forall|t: int|
                0 <= t < old(self).tree_updates@.len() - final(self).tree_updates@.len() ==> (
                #[trigger] old(self).tree_updates@[t]).0.block_number <= root.block_number,
            forall|t: int|
                0 <= t < final(self).tree_updates@.len() ==> (
                #[trigger] final(self).tree_updates@[t]).0.block_number > root.block_number,
    {
        let ghost d = self.depth();
        let ghost canon_0 = self.canon();
        let n = self.tree_updates.len();
        let mut k: usize = 0;
        let mut found = false;
        while k < n && !found
            invariant
                n == self.tree_updates@.len(),
                k <= n,
                !found ==> forall|j: int|
                    0 <= j < k ==> (#[trigger] self.tree_updates@[j]).0.block_number
                        != root.block_number,
                found ==> k < n && self.tree_updates@[k as int].0.block_number
                    == root.block_number,
            decreases n - k + if found { 0int } else { 1int },
        {
            if self.tree_updates[k].0.block_number == root.block_number {
                found = true;
            } else {
                k = k + 1;
            }
        }
        if found {
            let depth_e = self.tree.depth();
            let ghost ent_p = self.tree_updates@[k as int].1.entries@;
            let m = self.tree_updates[k].1.entries.len();
            let mut i: usize = 0;
            proof {
                assert(ent_p.subrange(0, m as int) =~= ent_p);
            }
            while i < m
                invariant
                    self.wf(),
                    self.depth() == d,
                    d == depth_e,
                    1 <= d <= 30,
                    self.leaves@ == old(self).leaves@,
                    self.tree_updates == old(self).tree_updates,
                    0 <= k < self.tree_updates@.len(),
                    ent_p == self.tree_updates@[k as int].1.entries@,
                    m == ent_p.len(),
                    i <= m,
                    apply_patch_leaves(self.canon(), ent_p.subrange(i as int, m as int), d)
                        == apply_patch_leaves(canon_0, ent_p, d),
                decreases m - i,
            {
                proof {
                    let rem = ent_p.subrange(i as int, m as int);
                    assert(rem[0] == ent_p[i as int]);
                    assert(rem.drop_first() =~= ent_p.subrange(i as int + 1, m as int));
                }
                let (s_idx, v) = self.tree_updates[k].1.entries[i];
                proof {
                    assert(self.tree_updates@[k as int].1.wf());
                    crate::maps::lemma_pairs_as_map_index(ent_p, i as int);
                    assert(self.tree_updates@[k as int].1.keys_below((pow2(d + 1) - 1) as nat));
                    assert(self.tree_updates@[k as int].1.values_are_field());
                    assert(self.tree_updates@[k as int].1@[s_idx] == v);
                    assert(v.is_field());
                    vstd::arithmetic::power2::lemma_pow2_unfold(d + 1);
                    vstd::arithmetic::power2::lemma_pow2_pos(d);
                }
                let leaf0 = crate::indices::pow2_u32(depth_e) - 1;
                if s_idx >= leaf0 {
                    let leaf_i = crate::indices::storage_to_leaf_idx(s_idx, depth_e);
                    proof {
                        assert(leaf_i as nat == storage_to_leaf_spec(s_idx as nat, d));
                        assert(leaf_i < pow2(d));
                    }
                    let ghost pre_canon = self.canon();
                    self.tree.set_leaf(leaf_i as usize, v);
                    proof {
                        lemma_set_leaf_all_field(pre_canon, leaf_i as nat, v);
                    }
                }
                i = i + 1;
            }
            proof {
                assert(ent_p.subrange(m as int, m as int).len() == 0);
                assert(self.canon() == apply_patch_leaves(canon_0, ent_p, d));
            }
        }
        // Keep only the overlay entries at strictly greater blocks.
        let ghost orig = old(self).tree_updates@;
        let ghost tree_mid = self.tree;
        let ghost canon_mid = self.canon();
        let ghost mut f: int = 0;
        proof {
            assert(found ==> canon_mid == apply_patch_leaves(
                canon_0,
                orig[k as int].1.entries@,
                d,
            ));
        }
        while self.tree_updates.len() > 0 && self.tree_updates[0].0.block_number
            <= root.block_number
            invariant
                self.tree == tree_mid,
                self.leaves@ == old(self).leaves@,
                self.leaves.wf(),
                leaf_map_ok(self.leaves@, d),
                self.depth() == d,
                1 <= d <= 30,
                self.canon() == canon_mid,
                self.canon().len() <= pow2(d),
                all_field(self.canon()),
                0 <= f <= orig.len(),
                self.tree_updates@ == orig.subrange(f, orig.len() as int),
                forall|a: int, b: int|
                    0 <= a < b < orig.len() ==> (#[trigger] orig[a]).0.block_number < (
                    #[trigger] orig[b]).0.block_number,
                forall|a: int, b: int|
                    0 <= a < orig.len() && 0 <= b < orig.len() && a != b ==> (
                    #[trigger] orig[a]).0.hash != (#[trigger] orig[b]).0.hash,
                forall|t: int|
                    0 <= t < orig.len() ==> (#[trigger] orig[t]).1.wf() && orig[t].1.keys_below(
                        (pow2(d + 1) - 1) as nat,
                    ) && orig[t].1.values_are_field(),
                forall|t: int|
                    0 <= t < f ==> (#[trigger] orig[t]).0.block_number <= root.block_number,
            decreases self.tree_updates@.len(),
        {
            self.tree_updates.remove(0);
            proof {
                f = f + 1;
                assert(self.tree_updates@ =~= orig.subrange(f, orig.len() as int));
            }
        }
        proof {
            let fin = self.tree_updates@;
            assert(fin.len() == orig.len() - f);
            assert forall|t: int| 0 <= t < fin.len() implies (#[trigger] fin[t]).0.block_number
                > root.block_number by {
                assert(fin[t] == orig[f + t]);
                assert(fin[0] == orig[f]);
                if t > 0 {
                    assert(orig[f].0.block_number < orig[f + t].0.block_number);
                }
            }
            assert forall|a: int, b: int| 0 <= a < b < fin.len() implies (
            #[trigger] fin[a]).0.block_number < (#[trigger] fin[b]).0.block_number by {
                assert(fin[a] == orig[f + a] && fin[b] == orig[f + b]);
            }
            assert forall|a: int, b: int|
                0 <= a < fin.len() && 0 <= b < fin.len() && a != b implies (
            #[trigger] fin[a]).0.hash != (#[trigger] fin[b]).0.hash by {
                assert(fin[a] == orig[f + a] && fin[b] == orig[f + b]);
            }
            assert forall|t: int| 0 <= t < fin.len() implies (#[trigger] fin[t]).1.wf() && fin[t]
                .1.keys_below((pow2(d + 1) - 1) as nat) && fin[t].1.values_are_field() by {
                assert(fin[t] == orig[f + t]);
                assert(orig[f + t].1.wf());
                assert(orig[f + t].1.keys_below((pow2(d + 1) - 1) as nat));
                assert(orig[f + t].1.values_are_field());
            }
            assert forall|kk: int|
                0 <= kk < orig.len() && (#[trigger] orig[kk]).0.block_number
                    == root.block_number implies self.canon() == apply_patch_leaves(
                canon_0,
                orig[kk].1.entries@,
                d,
            ) by {
                assert(found);
                if kk != k as int {
                    if kk < k as int {
                        assert(orig[kk].0.block_number < orig[k as int].0.block_number);
                    } else {
                        assert(orig[k as int].0.block_number < orig[kk].0.block_number);
                    }
                    assert(false);
                }
            }
        }
    }

    /// The stored overlay root descriptor carrying the given hash, if
    /// any: the overlay is looked up by hash alone.
    pub fn get_root_by_hash(&self, hash: &Hash256) -> (r: Option<Root>)
        requires
            self.wf(),
        ensures
            match r {
                Some(rt) => rt.hash == *hash && exists|i: int|
                    0 <= i < self.tree_updates@.len() && (#[trigger] self.tree_updates@[i]).0
                        == rt,
                None => forall|i: int|
                    0 <= i < self.tree_updates@.len() ==> (#[trigger] self.tree_updates@[i]).0.hash
                        != *hash,
            },
    {
        let n = self.tree_updates.len();
        let mut i: usize = 0;
        while i < n
            invariant
                n == self.tree_updates@.len(),
                i <= n,
                forall|j: int|
                    0 <= j < i ==> (#[trigger] self.tree_updates@[j]).0.hash != *hash,
            decreases n - i,
        {
            if self.tree_updates[i].0.hash == *hash {
                return Some(self.tree_updates[i].0);
            }
            i = i + 1;
        }
        None
    }
}

} // verus!
