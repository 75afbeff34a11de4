//! The canonical dynamic Merkle tree: a fixed-depth Poseidon tree holding
//! the pushed leaves, padded with the zero value. The tree itself lives in
//! an outside crate behind trusted wrappers; its mathematical reading —
//! node hashes, proof shapes and proof verification — is specified and
//! proved here.

use vstd::arithmetic::power2::pow2;
use vstd::prelude::*;

use crate::hash::{poseidon_of, Hash256};

verus! {

/// The leaf at offset `o` of the padded leaf layer: a pushed leaf, or the
/// zero value past the pushed prefix.
pub open spec fn padded_leaf(leaves: Seq<Hash256>, o: int) -> Hash256 {
    if 0 <= o < leaves.len() {
        leaves[o]
    } else {
        Hash256::zero_spec()
    }
}

/// The hash at level `d` (root is level 0), offset `o`, of the depth-`depth`
/// Poseidon tree over the padded leaf layer.
pub open spec fn node_hash(leaves: Seq<Hash256>, depth: nat, d: nat, o: nat) -> Hash256
    decreases depth - d,
{
    if d >= depth {
        padded_leaf(leaves, o as int)
    } else {
        poseidon_of(
            node_hash(leaves, depth, (d + 1) as nat, 2 * o),
            node_hash(leaves, depth, (d + 1) as nat, 2 * o + 1),
        )
    }
}

/// The root of the depth-`depth` Poseidon tree over the padded leaf layer.
pub open spec fn root_of(leaves: Seq<Hash256>, depth: nat) -> Hash256 {
    node_hash(leaves, depth, 0, 0)
}

/// One element of an inclusion proof. `Left(s)` means the path goes to the
/// left child and `s` is the right sibling; `Right(s)` means the path goes
/// to the right child and `s` is the left sibling.
#[derive(Clone, Copy, PartialEq, Eq, Structural, Debug)]
pub enum Branch {
    Left(Hash256),
    Right(Hash256),
}

/// The sibling hash a branch carries.
pub open spec fn branch_value(b: Branch) -> Hash256 {
    match b {
        Branch::Left(s) => s,
        Branch::Right(s) => s,
    }
}

/// The root that a proof reproduces from a leaf hash, folding bottom-up.
pub open spec fn branches_root(p: Seq<Branch>, h: Hash256) -> Hash256
    decreases p.len(),
{
    if p.len() == 0 {
        h
    } else {
        let step = match p[0] {
            Branch::Left(s) => poseidon_of(h, s),
            Branch::Right(s) => poseidon_of(s, h),
        };
        branches_root(p.drop_first(), step)
    }
}

/// The sibling branches from the node at level `d`, offset `o`, up to the
/// root, siblings taken from the canonical tree.
pub open spec fn path_branches(leaves: Seq<Hash256>, depth: nat, d: nat, o: nat) -> Seq<Branch>
    decreases d,
{
    if d == 0 {
        Seq::empty()
    } else {
        let b = if o % 2 == 0 {
            Branch::Left(node_hash(leaves, depth, d, o + 1))
        } else {
            Branch::Right(node_hash(leaves, depth, d, (o - 1) as nat))
        };
        seq![b] + path_branches(leaves, depth, (d - 1) as nat, o / 2)
    }
}

/// The canonical inclusion proof for a leaf offset: its sibling branches
/// from the leaf layer up to the root.
pub open spec fn proof_spec(leaves: Seq<Hash256>, depth: nat, leaf: nat) -> Seq<Branch> {
    path_branches(leaves, depth, depth, leaf)
}

/// Climbing the canonical sibling branches from any node reproduces the
/// root.
pub proof fn lemma_path_branches_root(leaves: Seq<Hash256>, depth: nat, d: nat, o: nat)
    requires
        d <= depth,
        o < pow2(d),
    ensures
        branches_root(path_branches(leaves, depth, d, o), node_hash(leaves, depth, d, o)) == root_of(
            leaves,
            depth,
        ),
    decreases d,
{
    if d == 0 {
        assert(pow2(0) == 1) by {
            vstd::arithmetic::power2::lemma2_to64();
        }
    } else {
        vstd::arithmetic::power2::lemma_pow2_unfold(d);
        let h = node_hash(leaves, depth, d, o);
        let p = path_branches(leaves, depth, d, o);
        let rest = path_branches(leaves, depth, (d - 1) as nat, o / 2);
        assert(p.drop_first() =~= rest);
        let parent = node_hash(leaves, depth, (d - 1) as nat, o / 2);
        if o % 2 == 0 {
            assert(2 * (o / 2) == o);
            assert(parent == poseidon_of(h, node_hash(leaves, depth, d, o + 1)));
        } else {
            assert(2 * (o / 2) == o - 1);
            assert(parent == poseidon_of(node_hash(leaves, depth, d, (o - 1) as nat), h));
        }
        lemma_path_branches_root(leaves, depth, (d - 1) as nat, o / 2);
    }
}

/// Law: verifying the canonical inclusion proof of any leaf offset
/// reproduces the canonical root.
pub proof fn lemma_canonical_proof_verifies(leaves: Seq<Hash256>, depth: nat, leaf: nat)
    requires
        leaf < pow2(depth),
    ensures
        branches_root(proof_spec(leaves, depth, leaf), padded_leaf(leaves, leaf as int)) == root_of(
            leaves,
            depth,
        ),
{
    lemma_path_branches_root(leaves, depth, depth, leaf);
}

/// The canonical tree of the outside crate, held opaquely. Constructed
/// only by `MerkleTree::new`, with the zero value as its empty value.
#[verifier::external_body]
pub struct MerkleTree {
    inner: semaphore_rs_trees::cascading::CascadingMerkleTree<semaphore_rs_poseidon::Poseidon>,
}

/// The leaves pushed into the tree so far, in order, as limb values.
pub uninterp spec fn tree_leaves(t: MerkleTree) -> Seq<Hash256>;

/// The fixed depth the tree was constructed with.
pub uninterp spec fn tree_depth_of(t: MerkleTree) -> nat;

impl MerkleTree {
    /// Relies on `CascadingMerkleTree::new`: a fresh tree of the given
    /// depth with the zero empty value and no pushed leaves.
    #[verifier::external_body]
    pub fn new(depth: usize) -> (t: MerkleTree)
        requires
            1 <= depth <= 30,
        ensures
            tree_depth_of(t) == depth,
            tree_leaves(t) == Seq::<Hash256>::empty(),
    {
        MerkleTree {
            inner: semaphore_rs_trees::cascading::CascadingMerkleTree::new(
                Vec::new(),
                depth,
                &semaphore_rs::Field::ZERO,
            ),
        }
    }

    /// Relies on `CascadingMerkleTree::depth`.
    #[verifier::external_body]
    pub fn depth(&self) -> (d: usize)
        ensures
            d == tree_depth_of(*self),
    {
        self.inner.depth()
    }

    /// Relies on `CascadingMerkleTree::num_leaves`: the number of pushed
    /// leaves, leaves later set to the empty value included.
    #[verifier::external_body]
    pub fn num_leaves(&self) -> (n: usize)
        ensures
            n == tree_leaves(*self).len(),
    {
        self.inner.num_leaves()
    }

    /// Relies on `CascadingMerkleTree::push`: appends the value at the
    /// next leaf position and rehashes its path; fails only on a full
    /// tree, which the precondition rules out.
    #[verifier::external_body]
    pub fn push(&mut self, value: Hash256)
        requires
            value.is_field(),
            tree_leaves(*old(self)).len() < pow2(tree_depth_of(*old(self))),
        ensures
            tree_leaves(*final(self)) == tree_leaves(*old(self)).push(value),
            tree_depth_of(*final(self)) == tree_depth_of(*old(self)),
    {
        let v = semaphore_rs::Field::from_limbs([value.l0, value.l1, value.l2, value.l3]);
        self.inner.push(v).expect("tree capacity exceeded");
    }

    /// Relies on `CascadingMerkleTree::set_leaf`: overwrites a pushed
    /// leaf in place, or extends the pushed prefix with zero values up to
    /// the given offset and the value there.
    #[verifier::external_body]
    pub fn set_leaf(&mut self, leaf: usize, value: Hash256)
        requires
            value.is_field(),
            leaf < pow2(tree_depth_of(*old(self))),
        ensures
            tree_leaves(*final(self)) == set_leaf_model(tree_leaves(*old(self)), leaf as nat, value),
            tree_depth_of(*final(self)) == tree_depth_of(*old(self)),
    {
        let v = semaphore_rs::Field::from_limbs([value.l0, value.l1, value.l2, value.l3]);
        self.inner.set_leaf(leaf, v);
    }

    /// Relies on `CascadingMerkleTree::get_leaf`: the pushed leaf at the
    /// offset, or the zero value past the pushed prefix.
    #[verifier::external_body]
    pub fn get_leaf(&self, leaf: usize) -> (h: Hash256)
        requires
            leaf < pow2(tree_depth_of(*self)),
        ensures
            h == padded_leaf(tree_leaves(*self), leaf as int),
    {
        let v = self.inner.get_leaf(leaf);
        let limbs = v.as_limbs();
        Hash256 { l0: limbs[0], l1: limbs[1], l2: limbs[2], l3: limbs[3] }
    }

    /// Relies on `CascadingMerkleTree::root`: the Poseidon root over the
    /// padded leaf layer.
    #[verifier::external_body]
    pub fn root(&self) -> (h: Hash256)
        ensures
            h == root_of(tree_leaves(*self), tree_depth_of(*self)),
            h.is_field(),
    {
        let v = self.inner.root();
        let limbs = v.as_limbs();
        Hash256 { l0: limbs[0], l1: limbs[1], l2: limbs[2], l3: limbs[3] }
    }

    /// Relies on `CascadingMerkleTree::get_node`: the canonical hash at
    /// `(level, offset)`, the root being level 0.
    #[verifier::external_body]
    pub fn get_node(&self, level: usize, offset: usize) -> (h: Hash256)
        requires
            level <= tree_depth_of(*self),
            offset < pow2(level as nat),
        ensures
            h == node_hash(tree_leaves(*self), tree_depth_of(*self), level as nat, offset as nat),
            h.is_field(),
    {
        let v = self.inner.get_node(level, offset);
        let limbs = v.as_limbs();
        Hash256 { l0: limbs[0], l1: limbs[1], l2: limbs[2], l3: limbs[3] }
    }

    /// Relies on `CascadingMerkleTree::proof`: the sibling branches of a
    /// pushed leaf, bottom-up, tagged by the side the path takes; panics
    /// on an unpushed offset, which the precondition rules out.
    #[verifier::external_body]
    pub fn branches_for(&self, leaf: usize) -> (p: Vec<Branch>)
        requires
            leaf < tree_leaves(*self).len(),
        ensures
            p@ == proof_spec(tree_leaves(*self), tree_depth_of(*self), leaf as nat),
            forall|i: int|
                0 <= i < p@.len() ==> (#[trigger] branch_value(p@[i])).is_field(),
    {
        let pr = self.inner.proof(leaf);
        pr.0.into_iter().map(|b| {
            match b {
                semaphore_rs_trees::Branch::Left(s) => {
                    let l = s.as_limbs();
                    Branch::Left(Hash256 { l0: l[0], l1: l[1], l2: l[2], l3: l[3] })
                },
                semaphore_rs_trees::Branch::Right(s) => {
                    let l = s.as_limbs();
                    Branch::Right(Hash256 { l0: l[0], l1: l[1], l2: l[2], l3: l[3] })
                },
            }
        }).collect()
    }
}

/// The leaf layer after writing a value at a leaf offset: an overwrite in
/// place, or an extension with zero values up to the offset.
pub open spec fn set_leaf_model(leaves: Seq<Hash256>, leaf: nat, value: Hash256) -> Seq<Hash256> {
    if leaf < leaves.len() {
        leaves.update(leaf as int, value)
    } else {
        leaves + Seq::new((leaf - leaves.len()) as nat, |i: int| Hash256::zero_spec()).push(value)
    }
}

/// Folds an inclusion proof from a leaf hash up to the root it attests.
pub fn verify_inclusion(leaf: &Hash256, branches: &Vec<Branch>) -> (r: Hash256)
    requires
        leaf.is_field(),
        forall|i: int|
            0 <= i < branches@.len() ==> (#[trigger] branch_value(branches@[i])).is_field(),
    ensures
        r == branches_root(branches@, *leaf),
{
    let n = branches.len();
    let mut acc: Hash256 = *leaf;
    let mut i: usize = 0;
    proof {
        assert(branches@.subrange(0, n as int) =~= branches@);
    }
    while i < n
        invariant
            n == branches@.len(),
            i <= n,
            acc.is_field(),
            forall|j: int|
                0 <= j < branches@.len() ==> (#[trigger] branch_value(branches@[j])).is_field(),
            branches_root(branches@, *leaf) == branches_root(
                branches@.subrange(i as int, n as int),
                acc,
            ),
        decreases n - i,
    {
        proof {
            assert(branches@.subrange(i as int, n as int).drop_first() =~= branches@.subrange(
                i as int + 1,
                n as int,
            ));
            assert(branches@.subrange(i as int, n as int)[0] == branches@[i as int]);
            assert(branch_value(branches@[i as int]).is_field());
        }
        match branches[i] {
            Branch::Left(s) => {
                acc = crate::hash::poseidon_hash(&acc, &s);
            },
            Branch::Right(s) => {
                acc = crate::hash::poseidon_hash(&s, &acc);
            },
        }
        i = i + 1;
    }
    proof {
        assert(branches@.subrange(n as int, n as int).len() == 0);
    }
    acc
}

} // verus!
