//! The hash primitive: a BN254 scalar field element held as four
//! little-endian 64-bit limbs, with a distinguished all-zero value that
//! marks an empty leaf, and the Poseidon two-to-one compression.

use vstd::prelude::*;

verus! {

/// Little-endian 64-bit limbs of the BN254 scalar field modulus.
pub const MODULUS_LIMB_0: u64 = 0x43e1f593f0000001;
pub const MODULUS_LIMB_1: u64 = 0x2833e84879b97091;
pub const MODULUS_LIMB_2: u64 = 0xb85045b68181585d;
pub const MODULUS_LIMB_3: u64 = 0x30644e72e131a029;

/// A 256-bit value held as four little-endian 64-bit limbs.
///
/// Leaf and interior node hashes of the identity tree are such values,
/// always reduced below the BN254 scalar field modulus (`is_field`).
/// The all-zero value denotes an empty leaf and is never a key of the
/// leaf index.
#[derive(Clone, Copy, PartialEq, Eq, Structural, Debug)]
pub struct Hash256 {
    pub l0: u64,
    pub l1: u64,
    pub l2: u64,
    pub l3: u64,
}

impl Hash256 {
    /// The distinguished empty-leaf value.
    pub open spec fn zero_spec() -> Hash256 {
        Hash256 { l0: 0, l1: 0, l2: 0, l3: 0 }
    }

    /// True when the 256-bit value lies below the BN254 scalar field
    /// modulus, so that the Poseidon compression accepts it.
    pub open spec fn is_field(self) -> bool {
        if self.l3 != MODULUS_LIMB_3 {
            self.l3 < MODULUS_LIMB_3
        } else if self.l2 != MODULUS_LIMB_2 {
            self.l2 < MODULUS_LIMB_2
        } else if self.l1 != MODULUS_LIMB_1 {
            self.l1 < MODULUS_LIMB_1
        } else {
            self.l0 < MODULUS_LIMB_0
        }
    }

    /// The empty-leaf value.
    pub fn zero() -> (h: Hash256)
        ensures
            h == Hash256::zero_spec(),
    {
        Hash256 { l0: 0, l1: 0, l2: 0, l3: 0 }
    }

    /// A hash from a single 64-bit value (the low limb).
    pub fn from_u64(v: u64) -> (h: Hash256)
        ensures
            h == (Hash256 { l0: v, l1: 0, l2: 0, l3: 0 }),
            h.is_field(),
    {
        Hash256 { l0: v, l1: 0, l2: 0, l3: 0 }
    }

    /// A hash from its four little-endian 64-bit limbs.
    pub fn from_limbs(limbs: [u64; 4]) -> (h: Hash256)
        ensures
            h == (Hash256 { l0: limbs@[0], l1: limbs@[1], l2: limbs@[2], l3: limbs@[3] }),
    {
        Hash256 { l0: limbs[0], l1: limbs[1], l2: limbs[2], l3: limbs[3] }
    }

    /// Whether this is the empty-leaf value.
    pub fn is_zero(&self) -> (b: bool)
        ensures
            b == (*self == Hash256::zero_spec()),
    {
        self.l0 == 0 && self.l1 == 0 && self.l2 == 0 && self.l3 == 0
    }
}

/// What `semaphore_rs_poseidon::poseidon::hash2` returns on two reduced
/// field elements: a function of its two arguments alone.
pub uninterp spec fn poseidon_of(left: Hash256, right: Hash256) -> Hash256;

/// Relies on `semaphore_rs_poseidon::poseidon::hash2`: the Poseidon
/// two-to-one compression over the BN254 scalar field. It is deterministic
/// in its two arguments, panics only on an unreduced input, and returns a
/// reduced field element.
#[verifier::external_body]
pub(crate) fn poseidon_hash(left: &Hash256, right: &Hash256) -> (h: Hash256)
    requires
        left.is_field(),
        right.is_field(),
    ensures
        h == poseidon_of(*left, *right),
        h.is_field(),
{
    let l = semaphore_rs::Field::from_limbs([left.l0, left.l1, left.l2, left.l3]);
    let r = semaphore_rs::Field::from_limbs([right.l0, right.l1, right.l2, right.l3]);
    let out = semaphore_rs_poseidon::poseidon::hash2(l, r);
    let limbs = out.as_limbs();
    Hash256 { l0: limbs[0], l1: limbs[1], l2: limbs[2], l3: limbs[3] }
}

} // verus!
