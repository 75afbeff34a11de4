//! Sparse maps held as vectors of key-value pairs with pairwise-distinct
//! keys: node patches and leaf-update maps (`u32` index to hash) and the
//! leaf index (hash to `u32` leaf index).

use vstd::prelude::*;

use crate::hash::Hash256;

verus! {

/// The map described by a sequence of key-value pairs, later entries
/// winning.
pub open spec fn pairs_as_map(s: Seq<(u32, Hash256)>) -> Map<u32, Hash256>
    decreases s.len(),
{
    if s.len() == 0 {
        Map::empty()
    } else {
        pairs_as_map(s.drop_last()).insert(s.last().0, s.last().1)
    }
}

/// Pairwise-distinct keys.
pub open spec fn keys_distinct(s: Seq<(u32, Hash256)>) -> bool {
    forall|i: int, j: int| 0 <= i < j < s.len() ==> (#[trigger] s[i]).0 != (#[trigger] s[j]).0
}

/// Every entry of the sequence is a pair of the map.
pub proof fn lemma_pairs_as_map_index(s: Seq<(u32, Hash256)>, i: int)
    requires
        keys_distinct(s),
        0 <= i < s.len(),
    ensures
        pairs_as_map(s).contains_pair(s[i].0, s[i].1),
    decreases s.len(),
{
    if i < s.len() - 1 {
        lemma_pairs_as_map_index(s.drop_last(), i);
    }
}

/// A key under none of the entries is not in the map.
pub proof fn lemma_pairs_as_map_absent(s: Seq<(u32, Hash256)>, k: u32)
    requires
        forall|i: int| 0 <= i < s.len() ==> (#[trigger] s[i]).0 != k,
    ensures
        !pairs_as_map(s).dom().contains(k),
    decreases s.len(),
{
    if s.len() > 0 {
        lemma_pairs_as_map_absent(s.drop_last(), k);
    }
}

/// Overwriting the entry that holds a key updates the map at that key.
pub proof fn lemma_pairs_as_map_update(s: Seq<(u32, Hash256)>, i: int, v: Hash256)
    requires
        keys_distinct(s),
        0 <= i < s.len(),
    ensures
        pairs_as_map(s.update(i, (s[i].0, v))) == pairs_as_map(s).insert(s[i].0, v),
        keys_distinct(s.update(i, (s[i].0, v))),
    decreases s.len(),
{
    let t = s.update(i, (s[i].0, v));
    assert(forall|j: int| 0 <= j < s.len() ==> (#[trigger] t[j]).0 == s[j].0);
    if i == s.len() - 1 {
        assert(t.drop_last() =~= s.drop_last());
        assert(pairs_as_map(t) =~= pairs_as_map(s).insert(s[i].0, v));
    } else {
        lemma_pairs_as_map_update(s.drop_last(), i, v);
        assert(t.drop_last() =~= s.drop_last().update(i, (s[i].0, v)));
        assert(t.last() == s.last());
        assert(pairs_as_map(t) =~= pairs_as_map(s).insert(s[i].0, v));
    }
}

/// Appending a fresh key inserts it into the map.
pub proof fn lemma_pairs_as_map_push(s: Seq<(u32, Hash256)>, k: u32, v: Hash256)
    requires
        keys_distinct(s),
        forall|i: int| 0 <= i < s.len() ==> (#[trigger] s[i]).0 != k,
    ensures
        pairs_as_map(s.push((k, v))) == pairs_as_map(s).insert(k, v),
        keys_distinct(s.push((k, v))),
{
    assert(s.push((k, v)).drop_last() =~= s);
}

/// A sparse map from `u32` indices to hashes: the value type of the
/// overlay (storage index to hash) and the payload of a leaf update (leaf
/// index to hash).
pub struct NodeMap {
    pub entries: Vec<(u32, Hash256)>,
}

impl NodeMap {
    /// The mathematical map held.
    pub open spec fn view(&self) -> Map<u32, Hash256> {
        pairs_as_map(self.entries@)
    }

    /// Keys are pairwise distinct.
    pub open spec fn wf(&self) -> bool {
        keys_distinct(self.entries@)
    }

    /// All keys lie below the bound.
    pub open spec fn keys_below(&self, bound: nat) -> bool {
        forall|k: u32| self.view().dom().contains(k) ==> k < bound
    }

    /// All values are reduced field elements.
    pub open spec fn values_are_field(&self) -> bool {
        forall|k: u32| self.view().dom().contains(k) ==> (#[trigger] self.view()[k]).is_field()
    }

    /// An empty map.
    pub fn new() -> (m: NodeMap)
        ensures
            m@ == Map::<u32, Hash256>::empty(),
            m.wf(),
            m.entries@.len() == 0,
    {
        NodeMap { entries: Vec::new() }
    }

    /// The value under a key, if any.
    pub fn get(&self, key: u32) -> (r: Option<Hash256>)
        requires
            self.wf(),
        ensures
            r == if self@.dom().contains(key) {
                Some(self@[key])
            } else {
                None::<Hash256>
            },
    {
        let n = self.entries.len();
        let mut i: usize = 0;
        while i < n
            invariant
                self.wf(),
                n == self.entries@.len(),
                i <= n,
                forall|j: int| 0 <= j < i ==> (#[trigger] self.entries@[j]).0 != key,
            decreases n - i,
        {
            if self.entries[i].0 == key {
                proof {
                    lemma_pairs_as_map_index(self.entries@, i as int);
                }
                return Some(self.entries[i].1);
            }
            i = i + 1;
        }
        proof {
            lemma_pairs_as_map_absent(self.entries@, key);
        }
        None
    }

    /// Whether a key is present.
    pub fn contains_key(&self, key: u32) -> (r: bool)
        requires
            self.wf(),
        ensures
            r == self@.dom().contains(key),
    {
        self.get(key).is_some()
    }

    /// Inserts or overwrites the value under a key.
    pub fn insert(&mut self, key: u32, value: Hash256)
        requires
            old(self).wf(),
        ensures
            final(self)@ == old(self)@.insert(key, value),
            final(self).wf(),
            final(self).entries@.len() <= old(self).entries@.len() + 1,
    {
        let n = self.entries.len();
        let mut i: usize = 0;
        while i < n
            invariant
                self == old(self),
                self.wf(),
                n == self.entries@.len(),
                i <= n,
                forall|j: int| 0 <= j < i ==> (#[trigger] self.entries@[j]).0 != key,
            decreases n - i,
        {
            if self.entries[i].0 == key {
                proof {
                    lemma_pairs_as_map_update(self.entries@, i as int, value);
                }
                self.entries.set(i, (key, value));
                return ;
            }
            i = i + 1;
        }
        proof {
            lemma_pairs_as_map_push(self.entries@, key, value);
        }
        self.entries.push((key, value));
    }

    /// Inserts only when the key is absent, as a hash map `entry
    /// .or_insert` does.
    pub fn insert_if_absent(&mut self, key: u32, value: Hash256)
        requires
            old(self).wf(),
        ensures
            final(self)@ == if old(self)@.dom().contains(key) {
                old(self)@
            } else {
                old(self)@.insert(key, value)
            },
            final(self).wf(),
            final(self).entries@.len() <= old(self).entries@.len() + 1,
    {
        if !self.contains_key(key) {
            self.insert(key, value);
        }
    }
}

/// The map described by a sequence of hash-to-index pairs, later entries
/// winning.
pub open spec fn leaf_pairs_as_map(s: Seq<(Hash256, u32)>) -> Map<Hash256, u32>
    decreases s.len(),
{
    if s.len() == 0 {
        Map::empty()
    } else {
        leaf_pairs_as_map(s.drop_last()).insert(s.last().0, s.last().1)
    }
}

/// Pairwise-distinct hash keys.
pub open spec fn leaf_keys_distinct(s: Seq<(Hash256, u32)>) -> bool {
    forall|i: int, j: int| 0 <= i < j < s.len() ==> (#[trigger] s[i]).0 != (#[trigger] s[j]).0
}

/// Every entry of the sequence is a pair of the map.
pub proof fn lemma_leaf_pairs_as_map_index(s: Seq<(Hash256, u32)>, i: int)
    requires
        leaf_keys_distinct(s),
        0 <= i < s.len(),
    ensures
        leaf_pairs_as_map(s).contains_pair(s[i].0, s[i].1),
    decreases s.len(),
{
    if i < s.len() - 1 {
        lemma_leaf_pairs_as_map_index(s.drop_last(), i);
    }
}

/// A key under none of the entries is not in the map.
pub proof fn lemma_leaf_pairs_as_map_absent(s: Seq<(Hash256, u32)>, k: Hash256)
    requires
        forall|i: int| 0 <= i < s.len() ==> (#[trigger] s[i]).0 != k,
    ensures
        !leaf_pairs_as_map(s).dom().contains(k),
    decreases s.len(),
{
    if s.len() > 0 {
        lemma_leaf_pairs_as_map_absent(s.drop_last(), k);
    }
}

/// Overwriting the entry that holds a key updates the map at that key.
pub proof fn lemma_leaf_pairs_as_map_update(s: Seq<(Hash256, u32)>, i: int, v: u32)
    requires
        leaf_keys_distinct(s),
        0 <= i < s.len(),
    ensures
        leaf_pairs_as_map(s.update(i, (s[i].0, v))) == leaf_pairs_as_map(s).insert(s[i].0, v),
        leaf_keys_distinct(s.update(i, (s[i].0, v))),
    decreases s.len(),
{
    let t = s.update(i, (s[i].0, v));
    assert(forall|j: int| 0 <= j < s.len() ==> (#[trigger] t[j]).0 == s[j].0);
    if i == s.len() - 1 {
        assert(t.drop_last() =~= s.drop_last());
        assert(leaf_pairs_as_map(t) =~= leaf_pairs_as_map(s).insert(s[i].0, v));
    } else {
        lemma_leaf_pairs_as_map_update(s.drop_last(), i, v);
        assert(t.drop_last() =~= s.drop_last().update(i, (s[i].0, v)));
        assert(t.last() == s.last());
        assert(leaf_pairs_as_map(t) =~= leaf_pairs_as_map(s).insert(s[i].0, v));
    }
}

/// Appending a fresh key inserts it into the map.
pub proof fn lemma_leaf_pairs_as_map_push(s: Seq<(Hash256, u32)>, k: Hash256, v: u32)
    requires
        leaf_keys_distinct(s),
        forall|i: int| 0 <= i < s.len() ==> (#[trigger] s[i]).0 != k,
    ensures
        leaf_pairs_as_map(s.push((k, v))) == leaf_pairs_as_map(s).insert(k, v),
        leaf_keys_distinct(s.push((k, v))),
{
    assert(s.push((k, v)).drop_last() =~= s);
}

/// Removing the entry that holds a key removes the key from the map.
pub proof fn lemma_leaf_pairs_as_map_remove(s: Seq<(Hash256, u32)>, i: int)
    requires
        leaf_keys_distinct(s),
        0 <= i < s.len(),
    ensures
        leaf_pairs_as_map(s.remove(i)) == leaf_pairs_as_map(s).remove(s[i].0),
        leaf_keys_distinct(s.remove(i)),
    decreases s.len(),
{
    let t = s.remove(i);
    if i == s.len() - 1 {
        assert(t =~= s.drop_last());
        lemma_leaf_pairs_as_map_absent(s.drop_last(), s[i].0);
        assert(leaf_pairs_as_map(t) =~= leaf_pairs_as_map(s).remove(s[i].0));
    } else {
        lemma_leaf_pairs_as_map_remove(s.drop_last(), i);
        assert(t.drop_last() =~= s.drop_last().remove(i));
        assert(t.last() == s.last());
        assert(leaf_pairs_as_map(t) =~= leaf_pairs_as_map(s).remove(s[i].0));
    }
}

/// The leaf index: a map from non-zero leaf hash to its leaf-layer index.
pub struct LeafMap {
    pub entries: Vec<(Hash256, u32)>,
}

impl LeafMap {
    /// The mathematical map held.
    pub open spec fn view(&self) -> Map<Hash256, u32> {
        leaf_pairs_as_map(self.entries@)
    }

    /// Keys are pairwise distinct.
    pub open spec fn wf(&self) -> bool {
        leaf_keys_distinct(self.entries@)
    }

    /// An empty map.
    pub fn new() -> (m: LeafMap)
        ensures
            m@ == Map::<Hash256, u32>::empty(),
            m.wf(),
    {
        LeafMap { entries: Vec::new() }
    }

    /// The index under a leaf hash, if any.
    pub fn get(&self, key: &Hash256) -> (r: Option<u32>)
        requires
            self.wf(),
        ensures
            r == if self@.dom().contains(*key) {
                Some(self@[*key])
            } else {
                None::<u32>
            },
    {
        let n = self.entries.len();
        let mut i: usize = 0;
        while i < n
            invariant
                self.wf(),
                n == self.entries@.len(),
                i <= n,
                forall|j: int| 0 <= j < i ==> (#[trigger] self.entries@[j]).0 != *key,
            decreases n - i,
        {
            if self.entries[i].0 == *key {
                proof {
                    lemma_leaf_pairs_as_map_index(self.entries@, i as int);
                }
                return Some(self.entries[i].1);
            }
            i = i + 1;
        }
        proof {
            lemma_leaf_pairs_as_map_absent(self.entries@, *key);
        }
        None
    }

    /// Inserts or overwrites the index under a leaf hash.
    pub fn insert(&mut self, key: Hash256, value: u32)
        requires
            old(self).wf(),
    ensures
            final(self)@ == old(self)@.insert(key, value),
            final(self).wf(),
    {
        let n = self.entries.len();
        let mut i: usize = 0;
        while i < n
            invariant
                self == old(self),
                self.wf(),
                n == self.entries@.len(),
                i <= n,
                forall|j: int| 0 <= j < i ==> (#[trigger] self.entries@[j]).0 != key,
            decreases n - i,
        {
            if self.entries[i].0 == key {
                proof {
                    lemma_leaf_pairs_as_map_update(self.entries@, i as int, value);
                }
                self.entries.set(i, (key, value));
                return ;
            }
            i = i + 1;
        }
        proof {
            lemma_leaf_pairs_as_map_push(self.entries@, key, value);
        }
        self.entries.push((key, value));
    }

    /// Removes a leaf hash, a no-op when it is absent.
    pub fn remove(&mut self, key: &Hash256)
        requires
            old(self).wf(),
        ensures
            final(self)@ == old(self)@.remove(*key),
            final(self).wf(),
    {
        let n = self.entries.len();
        let mut i: usize = 0;
        while i < n
            invariant
                self == old(self),
                self.wf(),
                n == self.entries@.len(),
                i <= n,
                forall|j: int| 0 <= j < i ==> (#[trigger] self.entries@[j]).0 != *key,
            decreases n - i,
        {
            if self.entries[i].0 == *key {
                proof {
                    lemma_leaf_pairs_as_map_remove(self.entries@, i as int);
                }
                self.entries.remove(i);
                return ;
            }
            i = i + 1;
        }
        proof {
            lemma_leaf_pairs_as_map_absent(self.entries@, *key);
            assert(old(self)@.remove(*key) =~= old(self)@);
        }
    }
}


/// Inserting a fresh key at any position inserts it into the map.
pub proof fn lemma_pairs_as_map_insert_at(s: Seq<(u32, Hash256)>, p: int, k: u32, v: Hash256)
    requires
        keys_distinct(s),
        0 <= p <= s.len(),
        forall|i: int| 0 <= i < s.len() ==> (#[trigger] s[i]).0 != k,
    ensures
        pairs_as_map(s.insert(p, (k, v))) == pairs_as_map(s).insert(k, v),
        keys_distinct(s.insert(p, (k, v))),
    decreases s.len(),
{
    let t = s.insert(p, (k, v));
    assert forall|i: int, j: int| 0 <= i < j < t.len() implies (#[trigger] t[i]).0 != (
    #[trigger] t[j]).0 by {
        if i < p && j < p {
            assert(t[i] == s[i] && t[j] == s[j]);
        } else if i < p && j == p {
            assert(t[i] == s[i]);
        } else if i < p && j > p {
            assert(t[i] == s[i] && t[j] == s[j - 1]);
        } else if i == p {
            assert(t[j] == s[j - 1]);
        } else {
            assert(t[i] == s[i - 1] && t[j] == s[j - 1]);
        }
    }
    if p == s.len() {
        assert(t =~= s.push((k, v)));
        lemma_pairs_as_map_push(s, k, v);
    } else {
        lemma_pairs_as_map_insert_at(s.drop_last(), p, k, v);
        assert(t.drop_last() =~= s.drop_last().insert(p, (k, v)));
        assert(t.last() == s.last());
        assert(pairs_as_map(t) =~= pairs_as_map(s).insert(k, v));
    }
}


/// Every key of the map is the key of some entry.
pub proof fn lemma_pairs_as_map_dom_index(s: Seq<(u32, Hash256)>, k: u32)
    requires
        pairs_as_map(s).dom().contains(k),
    ensures
        exists|i: int| 0 <= i < s.len() && (#[trigger] s[i]).0 == k,
    decreases s.len(),
{
    if s.len() == 0 {
    } else if s.last().0 == k {
        assert(s[s.len() - 1].0 == k);
    } else {
        assert(pairs_as_map(s.drop_last()).dom().contains(k));
        lemma_pairs_as_map_dom_index(s.drop_last(), k);
        let i = choose|i: int| 0 <= i < s.drop_last().len() && (#[trigger] s.drop_last()[i]).0 == k;
        assert(s[i].0 == k);
    }
}

} // verus!
