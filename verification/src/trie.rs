//! The trie and its operations.
//!
//! Tokens are looked up in hash maps, so what the operations promise is promised for token
//! types that behave as hash-map keys must: hashing is deterministic, and `==` holds of two
//! tokens exactly when they are the same value. `vstd` calls this `obeys_key_model`; every
//! contract below is stated under it. No operation has a precondition, and none panics.

use crate::laws::{lemma_insert_preserves_well_formed, lemma_longest_prefix_len_skips};
use crate::model::{clone_of, longest_match, longest_match_within};
use crate::node::{grafted, lemma_graft_step, lemma_graft_value, mirrors, TrieNode};
use std::hash::Hash;
use vstd::prelude::*;
use vstd::std_specs::hash::obeys_key_model;

verus! {

/// A prefix tree from sequences of tokens `K` to values `V`.
///
/// Its view is the map from each stored token sequence to the value last inserted for it.
pub struct Trie<K, V> {
    root: TrieNode<K, V>,
}

impl<K, V> View for Trie<K, V> {
    type V = Map<Seq<K>, V>;

    closed spec fn view(&self) -> Map<Seq<K>, V> {
        self.root.entries()
    }
}

impl<K, V> Trie<K, V> {
    /// Whether the tree holds a node at the end of `path`, with or without a value.
    pub closed spec fn has_node(&self, path: Seq<K>) -> bool {
        self.root.has_node(path)
    }

    /// The tree holds the root and, besides it, a node for exactly the prefixes of the
    /// stored keys: no branch ends without a value.
    pub open spec fn well_formed(&self) -> bool {
        forall|path: Seq<K>| #[trigger]
            self.has_node(path) <==> path.len() == 0 || exists|key: Seq<K>| #[trigger]
                self@.contains_key(key) && path.is_prefix_of(key)
    }
}

impl<K: Hash + Eq, V: Clone> Trie<K, V> {
    /// Creates an empty trie: nothing is stored, and the root is its only node.
    pub fn new() -> (trie: Self)
        ensures
            trie@ == Map::<Seq<K>, V>::empty(),
            forall|path: Seq<K>| #[trigger] trie.has_node(path) <==> path.len() == 0,
            trie.well_formed(),
    {
        Trie { root: TrieNode::empty() }
    }

    /// Returns a copy of the value stored under `key`, or `None` if `key` is not stored,
    /// whether or not `key` is a prefix of a stored key.
    pub fn get(&self, key: Vec<K>) -> (found: Option<V>)
        ensures
            obeys_key_model::<K>() ==> clone_of(self@.get(key@), found),
    {
        match self.traverse(&key) {
            Some(node) => node.value.clone(),
            None => None,
        }
    }

    /// Tells whether a value is stored under `key`.
    pub fn contains(&self, key: Vec<K>) -> (present: bool)
        ensures
            obeys_key_model::<K>() ==> present == self@.contains_key(key@),
    {
        match self.traverse(&key) {
            Some(node) => node.value.is_some(),
            None => false,
        }
    }

    /// Returns a copy of the value stored under the longest prefix of `key` that is itself a
    /// stored key, or `None` if no prefix of `key` is stored. The empty sequence and `key` as
    /// a whole both count as prefixes of `key`.
    pub fn best_match(&self, key: Vec<K>) -> (found: Option<V>)
        ensures
            obeys_key_model::<K>() ==> clone_of(longest_match(self@, key@), found),
    {
        let mut cur = &self.root;
        let mut best = cur.value.clone();
        let mut i: usize = 0;
        while i < key.len()
            invariant_except_break
                obeys_key_model::<K>() ==> self.root.descend(key@.take(i as int)) == Some(*cur),
                obeys_key_model::<K>() ==> clone_of(
                    longest_match_within(self@, key@, i as nat),
                    best,
                ),
            invariant
                i <= key.len(),
            ensures
                obeys_key_model::<K>() ==> clone_of(longest_match(self@, key@), best),
            decreases key.len() - i,
        {
            proof {
                self.root.lemma_descend_push(key@.take(i as int), key@[i as int]);
                assert(key@.take(i as int).push(key@[i as int]) =~= key@.take(i + 1));
            }
            match cur.children.get(&key[i]) {
                Some(child) => {
                    cur = child;
                    match &cur.value {
                        Some(v) => {
                            best = Some(v.clone());
                        },
                        None => {},
                    }
                },
                None => {
                    proof {
                        if obeys_key_model::<K>() {
                            // No node stands at the prefix of length `i + 1`, so none stands
                            // at a longer one.
                            assert forall|n: int| i < n <= key@.len() implies !self@.contains_key(
                                #[trigger] key@.take(n),
                            ) by {
                                self.root.lemma_descend_concat(
                                    key@.take(i + 1),
                                    key@.subrange(i + 1, n),
                                );
                                assert(key@.take(i + 1) + key@.subrange(i + 1, n) =~= key@.take(n));
                            }
                            lemma_longest_prefix_len_skips(self@, key@, i as nat, key@.len());
                        }
                    }
                    break ;
                },
            }
            i += 1;
        }
        best
    }

    /// Stores `value` under `key`, in place of the value stored there before, if any. Every
    /// other entry stays as it was. A node is created for each prefix of `key` that had
    /// none, and no node is removed.
    pub fn insert(&mut self, key: Vec<K>, value: V)
        ensures
            obeys_key_model::<K>() ==> final(self)@ == old(self)@.insert(key@, value),
            obeys_key_model::<K>() ==> forall|path: Seq<K>| #[trigger]
                final(self).has_node(path) <==> old(self).has_node(path) || path.is_prefix_of(key@),
            obeys_key_model::<K>() && old(self).well_formed() ==> final(self).well_formed(),
    {
        let ghost path = key@;
        let ghost after = *final(self);
        let mut cur = &mut self.root;
        proof {
            assert forall|s: Seq<K>| s.skip(0) == s by {}
        }
        for part in it: key.into_iter()
            invariant
                it.seq() == path,
                obeys_key_model::<K>() ==> mirrors(*cur, old(self).root, path.take(it.index())),
                obeys_key_model::<K>() ==> grafted(
                    after.root,
                    old(self).root,
                    path.take(it.index()),
                    *final(cur),
                ),
        {
            let ghost node = *cur;
            let ghost node_final = *final(cur);
            cur = cur.children.entry(part).or_insert(TrieNode::empty());
            proof {
                if obeys_key_model::<K>() {
                    lemma_graft_step(
                        old(self).root,
                        after.root,
                        path.take(it.index()),
                        part,
                        node,
                        node_final,
                        *cur,
                        *final(cur),
                    );
                    assert(path.take(it.index()).push(part) =~= path.take(it.index() + 1));
                }
            }
        }
        let ghost node = *cur;
        cur.value = Some(value);
        proof {
            if obeys_key_model::<K>() {
                lemma_graft_value(old(self).root, after.root, path, node, *cur, value);
                if old(self).well_formed() {
                    lemma_insert_preserves_well_formed(*old(self), after, path, value);
                }
            }
        }
    }

    /// Walks from the root along `key` and returns the node at its end, or `None` as soon as
    /// an edge is missing.
    fn traverse(&self, key: &Vec<K>) -> (end: Option<&TrieNode<K, V>>)
        ensures
            obeys_key_model::<K>() ==> self.root.descend(key@) == (match end {
                Some(node) => Some(*node),
                None => None,
            }),
    {
        let mut cur = &self.root;
        let mut i: usize = 0;
        assert(key@.skip(0) =~= key@);
        while i < key.len()
            invariant
                i <= key.len(),
                obeys_key_model::<K>() ==> self.root.descend(key@) == cur.descend(
                    key@.skip(i as int),
                ),
            decreases key.len() - i,
        {
            match cur.children.get(&key[i]) {
                Some(child) => {
                    assert(key@.skip(i as int).drop_first() =~= key@.skip(i + 1));
                    cur = child;
                },
                None => {
                    return None;
                },
            }
            i += 1;
        }
        Some(cur)
    }
}

} // verus!
