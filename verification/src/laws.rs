//! What holds of every trie and of every longest-prefix match, proved from the contracts
//! of the operations and from the definitions of the model.
//!
//! Each law speaks of tries through their views and through `has_node`, as the contracts
//! do. Where a law follows an insertion, `before` and `after` are the trie on either side
//! of it, related as the contract of `Trie::insert` relates them.

use crate::model::{longest_match, longest_prefix_len};
use crate::trie::Trie;
use vstd::prelude::*;

verus! {

/// After `value` is inserted under `key`, looking `key` up finds `value`, and the trie
/// contains `key`.
pub proof fn lemma_insert_then_get<K, V>(
    before: Trie<K, V>,
    after: Trie<K, V>,
    key: Seq<K>,
    value: V,
)
    requires
        after@ == before@.insert(key, value),
    ensures
        after@.get(key) == Some(value),
        after@.contains_key(key),
{
}

/// Inserting twice under one key leaves what the second insertion alone would have left:
/// the key holds the second value, and nothing of the first remains.
pub proof fn lemma_insert_overwrites<K, V>(
    before: Trie<K, V>,
    between: Trie<K, V>,
    after: Trie<K, V>,
    key: Seq<K>,
    first: V,
    second: V,
)
    requires
        between@ == before@.insert(key, first),
        after@ == between@.insert(key, second),
    ensures
        after@.get(key) == Some(second),
        after@ == before@.insert(key, second),
{
}

/// An insertion under `key` changes nothing for any other key: it is contained afterwards
/// exactly if it was before, and with the same value.
pub proof fn lemma_insert_leaves_others<K, V>(
    before: Trie<K, V>,
    after: Trie<K, V>,
    key: Seq<K>,
    value: V,
    other: Seq<K>,
)
    requires
        after@ == before@.insert(key, value),
        other != key,
    ensures
        after@.contains_key(other) == before@.contains_key(other),
        after@.get(other) == before@.get(other),
{
}

/// A proper prefix of an inserted key gets a node by the insertion, yet is contained
/// afterwards only if it was contained before.
pub proof fn lemma_prefix_is_node_not_key<K, V>(
    before: Trie<K, V>,
    after: Trie<K, V>,
    key: Seq<K>,
    value: V,
    prefix: Seq<K>,
)
    requires
        after@ == before@.insert(key, value),
        forall|path: Seq<K>| #[trigger]
            after.has_node(path) <==> before.has_node(path) || path.is_prefix_of(key),
        prefix.is_prefix_of(key),
        prefix != key,
    ensures
        after.has_node(prefix),
        after@.contains_key(prefix) == before@.contains_key(prefix),
{
}

/// The longest match is the value stored under a prefix of the query that is a key, and
/// no longer prefix of the query is a key. There is none exactly if no prefix is a key.
pub proof fn lemma_longest_match_is_longest<K, V>(entries: Map<Seq<K>, V>, key: Seq<K>)
    ensures
        (match longest_prefix_len(entries, key, key.len()) {
            Some(n) => {
                &&& n <= key.len()
                &&& entries.contains_key(key.take(n as int))
                &&& longest_match(entries, key) == Some(entries[key.take(n as int)])
                &&& forall|m: int|
                    n < m <= key.len() ==> !entries.contains_key(#[trigger] key.take(m))
            },
            None => {
                &&& longest_match(entries, key) is None
                &&& forall|m: int|
                    0 <= m <= key.len() ==> !entries.contains_key(#[trigger] key.take(m))
            },
        }),
{
    lemma_longest_prefix_len_bounds(entries, key, key.len());
}

/// What `longest_prefix_len` returns for a limit: a key no longer than the limit, with no
/// key among the longer prefixes up to the limit; or nothing, with no key up to the limit.
pub proof fn lemma_longest_prefix_len_bounds<K, V>(
    entries: Map<Seq<K>, V>,
    key: Seq<K>,
    limit: nat,
)
    ensures
        (match longest_prefix_len(entries, key, limit) {
            Some(n) => {
                &&& n <= limit
                &&& entries.contains_key(key.take(n as int))
                &&& forall|m: int| n < m <= limit ==> !entries.contains_key(#[trigger] key.take(m))
            },
            None => forall|m: int|
                0 <= m <= limit ==> !entries.contains_key(#[trigger] key.take(m)),
        }),
    decreases limit,
{
    if !entries.contains_key(key.take(limit as int)) && limit > 0 {
        lemma_longest_prefix_len_bounds(entries, key, (limit - 1) as nat);
    }
}

/// If no prefix of `key` longer than `from` and no longer than `to` is a key, the longest
/// stored prefix among those up to `to` is the longest among those up to `from`.
pub proof fn lemma_longest_prefix_len_skips<K, V>(
    entries: Map<Seq<K>, V>,
    key: Seq<K>,
    from: nat,
    to: nat,
)
    requires
        from <= to,
        forall|n: int| from < n <= to ==> !entries.contains_key(#[trigger] key.take(n)),
    ensures
        longest_prefix_len(entries, key, to) == longest_prefix_len(entries, key, from),
    decreases to - from,
{
    if from < to {
        lemma_longest_prefix_len_skips(entries, key, from, (to - 1) as nat);
    }
}

/// A query that is itself a key matches its own value, whatever shorter keys are stored.
pub proof fn lemma_stored_key_matches_itself<K, V>(entries: Map<Seq<K>, V>, key: Seq<K>)
    requires
        entries.contains_key(key),
    ensures
        longest_match(entries, key) == Some(entries[key]),
{
    assert(key.take(key.len() as int) =~= key);
}

/// Where the empty sequence is a key, every query has a match; where it is the only key,
/// the match is its value.
pub proof fn lemma_empty_key_matches_all<K, V>(entries: Map<Seq<K>, V>, key: Seq<K>)
    requires
        entries.contains_key(Seq::<K>::empty()),
    ensures
        longest_match(entries, key) is Some,
        (forall|other: Seq<K>| #[trigger] entries.contains_key(other) ==> other.len() == 0)
            ==> longest_match(entries, key) == Some(entries[Seq::<K>::empty()]),
{
    lemma_longest_prefix_len_bounds(entries, key, key.len());
    assert(key.take(0) =~= Seq::<K>::empty());
}

/// An insertion into a well-formed trie leaves a well-formed trie: the nodes are still the
/// root and the prefixes of the stored keys.
pub proof fn lemma_insert_preserves_well_formed<K, V>(
    before: Trie<K, V>,
    after: Trie<K, V>,
    key: Seq<K>,
    value: V,
)
    requires
        before.well_formed(),
        after@ == before@.insert(key, value),
        forall|path: Seq<K>| #[trigger]
            after.has_node(path) <==> before.has_node(path) || path.is_prefix_of(key),
    ensures
        after.well_formed(),
{
    assert forall|path: Seq<K>| #[trigger]
        after.has_node(path) <==> path.len() == 0 || exists|stored: Seq<K>| #[trigger]
            after@.contains_key(stored) && path.is_prefix_of(stored) by {
        if before.has_node(path) && path.len() > 0 {
            // The key that `path` led to before is still stored.
            let stored = choose|stored: Seq<K>| #[trigger]
                before@.contains_key(stored) && path.is_prefix_of(stored);
            assert(after@.contains_key(stored));
        }
        if path.is_prefix_of(key) {
            assert(after@.contains_key(key));
        }
    }
}

} // verus!
