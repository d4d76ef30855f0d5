//! The abstract model: a trie is a map from token sequences to values.

use vstd::prelude::*;

verus! {

/// The length of the longest prefix of `key`, among its prefixes of length at most `limit`,
/// that is a key of `entries`; `None` if no such prefix is a key.
pub open spec fn longest_prefix_len<K, V>(
    entries: Map<Seq<K>, V>,
    key: Seq<K>,
    limit: nat,
) -> Option<nat>
    decreases limit,
{
    if entries.contains_key(key.take(limit as int)) {
        Some(limit)
    } else if limit == 0 {
        None
    } else {
        longest_prefix_len(entries, key, (limit - 1) as nat)
    }
}

/// The value stored under the longest prefix of `key`, among its prefixes of length at most
/// `limit`, that is a key of `entries`; `None` if no such prefix is a key.
pub open spec fn longest_match_within<K, V>(
    entries: Map<Seq<K>, V>,
    key: Seq<K>,
    limit: nat,
) -> Option<V> {
    match longest_prefix_len(entries, key, limit) {
        Some(n) => Some(entries[key.take(n as int)]),
        None => None,
    }
}

/// The value stored under the longest prefix of `key` (the whole of `key` and the empty
/// sequence included) that is a key of `entries`; `None` if no prefix of `key` is a key.
pub open spec fn longest_match<K, V>(entries: Map<Seq<K>, V>, key: Seq<K>) -> Option<V> {
    longest_match_within(entries, key, key.len())
}

/// `copy` is what cloning `source` may produce: both are absent, or both are present and
/// the value in `copy` is a clone of the value in `source`.
pub open spec fn clone_of<V: Clone>(source: Option<V>, copy: Option<V>) -> bool {
    match (source, copy) {
        (Some(a), Some(b)) => cloned(a, b),
        (None, None) => true,
        _ => false,
    }
}

} // verus!
