//! Nodes of the tree, and the reasoning about paths through them.
//!
//! A path is a sequence of tokens, followed from a node edge by edge. Everything a tree of
//! nodes can be asked is a question about `slot`: whether a path exists, and which value,
//! if any, stands at its end.

use std::collections::HashMap;
use vstd::prelude::*;

verus! {

/// One node of the tree: an edge to a child for each token that continues some stored key
/// from here, and the value stored under the token sequence that leads here, if any.
pub(crate) struct TrieNode<K, V> {
    pub(crate) children: HashMap<K, TrieNode<K, V>>,
    pub(crate) value: Option<V>,
}

impl<K, V> TrieNode<K, V> {
    /// A node without children and without a value.
    pub(crate) fn empty() -> (node: Self)
        ensures
            node.value is None,
            node.children@ == Map::<K, TrieNode<K, V>>::empty(),
    {
        TrieNode { children: HashMap::new(), value: None }
    }

    /// The node reached from this one by following `path` edge by edge, if every edge exists.
    pub(crate) open spec fn descend(self, path: Seq<K>) -> Option<Self>
        decreases path.len(),
    {
        if path.len() == 0 {
            Some(self)
        } else if self.children@.contains_key(path[0]) {
            self.children@[path[0]].descend(path.drop_first())
        } else {
            None
        }
    }

    /// What stands at the end of `path`: nothing if some edge of the path is missing, else
    /// the value field of the node found there.
    pub(crate) open spec fn slot(self, path: Seq<K>) -> Option<Option<V>> {
        match self.descend(path) {
            Some(node) => Some(node.value),
            None => None,
        }
    }

    /// Whether every edge of `path` exists.
    pub(crate) open spec fn has_node(self, path: Seq<K>) -> bool {
        self.slot(path) is Some
    }

    /// The value stored at the end of `path`, if the path exists and ends in a value.
    pub(crate) open spec fn lookup(self, path: Seq<K>) -> Option<V> {
        match self.slot(path) {
            Some(value) => value,
            None => None,
        }
    }

    /// The map from each path that ends in a value to that value.
    pub(crate) open spec fn entries(self) -> Map<Seq<K>, V> {
        Map::new(|path: Seq<K>| self.lookup(path) is Some, |path: Seq<K>| self.lookup(path)->0)
    }

    /// Following `head` and then `tail` is following their concatenation.
    pub(crate) proof fn lemma_descend_concat(self, head: Seq<K>, tail: Seq<K>)
        ensures
            self.descend(head + tail) == (match self.descend(head) {
                Some(node) => node.descend(tail),
                None => None,
            }),
        decreases head.len(),
    {
        if head.len() > 0 {
            assert((head + tail).drop_first() =~= head.drop_first() + tail);
            if self.children@.contains_key(head[0]) {
                self.children@[head[0]].lemma_descend_concat(head.drop_first(), tail);
            }
        }
    }

    /// Following `path` and then the edge labelled `token` is following `path.push(token)`.
    pub(crate) proof fn lemma_descend_push(self, path: Seq<K>, token: K)
        ensures
            self.descend(path.push(token)) == (match self.descend(path) {
                Some(node) => if node.children@.contains_key(token) {
                    Some(node.children@[token])
                } else {
                    None
                },
                None => None,
            }),
    {
        let step = seq![token];
        assert(path.push(token) =~= path + step);
        self.lemma_descend_concat(path, step);
        if let Some(node) = self.descend(path) {
            if node.children@.contains_key(token) {
                assert(node.descend(step) == node.children@[token].descend(step.drop_first()));
            }
        }
    }
}

/// Below itself, `node` shows what `root` shows below `path`. At `path` itself `root` may
/// lack a node; `node` then has neither a value nor a descendant.
pub(crate) open spec fn mirrors<K, V>(
    node: TrieNode<K, V>,
    root: TrieNode<K, V>,
    path: Seq<K>,
) -> bool {
    forall|rest: Seq<K>| #[trigger]
        node.slot(rest) == if rest.len() == 0 {
            Some(root.lookup(path))
        } else {
            root.slot(path + rest)
        }
}

/// `after` is `before` with a node in place at every prefix of `path` and with `sub` as
/// the subtree at `path`. Off the way to `path` the two do not differ.
pub(crate) open spec fn grafted<K, V>(
    after: TrieNode<K, V>,
    before: TrieNode<K, V>,
    path: Seq<K>,
    sub: TrieNode<K, V>,
) -> bool {
    forall|s: Seq<K>| #[trigger]
        after.slot(s) == if path.is_prefix_of(s) {
            sub.slot(s.skip(path.len() as int))
        } else if s.is_prefix_of(path) {
            Some(before.lookup(s))
        } else {
            before.slot(s)
        }
}

/// One step down. The node at `path` keeps its value and gets `child_final` as its child
/// for `token`, where `child` is the child it had, or an empty node if it had none. Then
/// the graft at `path` is a graft of `child_final` at `path.push(token)`, and `child`
/// mirrors the old tree there.
pub(crate) proof fn lemma_graft_step<K, V>(
    before: TrieNode<K, V>,
    after: TrieNode<K, V>,
    path: Seq<K>,
    token: K,
    node: TrieNode<K, V>,
    node_final: TrieNode<K, V>,
    child: TrieNode<K, V>,
    child_final: TrieNode<K, V>,
)
    requires
        mirrors(node, before, path),
        grafted(after, before, path, node_final),
        node_final.value == node.value,
        node_final.children@ == node.children@.insert(token, child_final),
        node.children@.contains_key(token) ==> child == node.children@[token],
        !node.children@.contains_key(token) ==> child.value is None && child.children@
            == Map::<K, TrieNode<K, V>>::empty(),
    ensures
        mirrors(child, before, path.push(token)),
        grafted(after, before, path.push(token), child_final),
{
    let longer = path.push(token);
    assert forall|rest: Seq<K>| #[trigger]
        child.slot(rest) == if rest.len() == 0 {
            Some(before.lookup(longer))
        } else {
            before.slot(longer + rest)
        } by {
        // What `child` shows at `rest`, `node` shows at `token` followed by `rest`.
        let from_node = seq![token] + rest;
        assert(from_node.drop_first() =~= rest);
        assert(path + from_node =~= longer + rest);
        assert(node.slot(from_node) == before.slot(longer + rest));
    }
    assert forall|s: Seq<K>| #[trigger]
        after.slot(s) == if longer.is_prefix_of(s) {
            child_final.slot(s.skip(longer.len() as int))
        } else if s.is_prefix_of(longer) {
            Some(before.lookup(s))
        } else {
            before.slot(s)
        } by {
        if path.is_prefix_of(s) {
            let rest = s.skip(path.len() as int);
            assert(path + rest =~= s);
            if rest.len() > 0 && rest[0] == token {
                // `s` runs through the new child.
                assert(rest.drop_first() =~= s.skip(longer.len() as int));
            } else if rest.len() > 0 {
                // `s` leaves `path` by another edge, which `node_final` has from `node`.
                if longer.is_prefix_of(s) {
                    assert(s.subrange(0, longer.len() as int)[path.len() as int] == token);
                }
                assert(node.slot(rest) == before.slot(path + rest));
            }
        }
    }
}

/// The last step. The node at `path` keeps its children and gets `value`. Then the graft
/// at `path` has added the entry for `path` and left every other entry as it was, and the
/// nodes are those there were and those at the prefixes of `path`.
pub(crate) proof fn lemma_graft_value<K, V>(
    before: TrieNode<K, V>,
    after: TrieNode<K, V>,
    path: Seq<K>,
    node: TrieNode<K, V>,
    node_final: TrieNode<K, V>,
    value: V,
)
    requires
        mirrors(node, before, path),
        grafted(after, before, path, node_final),
        node_final.value == Some(value),
        node_final.children == node.children,
    ensures
        after.entries() == before.entries().insert(path, value),
        forall|s: Seq<K>| #[trigger]
            after.has_node(s) <==> before.has_node(s) || s.is_prefix_of(path),
{
    assert forall|s: Seq<K>| #[trigger]
        after.slot(s) == if s == path {
            Some(Some(value))
        } else if s.is_prefix_of(path) {
            Some(before.lookup(s))
        } else {
            before.slot(s)
        } by {
        if path.is_prefix_of(s) {
            let rest = s.skip(path.len() as int);
            assert(path + rest =~= s);
            if rest.len() > 0 {
                assert(node.slot(rest) == before.slot(s));
            }
        }
    }
    assert(after.entries() =~= before.entries().insert(path, value));
}

} // verus!
