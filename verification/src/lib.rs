//! A prefix tree keyed by sequences of tokens.
//!
//! A [`Trie`] maps finite token sequences to values. Besides exact lookup it answers
//! longest-prefix queries: the value stored under the longest stored key that is a prefix of
//! the query.
//!
//! The abstract state of a trie is a `Map<Seq<K>, V>`, its view. Every operation is specified
//! against that map; [`model`] defines what a longest-prefix match is, and [`laws`] collects
//! the algebraic facts that follow.

pub mod laws;
pub mod model;
mod node;
pub mod trie;

pub use crate::trie::Trie;
