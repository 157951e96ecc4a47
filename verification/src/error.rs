//! The ways in which a capture or a replay session ends early.

use vstd::prelude::*;

verus! {

/// Why an operation stopped. None of these is retried: each one is either a
/// data error or the verdict on a bundle.
#[derive(Clone, Copy, Debug, PartialEq, Eq, Structural)]
pub enum Error {
    /// A post-state node's key does not extend the boundary of the stray trie
    /// it was supplied for, or the skeleton cannot reach a node it needs.
    MalformedProof,
    /// Loading a post-state entry changed the hash of its stray trie.
    HashMismatch,
    /// A replayed get targets a key that the pre-state does not hold and that
    /// no earlier replayed put produced.
    IncompletePreState,
    /// A hash lookup missed the backing store.
    StorageMiss,
}

} // verus!
