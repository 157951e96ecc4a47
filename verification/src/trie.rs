//! The trie capability that the execution engine sees.

use vstd::prelude::*;
use crate::error::Error;
use crate::nibbles::key_fits;

pub use crate::bundle::PreStateAndPostState;
pub use crate::capture::TrieCaptureFraudProof;
pub use crate::nibbles::{b_extends_a, key_as_nibbles, Nibbles};
pub use crate::replay::TrieVerifyFraudProof;

verus! {

/// A key-value trie. A capture session stands in for the trie during normal
/// execution, a replay session during the replay of a fraud proof.
pub trait Trie {
    /// The session's invariant.
    spec fn wf(&self) -> bool;

    /// The value under `key`; the empty value where the key holds none.
    fn get(&mut self, key: Vec<u8>) -> (r: Result<Vec<u8>, Error>)
        requires
            old(self).wf(),
            key_fits(key@),
        ensures
            final(self).wf(),
    ;

    /// Writes `value` under `key`.
    fn put(&mut self, key: Vec<u8>, value: Vec<u8>) -> (r: Result<(), Error>)
        requires
            old(self).wf(),
            key_fits(key@),
        ensures
            final(self).wf(),
    ;
}

} // verus!
