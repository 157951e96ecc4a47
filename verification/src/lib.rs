//! A verifiable 16-ary trie for optimistic-sequencer fraud proofs.
//!
//! A capture session runs gets and puts against the full trie while it
//! records what it read and wrote, and derives a proof bundle from that
//! record. A replay session runs the same operations again, against a
//! skeleton that holds only the nodes it received, and stops at the first
//! inconsistency.
//!
//! The modules, leaves first:
//! - `digest`: the 256-bit hash.
//! - `nibbles`: keys as descent paths.
//! - `node`: the three node shapes and the rule that hashes them.
//! - `db`: the content-addressed backing store.
//! - `descent`: descending a trie and rewriting the path above a change.
//! - `bundle`: the proof bundle and its minimizer.
//! - `capture`, `replay`: the two sessions; `trie`: what both offer.
//! - `laws`, `semantics`, `honest`, `completeness`, `soundness`: what is
//!   proved of them.

pub mod bundle;
pub mod capture;
pub mod completeness;
pub mod db;
pub mod descent;
pub mod digest;
pub mod error;
pub mod honest;
pub mod laws;
pub mod nibbles;
pub mod node;
pub mod replay;
pub mod semantics;
pub mod soundness;
pub mod trie;

pub use crate::digest::{hash, null_hash, Digest};
pub use crate::error::Error;
