//! A versioned, hierarchical, content-addressed key-value store.
//!
//! A context is an immutable snapshot of a tree of byte-string leaves,
//! addressed by keys made of string segments, together with a protocol hash
//! held beside the tree. `set`, `remove_rec`, `copy` and `set_protocol`
//! return new contexts; `commit` registers a context in the store under a
//! BLAKE2b hash of its time, message, protocol hash and leaves, and
//! `checkout` finds it again by that hash.
use vstd::prelude::*;

pub mod keys;
pub mod tree;
pub mod encode;
pub mod context;
pub mod index;
pub mod laws;

pub use context::{copy, dir_mem, get, get_protocol, mem, remove_rec, set_protocol, IrminContext};
pub use index::{checkout, close, commit, init, ContextHash, IrminContextIndex, ProtocolHash};

verus! {

} // verus!
