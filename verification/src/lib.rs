//! Deterministic state-machine core of a content-extraction control plane.
//!
//! The library keeps two coupled views of the control-plane facts: a
//! transactional forward index (the source of truth, a column store of
//! typed records) and a set of in-memory reverse indexes that make
//! scheduling queries cheap.  Every mutation arrives as a
//! `StateMachineUpdateRequest`; the dispatcher writes the forward index
//! inside one transaction, commits, and only then touches the reverse
//! indexes, so a failed request leaves no observable half-state.

pub mod codec;
pub mod kv;
pub mod laws;
pub mod model;
pub mod rebuild;
pub mod requests;
pub mod state;
pub mod store;

pub use kv::KvList;
pub use kv::Stored;
pub use kv::StringSet;
