//! A verified level-lifecycle and scene-persistence core for a minigolf game.
//!
//! The crate models the runtime object graph (an entity/component store
//! organised as a forest), a type registry that decides which component
//! payloads are serialisable, a snapshot engine that extracts a subtree,
//! renders it to a textual scene format and instantiates it again, and the
//! level lifecycle state machine that drives load, completion and save.

pub mod digits;
pub mod errors;
pub mod names;
pub mod payload;
pub mod registry;
pub mod store;
pub mod lifecycle;
pub mod snapshot;
pub mod format;
pub mod instantiate;
pub mod level;
pub mod roundtrip;
