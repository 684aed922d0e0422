//! A deterministic event-scheduling engine over a word-addressed key-value
//! store.
//!
//! The engine keeps a calendar queue: a relative-delay ("delta") list of
//! near-term events in memory, plus per-absolute-tick buckets of far-term
//! events spilled into the store.  Each tick fires the events due at the
//! current counter by running an object's modifier state machine, and
//! re-inserts the continuation the state machine produces.

pub mod config;
pub mod err;
pub mod event;
pub mod game;
pub mod object;
pub mod player;
pub mod state;
pub mod store;
