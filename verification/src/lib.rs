//! Byzantine fault tolerant agreement core.
//!
//! A fixed set of `n = 3f + 1` replicas agrees on a single, totally ordered
//! sequence of state-transition requests while tolerating up to `f`
//! arbitrarily faulty replicas.  The library holds the protocol logic alone:
//! message types, quorum certificate tracking, the per-replica three-phase
//! state machine (pre-prepare / prepare / commit), timeout-driven view
//! change, checkpoint-based log compaction, and the client driver.  Wire
//! transport, authentication and timers are the caller's concern: every
//! handler takes an already-delivered message and returns the messages to
//! send next.

pub mod client;
pub mod config;
pub mod digest;
pub mod messages;
pub mod replica;
pub mod safety;
pub mod tracker;
pub mod view_change;
