//! A single-threaded non-blocking connection server core.
//!
//! The crate verifies the logic of a cooperative polling loop that serves
//! many connections over one thread: a per-connection state machine that
//! resumes partial reads and writes at a saved cursor, and an ordered
//! registry of connections serviced in arrival order, with batched
//! removal by descending index at the end of each tick.
//!
//! All socket I/O stays outside the crate; callers perform the
//! non-blocking operations and hand the observed outcomes (bytes read,
//! byte counts written, flush completion) to the verified transitions.

pub mod conn;
pub mod registry;
