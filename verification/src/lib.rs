//! A verified core for a small media playback node that derives its state
//! from an append-only data-availability log.
//!
//! The library holds the logic worth proving: the transaction codec (a JSON
//! wire format with a legacy single-transaction fallback), link validation
//! and canonicalization, the playback queue state machine with time-based
//! eviction, the replay/live synchronization cursor, and the outbound batch
//! accumulator.  Network, clock and process plumbing live outside the
//! library and hand it plain values.

pub mod ascii;
pub mod codec;
pub mod outbox;
pub mod state;
pub mod sync;
pub mod tx;
