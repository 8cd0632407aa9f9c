//! Verified core of an HLS segment fetcher.
//!
//! Given a playlist (already parsed into plain data), this library makes every
//! decision of a download session: choosing a bandwidth variant of a master
//! playlist and resolving its URL, selecting the segments that fall into a
//! requested time window, admitting fetches under a concurrency bound, and
//! re-serializing out-of-order fetch results into ascending-index writes for
//! the sink, with exactly one close signal per session.
//!
//! Network transfer, playlist-document parsing and the sink itself stay
//! outside: callers hand in plain values (strings, byte buffers, durations in
//! milliseconds) and perform the writes this library tells them to perform.

pub mod clock;
pub mod errors;
pub mod playlist;
pub mod reassembly;
pub mod session;
pub mod scheduler;
pub mod segment;
pub mod selector;
pub mod urls;
pub mod variant;
