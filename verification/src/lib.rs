//! The coordination core of a small personal file server: credential
//! and session handling, resumable chunked uploads reassembled from
//! independently sent byte ranges, and the guard that resolves untrusted
//! path input against a configured root. Everything here is verified;
//! the network, the clock and the filesystem stay with the caller, which
//! hands in plain values and carries the results out.
pub mod auth;
mod entropy;
pub mod exclusions;
pub mod listing;
pub mod multipart;
pub mod pathguard;
pub mod rangeset;
pub mod upload;
pub mod filetype;
pub mod performance;
pub mod secrets;
pub mod requests;
pub mod sizefmt;
pub mod store;
pub mod strutil;
pub mod urlcodec;

use vstd::prelude::*;

verus! {

/// Suggested size in bytes for one upload chunk, handed to clients when an
/// upload session is created.
pub const DEFAULT_CHUNK_SIZE: u64 = 1048576;

/// Number of seconds an authentication session stays live after it is minted.
pub const SESSION_TTL_SECS: u64 = 3600;

} // verus!
