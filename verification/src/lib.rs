//! A verified credit and subscription ledger for content-addressed blob
//! storage.  Accounts buy credits with native tokens and spend them to keep
//! blobs stored for a chosen number of epochs; several accounts may
//! co-subscribe to one blob.  The library is the deterministic state machine:
//! the account ledger, the blob registry with its subscription groups, the
//! expiry index, the added/pending resolution queues, credit approvals, and
//! the exact credit arithmetic that ties them together.
//!
//! Credit and capacity amounts are signed 128-bit integers rather than the
//! big integers of an unbounded ledger.  Every arithmetic step is checked:
//! within the 128-bit range the accounting is exact (a single charge is at
//! most a 64-bit size times a 63-bit term, so one step never wraps), and a
//! balance that would leave the range is refused with its own failure kind
//! instead of wrapping or saturating.  An unbounded ledger accepts a few
//! inputs this one refuses; it never disagrees with it on an accepted one.

use vstd::prelude::*;

pub mod bmap;
pub mod codec;
pub mod display;
pub mod hashing;
pub mod imap;
pub mod laws;
pub mod ord;
pub mod params;
pub mod rpc;
pub mod state;
pub mod types;

verus! {

/// The minimum time-to-live for a blob subscription, in epochs (one hour).
pub const MIN_TTL: i64 = 3600;

} // verus!
