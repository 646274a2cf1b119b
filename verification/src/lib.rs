//! Eventually-consistent replicated sequences and maps.
//!
//! Each replica owns its state together with a tape: the ordered log of
//! operations it generated locally since the last extraction.  Tapes are
//! exchanged between replicas and replayed; replaying the same set of
//! operations, in any order and with duplicates, drives all replicas to the
//! same visible state.

pub mod entries;
pub mod ident;
pub mod list;
pub mod map;
pub mod taped;
pub mod values;
pub mod vclock;

use vstd::prelude::*;

verus! {

/// Errors surfaced by index-based operations and by `replay`.
#[derive(Clone, Copy, PartialEq, Eq, Structural, Debug)]
pub enum SyncError {
    /// An index-based operation referenced a position beyond the current
    /// visible length.
    OutOfRange,
    /// A replayed operation carries an internally inconsistent identity or
    /// causal context; the batch is rejected without applying any part of it.
    MalformedOperation,
}

} // verus!
