//! Error taxonomy of the transfer library.

use vstd::prelude::*;

verus! {

/// Faults a transfer can run into.
///
/// Transport-level faults belong to the unverified I/O layer around the
/// library and are not represented here.
#[derive(Debug, Clone, PartialEq, Eq)]
pub enum ProtocolError {
    /// A requested chunk or metadata record is not in the store.
    NotFound,
    /// A message envelope could not be decoded, or a message could not be
    /// encoded because a field exceeds the wire limits.
    Decode,
    /// Finalizing found missing chunks, missing metadata, or a digest that
    /// does not match the file's hash.
    Integrity,
    /// The peer reported a failure on the given channel with a reason.
    RemoteFailure(u64, String),
}

} // verus!
