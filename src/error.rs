//! The error kinds of the library.

use vstd::prelude::*;

verus! {

/// What went wrong. `WriteConflict` is the one error a caller may recover
/// from, by retrying in a fresh transaction.
#[derive(Debug, Clone, Copy, PartialEq, Eq, Structural)]
pub enum Error {
    /// Malformed input: bytes that do not decode, or SQL text that does not parse.
    Parse,
    /// A broken invariant: an unexpected key, a missing record.
    Internal,
    /// Another transaction has written the key concurrently or later.
    WriteConflict,
    /// The storage underneath failed.
    Io,
}

} // verus!
