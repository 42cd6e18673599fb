//! The ways in which building or reading a delta record can fail.

use vstd::prelude::*;

verus! {

/// `std::io::Error`, the error of the record writer: carried along, never
/// looked into.
#[verifier::external_type_specification]
#[verifier::external_body]
pub struct ExIoError(std::io::Error);

/// Why an operation on a delta record did not complete.
#[derive(Debug)]
pub enum Error {
    /// A tag byte other than those of `Deletion` and `Addition` was met: the
    /// stored record is corrupt, and nothing sensible can be read from it.
    UnknownTag(u8),
    /// A field key did not follow the key written before it: the caller handed
    /// over a record that is not strictly ascending.
    UnorderedKeys,
    /// The record writer refused an entry.
    Io(std::io::Error),
}

} // verus!
