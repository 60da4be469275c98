use vstd::prelude::*;

verus! {

/// Why an operation on the store did not succeed.
#[derive(Clone, Copy, Debug, PartialEq, Eq, Structural)]
pub enum Errors {
    /// The identifier (or its collection) is not live in the store.
    NotFound,
    /// The identifier has already been used in this collection.
    DuplicateId,
    /// Stored bytes could not be decoded as the expected type.
    Corrupt,
    /// The backing log could not take or give the bytes.
    Io,
}

} // verus!
