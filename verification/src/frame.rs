//! Frames: how one payload is laid down in a log.

use crate::model::{frame_of, HEADER_LEN};
use vstd::prelude::*;

verus! {

/// Declares `bincode::ErrorKind`, the error of bincode's calls, as a type
/// of which nothing is known: it is only carried from the call to the
/// place where it becomes an error of the store.
#[verifier::external_type_specification]
#[verifier::external_body]
pub struct ExErrorKind(bincode::ErrorKind);

/// Calls `bincode::serialize` on a vector of bytes.
///
/// Trusted, not proved: with the options that this function of bincode
/// fixes (fixed-width little-endian integers, no byte limit) a sequence is
/// written as its length in eight little-endian bytes followed by its
/// elements, and a `u8` element as itself. The writer is a vector in memory
/// and no limit is set, so the call gives no error for such a value. The
/// frame must be no longer than a vector can be, or the call would panic
/// when it reserves the frame's bytes.
#[verifier::external_body]
pub(crate) fn encode_frame(payload: &Vec<u8>) -> (r: Result<Vec<u8>, bincode::Error>)
    requires
        HEADER_LEN + payload.len() <= isize::MAX,
    ensures
        r is Ok,
        r->Ok_0@ == frame_of(payload@),
{
    bincode::serialize(payload)
}

} // verus!
