//! Record identifiers.

use vstd::prelude::*;

verus! {

/// Whether `c` is a digit or one of the letters `a` to `f`.
pub open spec fn is_lower_hex(c: char) -> bool {
    ('0' <= c && c <= '9') || ('a' <= c && c <= 'f')
}

/// Whether `text` has the form in which a random identifier is written:
/// 36 characters, lower-case hexadecimal digits in groups of 8, 4, 4, 4 and
/// 12 with a hyphen between the groups, the third group beginning with the
/// version digit `4` and the fourth with one of `8`, `9`, `a`, `b`.
pub open spec fn is_random_id(text: Seq<char>) -> bool {
    &&& text.len() == 36
    &&& forall|i: int|
        0 <= i < 36 ==> if i == 8 || i == 13 || i == 18 || i == 23 {
            #[trigger] text[i] == '-'
        } else {
            is_lower_hex(text[i])
        }
    &&& text[14] == '4'
    &&& (text[19] == '8' || text[19] == '9' || text[19] == 'a' || text[19] == 'b')
}

/// Calls `Uuid::new_v4` and renders the value with `to_string`.
///
/// Trusted, not proved. The value is random, so only its form is claimed:
/// a version 4 UUID in the hyphenated lower-case form that the crate's
/// `Display` writes. Which identifier comes back, and that it differs from
/// any other, is not claimed; the store checks every identifier it is given.
/// The call panics where the operating system has no random bytes to give.
#[verifier::external_body]
pub(crate) fn fresh_id() -> (id: String)
    ensures
        is_random_id(id@),
{
    uuid::Uuid::new_v4().to_string()
}

} // verus!
