//! Names of collections, fit to stand in a file's name.

use vstd::prelude::*;

verus! {

/// Whether `c` may stand in the name of a collection: an ASCII letter, an
/// ASCII digit or the underscore.
pub open spec fn is_name_char(c: char) -> bool {
    ('a' <= c && c <= 'z') || ('A' <= c && c <= 'Z') || ('0' <= c && c <= '9') || c == '_'
}

/// `text` without the characters that may not stand in a name, the others
/// in their order.
pub open spec fn name_of(text: Seq<char>) -> Seq<char> {
    text.filter(|c: char| is_name_char(c))
}

/// Calls `String::push`.
///
/// Trusted, not proved: std documents that the call appends the given
/// `char` to the end of the string.
#[verifier::external_body]
fn push_char(text: &mut String, c: char)
    ensures
        final(text)@ == old(text)@.push(c),
{
    text.push(c)
}

/// Whether `c` may stand in the name of a collection.
pub fn name_char(c: char) -> (r: bool)
    ensures
        r == is_name_char(c),
{
    ('a' <= c && c <= 'z') || ('A' <= c && c <= 'Z') || ('0' <= c && c <= '9') || c == '_'
}

/// The name of the collection that a tag stands for: `tag` with every
/// character dropped that is no ASCII letter, ASCII digit or underscore.
pub fn collection_name(tag: &str) -> (r: String)
    ensures
        r@ == name_of(tag@),
{
    let mut name = String::new();
    let chars = tag.chars();
    for c in it: chars
        invariant
            it.seq() == tag@,
            name@ == name_of(tag@.take(it.index() as int)),
    {
        proof {
            reveal(Seq::filter);
            let upto = tag@.take(it.index() + 1);
            assert(upto.drop_last() =~= tag@.take(it.index() as int));
        }
        if name_char(c) {
            push_char(&mut name, c);
        }
    }
    proof {
        assert(tag@.take(tag@.len() as int) =~= tag@);
    }
    name
}

} // verus!
