//! Character-level primitives of the tokenizer that rest on the standard
//! library's Unicode tables: lowercase folding and whitespace
//! classification.  Both are pure functions of the character, named here by
//! uninterpreted spec functions.

use vstd::prelude::*;

verus! {

/// The Unicode lowercase mapping of a character, as `char::to_lowercase`
/// yields it.
pub uninterp spec fn lower_chars(c: char) -> Seq<char>;

/// Whether a character has the Unicode `White_Space` property, as
/// `char::is_whitespace` reports it.
pub uninterp spec fn char_is_space(c: char) -> bool;

/// Relies on `char::to_lowercase`: the Unicode lowercase mapping of the
/// character, a function of the character alone.
#[verifier::external_body]
pub(crate) fn to_lower(c: char) -> (r: Vec<char>)
    ensures
        r@ == lower_chars(c),
{
    c.to_lowercase().collect()
}

/// Relies on `char::is_whitespace`: whether the character has the Unicode
/// `White_Space` property, a function of the character alone.
#[verifier::external_body]
pub(crate) fn is_space(c: char) -> (r: bool)
    ensures
        r == char_is_space(c),
{
    c.is_whitespace()
}

/// Relies on `String::push`: appends exactly the given character.
#[verifier::external_body]
pub(crate) fn push_char(s: &mut String, c: char)
    ensures
        final(s)@ == old(s)@.push(c),
{
    s.push(c);
}

} // verus!
