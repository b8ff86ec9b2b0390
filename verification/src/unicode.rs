//! Properties of characters that the standard library takes from the Unicode
//! tables.
//!
//! Nothing here is proved: each function asks the standard library and gives
//! the answer a name that contracts can speak of.

use vstd::prelude::*;

verus! {

/// Whether a character has the Unicode property `Uppercase`.
pub uninterp spec fn is_uppercase(c: char) -> bool;

/// Whether a character has the Unicode property `White_Space`.
pub uninterp spec fn is_whitespace(c: char) -> bool;

/// The characters that a character becomes in upper case: itself where it
/// has no upper case, and more than one for some.
pub uninterp spec fn uppercase_of(c: char) -> Seq<char>;

/// `char::is_uppercase`: the answer depends on the character alone.
#[verifier::external_body]
pub(crate) fn char_is_uppercase(c: char) -> (upper: bool)
    ensures
        upper == is_uppercase(c),
{
    c.is_uppercase()
}

/// `char::is_whitespace`: the answer depends on the character alone.
#[verifier::external_body]
pub(crate) fn char_is_whitespace(c: char) -> (space: bool)
    ensures
        space == is_whitespace(c),
{
    c.is_whitespace()
}

/// `char::to_uppercase`, with the characters that its iterator yields
/// collected in order: they depend on the character alone.
#[verifier::external_body]
pub(crate) fn char_to_uppercase(c: char) -> (upper: Vec<char>)
    ensures
        upper@ == uppercase_of(c),
{
    c.to_uppercase().collect()
}

} // verus!
