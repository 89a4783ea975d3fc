//! Topic keys are compared case-insensitively: the store is keyed by the
//! lowercase form of the command body, through the standard library's
//! Unicode lowercasing.

use vstd::prelude::*;

verus! {

/// The Unicode lowercase form of a sequence of characters, as
/// `str::to_lowercase` computes it.  A function of the characters alone.
pub uninterp spec fn lower_of(s: Seq<char>) -> Seq<char>;

/// Relies on `str::to_lowercase`: the result depends on the characters
/// alone, and an empty string stays empty.
#[verifier::external_body]
pub fn lowercase(s: &str) -> (r: String)
    ensures
        r@ == lower_of(s@),
        s@.len() == 0 ==> r@.len() == 0,
{
    s.to_lowercase()
}

} // verus!
