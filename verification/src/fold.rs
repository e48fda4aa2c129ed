//! Case folding, as the standard library does it.

use vstd::prelude::*;

verus! {

/// The lowercase form of a text, as `str::to_lowercase` of the standard
/// library gives it: each character replaced by its Unicode lowercase mapping,
/// which may be more than one character long. It depends on the text alone,
/// not on a locale.
pub uninterp spec fn lowercase_of(text: Seq<char>) -> Seq<char>;

/// Puts a text to lowercase by calling `str::to_lowercase` of the standard
/// library.
///
/// Trusted, not proved: that the string returned is `lowercase_of` of the
/// argument. This claims that the standard library's result depends on the
/// characters of the argument and on nothing else, and gives that result its
/// name; it claims nothing about which characters the result holds.
#[verifier::external_body]
pub(crate) fn to_lowercase(text: &str) -> (folded: String)
    ensures
        folded@ == lowercase_of(text@),
{
    text.to_lowercase()
}

} // verus!
