//! What the library takes on trust of the standard library.
use vstd::prelude::*;
use vstd::utf8::*;

verus! {

/// `String::push`: puts `c` behind the characters that `s` holds.
pub assume_specification[ String::push ](s: &mut String, c: char)
    ensures
        final(s)@ == old(s)@.push(c),
;

/// What the `Debug` form of a text is: the text between double quotes, with
/// escapes for the characters that need one.
pub uninterp spec fn debug_text(s: Seq<char>) -> Seq<char>;

/// The `Debug` implementation of `str`, as `format!` runs it for `{:?}`. Its
/// result depends on the text alone. Which characters it escapes, and how, is
/// left unsaid.
#[verifier::external_body]
pub(crate) fn debug_form(s: &str) -> (r: String)
    ensures
        r@ == debug_text(s@),
{
    format!("{:?}", s)
}

/// The text that bytes stand for, with something else in place of the bytes that
/// are not UTF-8.
pub uninterp spec fn lossy_text(bytes: Seq<u8>) -> Seq<char>;

/// `String::from_utf8_lossy`, with the result as a `String`. It depends on the
/// bytes alone, and for bytes that are UTF-8 it is the text that they encode.
/// Where the replacement characters go among other bytes is left unsaid.
#[verifier::external_body]
pub(crate) fn lossy_form(bytes: &[u8]) -> (r: String)
    ensures
        r@ == lossy_text(bytes@),
        valid_utf8(bytes@) ==> r@ == decode_utf8(bytes@),
{
    String::from_utf8_lossy(bytes).into_owned()
}

} // verus!
