use vstd::prelude::*;
use crate::text::{plain_ascii, to_chars, to_upper, upper};

verus! {

/// What `deunicode::deunicode` makes of a text: the closest ASCII spelling.
pub uninterp spec fn transliteration(s: Seq<char>) -> Seq<char>;

/// Relies on `deunicode::deunicode`, which transliterates a text to ASCII.
/// A text whose characters are all below 0x7F is returned as it is (the
/// fast path of `deunicode_with_tofu_cow`). Otherwise that prefix is kept
/// and each further character is replaced by its table entry or by `[?]`;
/// no entry of the table (`pointers.bin`, `mapping.txt`) holds a byte of
/// 0x7F or above, and the control characters and DEL map to nothing.
#[verifier::external_body]
pub(crate) fn transliterate(s: &str) -> (r: String)
    ensures
        r@ == transliteration(s@),
        plain_ascii(r@),
        plain_ascii(s@) ==> r@ == s@,
{
    deunicode::deunicode(s)
}

/// The form in which texts are compared: transliterated to ASCII, then in
/// upper case.
pub open spec fn fold(s: Seq<char>) -> Seq<char> {
    upper(transliteration(s))
}

/// The folded characters of a text.
pub fn fold_chars(s: &str) -> (r: Vec<char>)
    ensures
        r@ == fold(s@),
        plain_ascii(r@),
        plain_ascii(s@) ==> r@ == upper(s@),
{
    let t = transliterate(s);
    fold_transliterated(t.as_str())
}

/// The folded characters of a text that is already transliterated.
pub fn fold_transliterated(t: &str) -> (r: Vec<char>)
    ensures
        r@ == upper(t@),
        plain_ascii(t@) ==> plain_ascii(r@),
{
    let c = to_chars(t);
    to_upper(c.as_slice())
}

/// Folds a text for comparison: strips accents and turns it to upper case.
pub fn normalize(s: &str) -> (r: String)
    ensures
        r@ == fold(s@),
{
    let c = fold_chars(s);
    crate::text::string_of(c.as_slice())
}

} // verus!
