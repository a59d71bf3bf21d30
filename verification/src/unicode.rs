//! Character properties that come from the Unicode tables of `std`: which
//! characters are letters or digits, and what their lowercase forms are.
//! The tables are far too long to restate, so each result has a name; on
//! ASCII characters, where the tables agree with the ASCII letters and
//! digits, the result is stated.
use vstd::prelude::*;

verus! {

/// `c` is an ASCII character.
pub open spec fn is_ascii_char(c: char) -> bool {
    (c as u32) < 128
}

/// Every character of `s` is ASCII.
pub open spec fn all_ascii(s: Seq<char>) -> bool {
    forall|i: int| 0 <= i < s.len() ==> is_ascii_char(#[trigger] s[i])
}

/// `c` is an ASCII letter or digit.
pub open spec fn ascii_alphanumeric(c: char) -> bool {
    let u = c as u32;
    ||| 0x30 <= u <= 0x39
    ||| 0x41 <= u <= 0x5A
    ||| 0x61 <= u <= 0x7A
}

/// `c` with an ASCII capital letter turned into its small letter.
pub open spec fn ascii_lower(c: char) -> char {
    let u = c as u32;
    if 0x41 <= u <= 0x5A {
        (u + 32) as char
    } else {
        c
    }
}

/// `s` with every ASCII capital letter turned into its small letter.
pub open spec fn ascii_lowercase(s: Seq<char>) -> Seq<char> {
    s.map_values(|c: char| ascii_lower(c))
}

/// What `char::is_alphanumeric` answers for `c` (the Unicode `Alphabetic`
/// or `Numeric` property).
pub uninterp spec fn char_is_alphanumeric(c: char) -> bool;

/// What `char::to_lowercase` yields for `c`: one or more characters.
pub uninterp spec fn char_lowercase(c: char) -> Seq<char>;

/// What `str::to_lowercase` returns for a string.
pub uninterp spec fn str_lowercase(s: Seq<char>) -> Seq<char>;

/// Calls `char::is_alphanumeric`. Its answer, fixed by the Unicode tables
/// that `std` carries, is named `char_is_alphanumeric`; of an ASCII
/// character it is whether the character is an ASCII letter or digit (the
/// only ASCII characters that are `Alphabetic` or `Numeric`).
#[verifier::external_body]
pub(crate) fn is_alphanumeric(c: char) -> (b: bool)
    ensures
        b == char_is_alphanumeric(c),
        is_ascii_char(c) ==> b == ascii_alphanumeric(c),
{
    c.is_alphanumeric()
}

/// Calls `char::to_lowercase` and collects the characters it yields. The
/// result is named `char_lowercase`; of an ASCII character it is that one
/// character with a capital letter made small (`to_ascii_lowercase`).
#[verifier::external_body]
pub(crate) fn lowercase(c: char) -> (v: Vec<char>)
    ensures
        v@ == char_lowercase(c),
        is_ascii_char(c) ==> v@ == seq![ascii_lower(c)],
{
    c.to_lowercase().collect()
}

/// Calls `str::to_lowercase`. The result is named `str_lowercase`; of a
/// string that is all ASCII it is the string with every capital letter
/// made small, character by character (`to_ascii_lowercase`).
#[verifier::external_body]
pub(crate) fn to_lowercase(s: &str) -> (r: String)
    ensures
        r@ == str_lowercase(s@),
        all_ascii(s@) ==> r@ == ascii_lowercase(s@),
{
    s.to_lowercase()
}

} // verus!
