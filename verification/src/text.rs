//! Character and string primitives that the tokenizer and the feature
//! extraction are built from. On ASCII each is stated here; beyond ASCII the
//! Unicode tables behind them are not restated: each is named, and the name is
//! applied by the wrapper that makes the call.

use vstd::prelude::*;

verus! {

/// An ASCII character.
pub open spec fn is_ascii_char(c: char) -> bool {
    c < '\u{80}'
}

/// An ASCII letter or decimal digit.
pub open spec fn is_ascii_alnum(c: char) -> bool {
    ('a' <= c && c <= 'z') || ('A' <= c && c <= 'Z') || ('0' <= c && c <= '9')
}

/// Membership of a non-ASCII character in `[\p{L}\p{N}\p{M}\p{Pc}]` as the
/// `regex` crate compiles that class.
pub uninterp spec fn unicode_word_class(c: char) -> bool;

/// Whether `c` belongs to `[\p{L}\p{N}\p{M}\p{Pc}]` (letters, numbers of
/// every kind, marks, connector punctuation). In ASCII these are the letters,
/// the digits and the underscore.
pub open spec fn word_class(c: char) -> bool {
    if is_ascii_char(c) {
        is_ascii_alnum(c) || c == '_'
    } else {
        unicode_word_class(c)
    }
}

/// `char::is_alphanumeric` on a non-ASCII character.
pub uninterp spec fn unicode_alphanumeric(c: char) -> bool;

/// `char::is_alphanumeric`: the `Alphabetic` property or a numeric general
/// category. In ASCII, the letters and the digits.
pub open spec fn char_alphanumeric(c: char) -> bool {
    if is_ascii_char(c) {
        is_ascii_alnum(c)
    } else {
        unicode_alphanumeric(c)
    }
}

/// `char::is_whitespace` on a non-ASCII character.
pub uninterp spec fn unicode_whitespace(c: char) -> bool;

/// `char::is_whitespace`: the Unicode `White_Space` property. In ASCII, the
/// space and the controls from tab to carriage return.
pub open spec fn char_whitespace(c: char) -> bool {
    if is_ascii_char(c) {
        c == ' ' || ('\t' <= c && c <= '\r')
    } else {
        unicode_whitespace(c)
    }
}

/// The ASCII lowercase of `c`.
pub open spec fn ascii_lower(c: char) -> char {
    if 'A' <= c && c <= 'Z' {
        ((c as u32) + 32) as char
    } else {
        c
    }
}

/// `str::to_lowercase` on a string that is not all ASCII.
pub uninterp spec fn unicode_lowercase(s: Seq<char>) -> Seq<char>;

/// `str::to_lowercase`: the Unicode lowercase mapping of a whole string. An
/// all-ASCII string has each capital letter lowered and nothing else changed.
pub open spec fn lowercase(s: Seq<char>) -> Seq<char> {
    if forall|i: int| 0 <= i < s.len() ==> is_ascii_char(#[trigger] s[i]) {
        s.map_values(|c: char| ascii_lower(c))
    } else {
        unicode_lowercase(s)
    }
}

/// The characters of `s`, in order.
///
/// Calls `str::chars` and collects; the result is exactly `s`'s characters.
#[verifier::external_body]
pub(crate) fn str_to_chars(s: &str) -> (v: Vec<char>)
    ensures
        v@ == s@,
{
    s.chars().collect()
}

/// The string made of `v`'s characters.
///
/// Calls `String::from_iter`; the result holds exactly those characters.
#[verifier::external_body]
pub(crate) fn chars_to_string(v: &[char]) -> (s: String)
    ensures
        s@ == v@,
{
    String::from_iter(v.iter())
}

/// Marks each character of `v` that the `regex` class
/// `[\p{L}\p{N}\p{M}\p{Pc}]` matches.
///
/// Compiles that class with `regex::Regex::new` (the pattern is a valid
/// constant) and calls `Regex::is_match` on each character. Claimed: one flag
/// per character; on ASCII it marks the letters, digits and underscore, and
/// beyond ASCII it is the named class membership of that character.
#[verifier::external_body]
pub(crate) fn word_class_mask(v: &[char]) -> (m: Vec<bool>)
    ensures
        m@.len() == v@.len(),
        forall|i: int| 0 <= i < v@.len() ==> m@[i] == word_class(#[trigger] v@[i]),
        forall|i: int|
            0 <= i < v@.len() && !is_ascii_char(v@[i]) ==> m@[i] == unicode_word_class(
                #[trigger] v@[i],
            ),
{
    let re = regex::Regex::new(r"[\p{L}\p{N}\p{M}\p{Pc}]").unwrap();
    let mut out = Vec::with_capacity(v.len());
    let mut buf = [0u8; 4];
    for c in v.iter() {
        out.push(re.is_match(c.encode_utf8(&mut buf)));
    }
    out
}

/// `char::is_alphanumeric`. Claimed: on ASCII, true for letters and digits;
/// beyond ASCII, the named property.
#[verifier::external_body]
pub(crate) fn is_alphanumeric(c: char) -> (b: bool)
    ensures
        b == char_alphanumeric(c),
        !is_ascii_char(c) ==> b == unicode_alphanumeric(c),
{
    c.is_alphanumeric()
}

/// `char::is_whitespace`. Claimed: on ASCII, true for the space and tab
/// through carriage return; beyond ASCII, the named property.
#[verifier::external_body]
pub(crate) fn is_whitespace(c: char) -> (b: bool)
    ensures
        b == char_whitespace(c),
        !is_ascii_char(c) ==> b == unicode_whitespace(c),
{
    c.is_whitespace()
}

/// `str::to_lowercase` on the string made of `v`'s characters, returned as
/// characters. Claimed: an all-ASCII string has each capital letter lowered
/// and nothing else changed; any other string gets the named mapping.
#[verifier::external_body]
pub(crate) fn to_lowercase(v: &[char]) -> (r: Vec<char>)
    ensures
        r@ == lowercase(v@),
        (exists|i: int| 0 <= i < v@.len() && !is_ascii_char(#[trigger] v@[i])) ==> r@
            == unicode_lowercase(v@),
{
    String::from_iter(v.iter()).to_lowercase().chars().collect()
}

/// An ASCII decimal digit.
pub open spec fn is_ascii_digit(c: char) -> bool {
    '0' <= c && c <= '9'
}

/// Non-empty and made of ASCII digits only.
pub open spec fn all_ascii_digits(s: Seq<char>) -> bool {
    s.len() > 0 && forall|i: int| 0 <= i < s.len() ==> is_ascii_digit(#[trigger] s[i])
}

pub fn ascii_digit(c: char) -> (b: bool)
    ensures
        b == is_ascii_digit(c),
{
    '0' <= c && c <= '9'
}

/// Do `a` and `b` hold the same characters?
pub fn chars_eq(a: &[char], b: &[char]) -> (r: bool)
    ensures
        r == (a@ == b@),
{
    if a.len() != b.len() {
        return false;
    }
    let mut i: usize = 0;
    while i < a.len()
        invariant
            a@.len() == b@.len(),
            i <= a@.len(),
            forall|k: int| 0 <= k < i ==> a@[k] == b@[k],
        decreases a@.len() - i,
    {
        if a[i] != b[i] {
            return false;
        }
        i = i + 1;
    }
    assert(a@ =~= b@);
    true
}

} // verus!
