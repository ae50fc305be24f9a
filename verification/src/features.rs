//! Per-token features, and the attribute encoding the CRF tagger reads.
//!
//! The nine features of a token are encoded into attributes as follows:
//!
//! * a string value becomes an attribute named `key:value` with weight one,
//! * a boolean becomes an attribute named `key`, with weight one when true and
//!   weight zero when false (emitted either way, never omitted),
//! * the neighbours' features are the same attributes with the name prefixed
//!   by `previous:` or `next:`, never nested further.
//!
//! An empty string value still produces the colon, e.g. `trailing.zeros:`.

use vstd::prelude::*;

use crate::attr_cache::{resolve_str, viewpoint_at, viewpoint_of};
use crate::bounded_ids::{
    class_index, prefix_at, zeros, BoundedIds, MAX_LENGTH, MAX_TRAILING_ZEROS,
};
use crate::crf::{attr_id, storable};
use crate::text::{
    all_ascii_digits, ascii_digit, char_alphanumeric, chars_to_string, is_alphanumeric,
    is_ascii_digit, lowercase, str_to_chars, to_lowercase,
};

verus! {

/// Which of the three digit classes a token falls into.
#[derive(Clone, Copy, PartialEq, Eq, Debug)]
pub enum DigitsClass {
    AllDigits,
    SomeDigits,
    NoDigits,
}

/// The name each digit class is encoded with.
pub open spec fn digits_name(d: DigitsClass) -> Seq<char> {
    match d {
        DigitsClass::AllDigits => "all_digits"@,
        DigitsClass::SomeDigits => "some_digits"@,
        DigitsClass::NoDigits => "no_digits"@,
    }
}

impl DigitsClass {
    /// The name this class is encoded with.
    pub fn as_str(self) -> (s: &'static str)
        ensures
            s@ == digits_name(self),
    {
        match self {
            DigitsClass::AllDigits => "all_digits",
            DigitsClass::SomeDigits => "some_digits",
            DigitsClass::NoDigits => "no_digits",
        }
    }
}

/// The two word lists the `directional` and `street_name` features look the
/// lowered, dot-free token up in.
pub struct Lexicon {
    /// Directionals (`n`, `north`, `nw`, ...).
    pub directions: Vec<String>,
    /// Street-type words and abbreviations (`st`, `street`, `ave`, ...).
    pub street_names: Vec<String>,
}

/// Does `list` hold the word `w`?
pub open spec fn listed(list: Seq<String>, w: Seq<char>) -> bool {
    exists|i: int| 0 <= i < list.len() && (#[trigger] list[i])@ == w
}

/// Exec [`listed`].
fn lookup(list: &Vec<String>, w: &String) -> (b: bool)
    ensures
        b == listed(list@, w@),
{
    let mut i: usize = 0;
    while i < list.len()
        invariant
            i <= list@.len(),
            forall|k: int| 0 <= k < i ==> (#[trigger] list@[k])@ != w@,
        decreases list@.len() - i,
    {
        if list[i] == *w {
            return true;
        }
        i = i + 1;
    }
    false
}

/// The nine per-token features, before `previous:`/`next:` nesting.
///
/// A `None` string feature stands for the boolean `false` the feature takes
/// in that case.
#[derive(Debug)]
pub struct TokenFeatures {
    /// The cleaned token ends with a dot.
    pub abbrev: bool,
    pub digits: DigitsClass,
    /// The lowered, dot-free token; `None` when it is all digits.
    pub word: Option<String>,
    /// The run of trailing zeros of the lowered, dot-free token; `None` when
    /// it is not all digits.
    pub trailing_zeros: Option<String>,
    /// The lowered, dot-free token is not all digits; the `length` feature
    /// is rendered `w:<n>` then, `d:<n>` otherwise.
    pub length_is_word: bool,
    /// Character count of the lowered, dot-free token.
    pub length: usize,
    /// The token's last character, when some character after the first is
    /// neither a dot nor a word character; `None` otherwise.
    pub endsinpunc: Option<String>,
    pub directional: bool,
    pub street_name: bool,
    pub has_vowels: bool,
}

/// The mathematical content of [`TokenFeatures`].
pub struct TokenFeaturesModel {
    pub abbrev: bool,
    pub digits: DigitsClass,
    pub word: Option<Seq<char>>,
    pub trailing_zeros: Option<Seq<char>>,
    pub length_is_word: bool,
    pub length: nat,
    pub endsinpunc: Option<Seq<char>>,
    pub directional: bool,
    pub street_name: bool,
    pub has_vowels: bool,
}

pub open spec fn opt_view(o: Option<String>) -> Option<Seq<char>> {
    match o {
        Some(s) => Some(s@),
        None => None,
    }
}

impl View for TokenFeatures {
    type V = TokenFeaturesModel;

    open spec fn view(&self) -> TokenFeaturesModel {
        TokenFeaturesModel {
            abbrev: self.abbrev,
            digits: self.digits,
            word: opt_view(self.word),
            trailing_zeros: opt_view(self.trailing_zeros),
            length_is_word: self.length_is_word,
            length: self.length as nat,
            endsinpunc: opt_view(self.endsinpunc),
            directional: self.directional,
            street_name: self.street_name,
            has_vowels: self.has_vowels,
        }
    }
}

/// A word character: alphanumeric, or the underscore.
pub open spec fn is_word_char(c: char) -> bool {
    char_alphanumeric(c) || c == '_'
}

/// Kept at the end of a cleaned token: a dot or a word character.
pub open spec fn keeps_end(c: char) -> bool {
    c == '.' || is_word_char(c)
}

/// Index of the first word character of `s` at or after `i`.
pub open spec fn skip_nonword(s: Seq<char>, i: int) -> int
    decreases s.len() - i,
{
    if 0 <= i < s.len() && !is_word_char(s[i]) {
        skip_nonword(s, i + 1)
    } else {
        i
    }
}

/// End of `s.take(e)` once its trailing characters that are neither a dot
/// nor a word character are dropped.
pub open spec fn trim_end(s: Seq<char>, e: int) -> int
    decreases e,
{
    if 0 < e <= s.len() && !keeps_end(s[e - 1]) {
        trim_end(s, e - 1)
    } else {
        e
    }
}

/// The token with leading non-word characters and trailing characters that
/// are neither a dot nor a word character removed; `&`, `#` and `½` are kept
/// as they are.
pub open spec fn clean_token(t: Seq<char>) -> Seq<char> {
    if t == seq!['&'] || t == seq!['#'] || t == seq!['\u{bd}'] {
        t
    } else {
        let rest = t.skip(skip_nonword(t, 0));
        rest.take(trim_end(rest, rest.len() as int))
    }
}

/// `s` without its dots.
pub open spec fn remove_dots(s: Seq<char>) -> Seq<char>
    decreases s.len(),
{
    if s.len() == 0 {
        s
    } else if s.last() == '.' {
        remove_dots(s.drop_last())
    } else {
        remove_dots(s.drop_last()).push(s.last())
    }
}

/// The key every lexical feature is computed from: the cleaned token,
/// lowercased, with its dots removed.
pub open spec fn abbrev_key(t: Seq<char>) -> Seq<char> {
    remove_dots(lowercase(clean_token(t)))
}

/// Start of the run of `'0'` that ends `s.take(e)`.
pub open spec fn zeros_start(s: Seq<char>, e: int) -> int
    decreases e,
{
    if 0 < e <= s.len() && s[e - 1] == '0' {
        zeros_start(s, e - 1)
    } else {
        e
    }
}

pub open spec fn spec_digits_class(clean: Seq<char>) -> DigitsClass {
    if all_ascii_digits(clean) {
        DigitsClass::AllDigits
    } else if exists|i: int| 0 <= i < clean.len() && is_ascii_digit(#[trigger] clean[i]) {
        DigitsClass::SomeDigits
    } else {
        DigitsClass::NoDigits
    }
}

pub open spec fn is_vowel(c: char) -> bool {
    c == 'a' || c == 'e' || c == 'i' || c == 'o' || c == 'u'
}

/// Some character after the first is neither a dot nor a word character.
pub open spec fn punct_after_first(t: Seq<char>) -> bool {
    exists|k: int| 1 <= k < t.len() && !keeps_end(#[trigger] t[k])
}

/// The features of token `t` under the word lists `directions` and
/// `street_names`.
pub open spec fn spec_token_features(
    directions: Seq<String>,
    street_names: Seq<String>,
    t: Seq<char>,
) -> TokenFeaturesModel {
    let clean = clean_token(t);
    let key = abbrev_key(t);
    let numeric = all_ascii_digits(key);
    TokenFeaturesModel {
        abbrev: clean.len() > 0 && clean.last() == '.',
        digits: spec_digits_class(clean),
        word: if numeric { None } else { Some(key) },
        trailing_zeros: if numeric { Some(key.skip(zeros_start(key, key.len() as int))) } else { None },
        length_is_word: !numeric,
        length: key.len(),
        endsinpunc: if punct_after_first(t) { Some(seq![t.last()]) } else { None },
        directional: listed(directions, key),
        street_name: listed(street_names, key),
        has_vowels: exists|k: int| 1 <= k < key.len() && is_vowel(#[trigger] key[k]),
    }
}

fn word_char(c: char) -> (b: bool)
    ensures
        b == is_word_char(c),
{
    is_alphanumeric(c) || c == '_'
}

/// Exec [`skip_nonword`] from the start.
fn skip_nonword_exec(s: &[char]) -> (r: usize)
    ensures
        r == skip_nonword(s@, 0),
        r <= s@.len(),
{
    let mut i: usize = 0;
    while i < s.len() && !word_char(s[i])
        invariant
            i <= s@.len(),
            skip_nonword(s@, 0) == skip_nonword(s@, i as int),
        decreases s@.len() - i,
    {
        i = i + 1;
    }
    i
}

/// Exec [`trim_end`] from the end.
fn trim_end_exec(s: &[char]) -> (r: usize)
    ensures
        r == trim_end(s@, s@.len() as int),
        r <= s@.len(),
{
    let mut e: usize = s.len();
    while e > 0 && !(s[e - 1] == '.' || word_char(s[e - 1]))
        invariant
            e <= s@.len(),
            trim_end(s@, s@.len() as int) == trim_end(s@, e as int),
        decreases e,
    {
        e = e - 1;
    }
    e
}

/// Exec [`remove_dots`].
fn remove_dots_exec(s: &[char]) -> (r: Vec<char>)
    ensures
        r@ == remove_dots(s@),
{
    let mut out: Vec<char> = Vec::new();
    let mut i: usize = 0;
    while i < s.len()
        invariant
            i <= s@.len(),
            out@ == remove_dots(s@.take(i as int)),
        decreases s@.len() - i,
    {
        proof {
            assert(s@.take(i + 1).drop_last() =~= s@.take(i as int));
            assert(s@.take(i + 1).last() == s@[i as int]);
        }
        if s[i] != '.' {
            out.push(s[i]);
        }
        i = i + 1;
    }
    proof {
        assert(s@.take(s@.len() as int) =~= s@);
    }
    out
}

/// Exec [`all_ascii_digits`].
fn all_digits_exec(s: &[char]) -> (b: bool)
    ensures
        b == all_ascii_digits(s@),
{
    if s.len() == 0 {
        return false;
    }
    let mut i: usize = 0;
    while i < s.len()
        invariant
            i <= s@.len(),
            forall|k: int| 0 <= k < i ==> is_ascii_digit(#[trigger] s@[k]),
        decreases s@.len() - i,
    {
        if !ascii_digit(s[i]) {
            return false;
        }
        i = i + 1;
    }
    true
}

/// Does `s` hold an ASCII digit?
fn any_digit_exec(s: &[char]) -> (b: bool)
    ensures
        b == exists|i: int| 0 <= i < s@.len() && is_ascii_digit(#[trigger] s@[i]),
{
    let mut i: usize = 0;
    while i < s.len()
        invariant
            i <= s@.len(),
            forall|k: int| 0 <= k < i ==> !is_ascii_digit(#[trigger] s@[k]),
        decreases s@.len() - i,
    {
        if ascii_digit(s[i]) {
            return true;
        }
        i = i + 1;
    }
    false
}

/// Exec [`spec_digits_class`].
fn digits_class(clean: &[char]) -> (d: DigitsClass)
    ensures
        d == spec_digits_class(clean@),
{
    if all_digits_exec(clean) {
        DigitsClass::AllDigits
    } else if any_digit_exec(clean) {
        DigitsClass::SomeDigits
    } else {
        DigitsClass::NoDigits
    }
}

/// Every character of `s.skip(zeros_start(s, e))` up to `e` is a zero.
proof fn lemma_zeros_start(s: Seq<char>, e: int)
    requires
        0 <= e <= s.len(),
    ensures
        0 <= zeros_start(s, e) <= e,
        forall|m: int| zeros_start(s, e) <= m < e ==> #[trigger] s[m] == '0',
    decreases e,
{
    if 0 < e && s[e - 1] == '0' {
        lemma_zeros_start(s, e - 1);
    }
}

/// The trailing-zeros feature, when present, is made of zeros only.
pub open spec fn features_wf(f: TokenFeaturesModel) -> bool {
    f.trailing_zeros matches Some(z) ==> forall|i: int| 0 <= i < z.len() ==> #[trigger] z[i] == '0'
}

/// Exec [`zeros_start`] from the end.
fn zeros_start_exec(s: &[char]) -> (r: usize)
    ensures
        r == zeros_start(s@, s@.len() as int),
        r <= s@.len(),
{
    let mut e: usize = s.len();
    while e > 0 && s[e - 1] == '0'
        invariant
            e <= s@.len(),
            zeros_start(s@, s@.len() as int) == zeros_start(s@, e as int),
        decreases e,
    {
        e = e - 1;
    }
    e
}

/// Exec [`punct_after_first`].
fn punct_after_first_exec(t: &[char]) -> (b: bool)
    ensures
        b == punct_after_first(t@),
{
    let mut k: usize = 1;
    while k < t.len()
        invariant
            1 <= k,
            forall|m: int| 1 <= m < k && m < t@.len() ==> keeps_end(#[trigger] t@[m]),
        decreases t@.len() - k,
    {
        if !(t[k] == '.' || word_char(t[k])) {
            return true;
        }
        k = k + 1;
    }
    false
}

/// Is there a vowel after the first character of `s`?
fn vowel_after_first(s: &[char]) -> (b: bool)
    ensures
        b == exists|k: int| 1 <= k < s@.len() && is_vowel(#[trigger] s@[k]),
{
    let mut k: usize = 1;
    while k < s.len()
        invariant
            1 <= k,
            forall|m: int| 1 <= m < k && m < s@.len() ==> !is_vowel(#[trigger] s@[m]),
        decreases s@.len() - k,
    {
        let c = s[k];
        if c == 'a' || c == 'e' || c == 'i' || c == 'o' || c == 'u' {
            return true;
        }
        k = k + 1;
    }
    false
}

/// Bounds of the cleaned token inside `t`.
fn clean_bounds(t: &[char]) -> (r: (usize, usize))
    ensures
        r.0 <= r.1 <= t@.len(),
        t@.subrange(r.0 as int, r.1 as int) == clean_token(t@),
{
    if t.len() == 1 && (t[0] == '&' || t[0] == '#' || t[0] == '\u{bd}') {
        proof {
            assert(t@.subrange(0, 1) =~= t@);
            if t@[0] == '&' {
                assert(t@ =~= seq!['&']);
            } else if t@[0] == '#' {
                assert(t@ =~= seq!['#']);
            } else {
                assert(t@ =~= seq!['\u{bd}']);
            }
        }
        return (0, 1);
    }
    proof {
        if t@ == seq!['&'] || t@ == seq!['#'] || t@ == seq!['\u{bd}'] {
            assert(t@.len() == 1);
            assert(t@[0] == '&' || t@[0] == '#' || t@[0] == '\u{bd}');
        }
    }
    let a = skip_nonword_exec(t);
    let rest = &t[a..t.len()];
    proof {
        assert(rest@ =~= t@.skip(a as int));
    }
    let b = trim_end_exec(rest);
    proof {
        assert(t@.subrange(a as int, a + b) =~= rest@.take(b as int));
    }
    (a, a + b)
}

/// The nine features of one token.
pub fn token_features(lexicon: &Lexicon, token: &str) -> (f: TokenFeatures)
    ensures
        f@ == spec_token_features(lexicon.directions@, lexicon.street_names@, token@),
        features_wf(f@),
{
    let t = str_to_chars(token);
    let (a, b) = clean_bounds(t.as_slice());
    let clean = &t.as_slice()[a..b];
    let lower = to_lowercase(clean);
    let key = remove_dots_exec(lower.as_slice());
    let numeric = all_digits_exec(key.as_slice());
    let key_string = chars_to_string(key.as_slice());
    let (word, trailing_zeros) = if numeric {
        let z = zeros_start_exec(key.as_slice());
        let zeros = chars_to_string(&key.as_slice()[z..key.len()]);
        proof {
            lemma_zeros_start(key@, key@.len() as int);
            assert(key@.subrange(z as int, key@.len() as int) =~= key@.skip(z as int));
        }
        (None, Some(zeros))
    } else {
        (Some(chars_to_string(key.as_slice())), None)
    };
    let endsinpunc = if punct_after_first_exec(t.as_slice()) {
        let last = t.len() - 1;
        proof {
            assert(t@.subrange(last as int, last + 1) =~= seq![t@.last()]);
        }
        Some(chars_to_string(&t.as_slice()[last..last + 1]))
    } else {
        None
    };
    let abbrev = b > a && t[b - 1] == '.';
    let directional = lookup(&lexicon.directions, &key_string);
    let street_name = lookup(&lexicon.street_names, &key_string);
    let has_vowels = vowel_after_first(key.as_slice());
    let digits = digits_class(clean);
    TokenFeatures {
        abbrev,
        digits,
        word,
        trailing_zeros,
        length_is_word: !numeric,
        length: key.len(),
        endsinpunc,
        directional,
        street_name,
        has_vowels,
    }
}

/// One attribute handed to the tagger: its name, and whether its weight is
/// one (`true`) or zero (`false`).
#[derive(Debug)]
pub struct Attribute {
    pub name: String,
    pub active: bool,
}

impl View for Attribute {
    type V = (Seq<char>, bool);

    open spec fn view(&self) -> (Seq<char>, bool) {
        (self.name@, self.active)
    }
}

pub open spec fn attrs_view(v: Seq<Attribute>) -> Seq<(Seq<char>, bool)> {
    v.map_values(|a: Attribute| a@)
}

/// The three viewpoints a token's features are encoded from.
#[derive(Clone, Copy, PartialEq, Eq, Debug)]
pub enum Viewpoint {
    /// The token itself: no prefix.
    Own,
    /// The token before: `previous:`.
    Previous,
    /// The token after: `next:`.
    Next,
}

pub open spec fn prefix_of(v: Viewpoint) -> Seq<char> {
    match v {
        Viewpoint::Own => ""@,
        Viewpoint::Previous => "previous:"@,
        Viewpoint::Next => "next:"@,
    }
}

impl Viewpoint {
    /// The name prefix of this viewpoint.
    pub fn prefix(self) -> (s: &'static str)
        ensures
            s@ == prefix_of(self),
    {
        match self {
            Viewpoint::Own => "",
            Viewpoint::Previous => "previous:",
            Viewpoint::Next => "next:",
        }
    }
}

/// The decimal digit `d`.
pub open spec fn digit_char(d: nat) -> char {
    if d == 0 { '0' }
    else if d == 1 { '1' }
    else if d == 2 { '2' }
    else if d == 3 { '3' }
    else if d == 4 { '4' }
    else if d == 5 { '5' }
    else if d == 6 { '6' }
    else if d == 7 { '7' }
    else if d == 8 { '8' }
    else { '9' }
}

/// The decimal rendering of `n`, without leading zeros.
pub open spec fn decimal(n: nat) -> Seq<char>
    decreases n,
{
    if n < 10 {
        seq![digit_char(n)]
    } else {
        decimal(n / 10).push(digit_char(n % 10))
    }
}

fn digit_char_exec(d: usize) -> (c: char)
    requires
        d < 10,
    ensures
        c == digit_char(d as nat),
{
    if d == 0 { '0' }
    else if d == 1 { '1' }
    else if d == 2 { '2' }
    else if d == 3 { '3' }
    else if d == 4 { '4' }
    else if d == 5 { '5' }
    else if d == 6 { '6' }
    else if d == 7 { '7' }
    else if d == 8 { '8' }
    else { '9' }
}

/// Exec [`decimal`].
pub fn decimal_chars(n: usize) -> (r: Vec<char>)
    ensures
        r@ == decimal(n as nat),
    decreases n,
{
    if n < 10 {
        let mut v = Vec::new();
        v.push(digit_char_exec(n));
        v
    } else {
        let mut v = decimal_chars(n / 10);
        v.push(digit_char_exec(n % 10));
        v
    }
}

/// The value the `length` feature is rendered with: `w:<n>` or `d:<n>`.
pub open spec fn length_value(is_word: bool, n: nat) -> Seq<char> {
    seq![if is_word { 'w' } else { 'd' }, ':'] + decimal(n)
}

/// A boolean feature: named `prefix key`, weighted by its value.
pub open spec fn bool_attr(prefix: Seq<char>, key: Seq<char>, value: bool) -> (Seq<char>, bool) {
    (prefix + key, value)
}

/// A string feature: named `prefix key:value`, weight one.
pub open spec fn str_attr(prefix: Seq<char>, key: Seq<char>, value: Seq<char>) -> (Seq<char>, bool) {
    (prefix + key + ":"@ + value, true)
}

/// A string feature that may hold `false` instead.
pub open spec fn opt_attr(prefix: Seq<char>, key: Seq<char>, value: Option<Seq<char>>) -> (Seq<char>, bool) {
    match value {
        Some(v) => str_attr(prefix, key, v),
        None => bool_attr(prefix, key, false),
    }
}

/// The nine attributes of features `f` from viewpoint prefix `p`, in their
/// fixed order.
pub open spec fn spec_encode(f: TokenFeaturesModel, p: Seq<char>) -> Seq<(Seq<char>, bool)> {
    seq![
        bool_attr(p, "abbrev"@, f.abbrev),
        str_attr(p, "digits"@, digits_name(f.digits)),
        opt_attr(p, "word"@, f.word),
        opt_attr(p, "trailing.zeros"@, f.trailing_zeros),
        str_attr(p, "length"@, length_value(f.length_is_word, f.length)),
        opt_attr(p, "endsinpunc"@, f.endsinpunc),
        bool_attr(p, "directional"@, f.directional),
        bool_attr(p, "street_name"@, f.street_name),
        bool_attr(p, "has.vowels"@, f.has_vowels),
    ]
}

fn push_bool(out: &mut Vec<Attribute>, prefix: &str, key: &str, value: bool)
    ensures
        attrs_view(final(out)@) == attrs_view(old(out)@).push(bool_attr(prefix@, key@, value)),
{
    let mut name = String::from_str(prefix);
    name.append(key);
    let ghost old_v = attrs_view(out@);
    out.push(Attribute { name, active: value });
    proof {
        assert(attrs_view(out@) =~= old_v.push(bool_attr(prefix@, key@, value)));
    }
}

fn push_str(out: &mut Vec<Attribute>, prefix: &str, key: &str, value: &str)
    ensures
        attrs_view(final(out)@) == attrs_view(old(out)@).push(str_attr(prefix@, key@, value@)),
{
    let mut name = String::from_str(prefix);
    name.append(key);
    name.append(":");
    name.append(value);
    let ghost old_v = attrs_view(out@);
    out.push(Attribute { name, active: true });
    proof {
        assert(attrs_view(out@) =~= old_v.push(str_attr(prefix@, key@, value@)));
    }
}

fn push_opt(out: &mut Vec<Attribute>, prefix: &str, key: &str, value: &Option<String>)
    ensures
        attrs_view(final(out)@) == attrs_view(old(out)@).push(opt_attr(prefix@, key@, opt_view(*value))),
{
    match value {
        Some(v) => push_str(out, prefix, key, v.as_str()),
        None => push_bool(out, prefix, key, false),
    }
}

/// The `length` value `w:<n>` or `d:<n>` as a string.
pub fn length_string(is_word: bool, n: usize) -> (s: String)
    ensures
        s@ == length_value(is_word, n as nat),
{
    let mut v: Vec<char> = Vec::new();
    v.push(if is_word { 'w' } else { 'd' });
    v.push(':');
    let d = decimal_chars(n);
    let mut i: usize = 0;
    while i < d.len()
        invariant
            i <= d@.len(),
            v@ == seq![if is_word { 'w' } else { 'd' }, ':'] + d@.take(i as int),
        decreases d@.len() - i,
    {
        v.push(d[i]);
        i = i + 1;
        proof {
            assert(v@ =~= seq![if is_word { 'w' } else { 'd' }, ':'] + d@.take(i as int));
        }
    }
    proof {
        assert(d@.take(d@.len() as int) =~= d@);
    }
    chars_to_string(v.as_slice())
}

impl TokenFeatures {
    /// Append this token's nine attributes, named from viewpoint `vp`, in
    /// their fixed order.
    pub fn encode_into(&self, out: &mut Vec<Attribute>, vp: Viewpoint)
        ensures
            attrs_view(final(out)@) == attrs_view(old(out)@) + spec_encode(self@, prefix_of(vp)),
    {
        let ghost start = attrs_view(out@);
        let prefix = vp.prefix();
        push_bool(out, prefix, "abbrev", self.abbrev);
        push_str(out, prefix, "digits", self.digits.as_str());
        push_opt(out, prefix, "word", &self.word);
        push_opt(out, prefix, "trailing.zeros", &self.trailing_zeros);
        let length = length_string(self.length_is_word, self.length);
        push_str(out, prefix, "length", length.as_str());
        push_opt(out, prefix, "endsinpunc", &self.endsinpunc);
        push_bool(out, prefix, "directional", self.directional);
        push_bool(out, prefix, "street_name", self.street_name);
        push_bool(out, prefix, "has.vowels", self.has_vowels);
        proof {
            assert(attrs_view(out@) =~= start + spec_encode(self@, prefix_of(vp)));
        }
    }
}

/// A positional flag: weight one.
pub open spec fn flag_attr(name: Seq<char>) -> (Seq<char>, bool) {
    (name, true)
}

/// `s` when `b`, nothing otherwise.
pub open spec fn only_if<T>(b: bool, s: Seq<T>) -> Seq<T> {
    if b { s } else { seq![] }
}

/// The attributes of item `i` of a sequence whose tokens have features
/// `fs`: its own nine, `address.start`/`address.end` at the two ends, then
/// the previous token's nine (with `previous:address.start` at index 1) and
/// the next token's nine (with `next:address.end` at index `n - 2`).
pub open spec fn item_attrs(fs: Seq<TokenFeaturesModel>, i: int) -> Seq<(Seq<char>, bool)> {
    let n = fs.len();
    spec_encode(fs[i], ""@)
        + only_if(i == 0, seq![flag_attr("address.start"@)])
        + only_if(i + 1 == n, seq![flag_attr("address.end"@)])
        + only_if(i > 0, spec_encode(fs[i - 1], "previous:"@)
            + only_if(i == 1, seq![flag_attr("previous:address.start"@)]))
        + only_if(i + 1 < n, spec_encode(fs[i + 1], "next:"@)
            + only_if(i + 2 == n, seq![flag_attr("next:address.end"@)]))
}

/// The features of every token of `tokens`.
pub open spec fn features_of(
    directions: Seq<String>,
    street_names: Seq<String>,
    tokens: Seq<Seq<char>>,
) -> Seq<TokenFeaturesModel> {
    tokens.map_values(|t: Seq<char>| spec_token_features(directions, street_names, t))
}

pub open spec fn strings_view(v: Seq<String>) -> Seq<Seq<char>> {
    v.map_values(|s: String| s@)
}

fn push_flag(out: &mut Vec<Attribute>, name: &str)
    ensures
        attrs_view(final(out)@) == attrs_view(old(out)@).push(flag_attr(name@)),
{
    let ghost old_v = attrs_view(out@);
    out.push(Attribute { name: String::from_str(name), active: true });
    proof {
        assert(attrs_view(out@) =~= old_v.push(flag_attr(name@)));
    }
}

/// The features of each token, in order.
pub fn all_token_features(lexicon: &Lexicon, tokens: &[String]) -> (fs: Vec<TokenFeatures>)
    ensures
        fs@.len() == tokens@.len(),
        forall|i: int| 0 <= i < tokens@.len() ==> features_wf((#[trigger] fs@[i])@),
        forall|i: int| 0 <= i < tokens@.len() ==> (#[trigger] fs@[i])@ == features_of(
            lexicon.directions@,
            lexicon.street_names@,
            strings_view(tokens@),
        )[i],
{
    let mut fs: Vec<TokenFeatures> = Vec::new();
    let mut i: usize = 0;
    while i < tokens.len()
        invariant
            i <= tokens@.len(),
            fs@.len() == i,
            forall|k: int| 0 <= k < i ==> features_wf((#[trigger] fs@[k])@),
            forall|k: int| 0 <= k < i ==> (#[trigger] fs@[k])@ == features_of(
                lexicon.directions@,
                lexicon.street_names@,
                strings_view(tokens@),
            )[k],
        decreases tokens@.len() - i,
    {
        fs.push(token_features(lexicon, tokens[i].as_str()));
        i = i + 1;
    }
    fs
}

/// The attributes of every item of the token sequence: its own nine, the
/// positional flags, and the nine of each neighbour under its prefix.
#[verifier::rlimit(40)]
pub fn tokens_to_features(lexicon: &Lexicon, tokens: &[String]) -> (seq: Vec<Vec<Attribute>>)
    ensures
        seq@.len() == tokens@.len(),
        forall|i: int| 0 <= i < tokens@.len() ==> attrs_view((#[trigger] seq@[i])@) == item_attrs(
            features_of(lexicon.directions@, lexicon.street_names@, strings_view(tokens@)),
            i,
        ),
{
    let base = all_token_features(lexicon, tokens);
    let ghost fs = features_of(lexicon.directions@, lexicon.street_names@, strings_view(tokens@));
    let n = base.len();
    let mut seq: Vec<Vec<Attribute>> = Vec::new();
    let mut i: usize = 0;
    while i < n
        invariant
            n == base@.len(),
            n == tokens@.len(),
            fs.len() == n,
            forall|k: int| 0 <= k < n ==> (#[trigger] base@[k])@ == fs[k],
            i <= n,
            seq@.len() == i,
            forall|k: int| 0 <= k < i ==> attrs_view((#[trigger] seq@[k])@) == item_attrs(fs, k),
        decreases n - i,
    {
        let mut attrs: Vec<Attribute> = Vec::new();
        let ghost s0 = attrs_view(attrs@);
        base[i].encode_into(&mut attrs, Viewpoint::Own);
        let ghost s1 = attrs_view(attrs@);
        if i == 0 {
            push_flag(&mut attrs, "address.start");
        }
        let ghost s2 = attrs_view(attrs@);
        if i + 1 == n {
            push_flag(&mut attrs, "address.end");
        }
        let ghost s3 = attrs_view(attrs@);
        if i > 0 {
            base[i - 1].encode_into(&mut attrs, Viewpoint::Previous);
            if i == 1 {
                push_flag(&mut attrs, "previous:address.start");
            }
        }
        let ghost s4 = attrs_view(attrs@);
        if i + 1 < n {
            base[i + 1].encode_into(&mut attrs, Viewpoint::Next);
            if i + 2 == n {
                push_flag(&mut attrs, "next:address.end");
            }
        }
        proof {
            assert(s0 =~= seq![]);
            assert(s4 =~= spec_encode(fs[i as int], ""@)
                + only_if(i == 0, seq![flag_attr("address.start"@)])
                + only_if(i + 1 == n, seq![flag_attr("address.end"@)])
                + only_if(i > 0, spec_encode(fs[i - 1], "previous:"@)
                    + only_if(i == 1, seq![flag_attr("previous:address.start"@)])));
            assert(attrs_view(attrs@) =~= item_attrs(fs, i as int));
        }
        seq.push(attrs);
        i = i + 1;
    }
    seq
}

/// The names of the weight-one attributes of `a`, in order: what the tagger
/// is handed (a weight-zero attribute adds nothing to any score, and a name
/// too long to be a dictionary key names nothing in any model).
pub open spec fn active_names(a: Seq<(Seq<char>, bool)>) -> Seq<Seq<char>>
    decreases a.len(),
{
    if a.len() == 0 {
        seq![]
    } else if a.last().1 && storable(a.last().0) {
        active_names(a.drop_last()).push(a.last().0)
    } else {
        active_names(a.drop_last())
    }
}

/// Every name [`active_names`] keeps can be a dictionary key.
pub proof fn lemma_active_names_storable(a: Seq<(Seq<char>, bool)>)
    ensures
        forall|i: int| 0 <= i < active_names(a).len() ==> storable(#[trigger] active_names(a)[i]),
    decreases a.len(),
{
    if a.len() > 0 {
        lemma_active_names_storable(a.drop_last());
        let rest = active_names(a.drop_last());
        if a.last().1 && storable(a.last().0) {
            assert forall|i: int| 0 <= i < active_names(a).len() implies storable(
                #[trigger] active_names(a)[i],
            ) by {
                if i < rest.len() {
                    assert(active_names(a)[i] == rest[i]);
                }
            }
        }
    }
}

/// The names of the weight-one attributes of `attrs`, in order.
pub fn active_attribute_names(attrs: &Vec<Attribute>) -> (r: Vec<String>)
    ensures
        strings_view(r@) == active_names(attrs_view(attrs@)),
{
    let ghost av = attrs_view(attrs@);
    let mut out: Vec<String> = Vec::new();
    let mut i: usize = 0;
    while i < attrs.len()
        invariant
            av == attrs_view(attrs@),
            i <= attrs@.len(),
            strings_view(out@) == active_names(av.take(i as int)),
        decreases attrs@.len() - i,
    {
        proof {
            reveal(storable);
            assert(av.take(i + 1).drop_last() =~= av.take(i as int));
            assert(av.take(i + 1).last() == attrs@[i as int]@);
        }
        if attrs[i].active && attrs[i].name.as_str().as_bytes().len() < 0xffff_ffff {
            let ghost before = out@;
            out.push(attrs[i].name.clone());
            proof {
                assert(strings_view(out@) =~= strings_view(before).push(attrs@[i as int].name@));
            }
        }
        i = i + 1;
    }
    proof {
        assert(av.take(attrs@.len() as int) =~= av);
    }
    out
}

/// What the tagger is handed for `tokens`: per item, the names of its
/// weight-one attributes.
pub open spec fn spec_xseq(
    directions: Seq<String>,
    street_names: Seq<String>,
    tokens: Seq<Seq<char>>,
) -> Seq<Seq<Seq<char>>> {
    Seq::new(
        tokens.len(),
        |i: int| active_names(item_attrs(features_of(directions, street_names, tokens), i)),
    )
}

// ------------------------------------------------------------- id-based path

/// What one attribute becomes once resolved to a model id: the pair of its id
/// and weight, or nothing when the model does not know its name.
pub open spec fn resolved_one(model: Seq<u8>, a: (Seq<char>, bool)) -> Seq<(u32, bool)> {
    match attr_id(model, a.0) {
        Some(id) => seq![(id, a.1)],
        None => seq![],
    }
}

/// `attrs` resolved to model ids, in order, dropping names the model does
/// not know.
pub open spec fn resolved(model: Seq<u8>, attrs: Seq<(Seq<char>, bool)>) -> Seq<(u32, bool)>
    decreases attrs.len(),
{
    if attrs.len() == 0 {
        seq![]
    } else {
        resolved(model, attrs.drop_last()) + resolved_one(model, attrs.last())
    }
}

/// Resolving a concatenation resolves each part.
pub proof fn lemma_resolved_append(model: Seq<u8>, a: Seq<(Seq<char>, bool)>, b: Seq<(Seq<char>, bool)>)
    ensures
        resolved(model, a + b) == resolved(model, a) + resolved(model, b),
    decreases b.len(),
{
    if b.len() == 0 {
        assert(a + b =~= a);
        assert(resolved(model, a) + resolved(model, b) =~= resolved(model, a));
    } else {
        lemma_resolved_append(model, a, b.drop_last());
        assert((a + b).drop_last() =~= a + b.drop_last());
        assert((a + b).last() == b.last());
        assert(resolved(model, a + b) =~= resolved(model, a) + resolved(model, b));
    }
}

fn push_id(out: &mut Vec<(u32, bool)>, id: Option<u32>, weight: bool)
    ensures
        final(out)@ == old(out)@ + match id {
            Some(i) => seq![(i, weight)],
            None => seq![],
        },
{
    let ghost before = out@;
    if let Some(i) = id {
        out.push((i, weight));
        assert(out@ =~= before + seq![(i, weight)]);
    } else {
        assert(out@ =~= before + Seq::<(u32, bool)>::empty());
    }
}

/// Index of a digit class in the tables.
fn class_index_exec(d: DigitsClass) -> (c: usize)
    ensures
        c == class_index(d),
        c < 3,
{
    match d {
        DigitsClass::AllDigits => 0,
        DigitsClass::SomeDigits => 1,
        DigitsClass::NoDigits => 2,
    }
}

/// Resolving a three-element sequence.
proof fn lemma_resolved3(model: Seq<u8>, a: (Seq<char>, bool), b: (Seq<char>, bool), c: (Seq<char>, bool))
    ensures
        resolved(model, seq![a, b, c]) == resolved_one(model, a) + resolved_one(model, b) + resolved_one(
            model,
            c,
        ),
{
    let s = seq![a, b, c];
    let e = Seq::<(Seq<char>, bool)>::empty();
    assert(s.drop_last() =~= seq![a, b]);
    assert(seq![a, b].drop_last() =~= seq![a]);
    assert(seq![a].drop_last() =~= e);
    assert(resolved(model, e) == Seq::<(u32, bool)>::empty());
    assert(resolved(model, seq![a]) == resolved(model, e) + resolved_one(model, a));
    assert(resolved(model, seq![a]) =~= resolved_one(model, a));
    assert(resolved(model, seq![a, b]) == resolved(model, seq![a]) + resolved_one(model, b));
    assert(resolved(model, s) == resolved(model, seq![a, b]) + resolved_one(model, c));
}

fn push_resolved(out: &mut Vec<(u32, bool)>, id: Option<u32>, Ghost(model): Ghost<Seq<u8>>, Ghost(a): Ghost<(Seq<char>, bool)>, weight: bool)
    requires
        id == attr_id(model, a.0),
        weight == a.1,
    ensures
        final(out)@ == old(out)@ + resolved_one(model, a),
{
    push_id(out, id, weight);
}

impl TokenFeatures {
    /// `abbrev`, `digits`, `word`, resolved.
    fn encode_ids_first(&self, tables: &BoundedIds, out: &mut Vec<(u32, bool)>, p: usize)
        requires
            p < 3,
        ensures
            ({
                let pre = prefix_at(p as int);
                final(out)@ == old(out)@ + resolved(
                    tables.model(),
                    seq![
                        bool_attr(pre, "abbrev"@, self.abbrev),
                        str_attr(pre, "digits"@, digits_name(self.digits)),
                        opt_attr(pre, "word"@, opt_view(self.word)),
                    ],
                )
            }),
    {
        let ghost m = tables.model();
        let ghost pre = prefix_at(p as int);
        let ghost start = out@;
        let model = tables.crf_model();
        let prefix = viewpoint_of(p).prefix();
        push_resolved(out, tables.abbrev(p), Ghost(m), Ghost(bool_attr(pre, "abbrev"@, self.abbrev)), self.abbrev);
        let class_idx = class_index_exec(self.digits);
        proof {
            assert(crate::bounded_ids::class_at(class_idx as int) == self.digits);
        }
        push_resolved(out, tables.digits_id(p, class_idx), Ghost(m), Ghost(str_attr(pre, "digits"@, digits_name(self.digits))), true);
        match &self.word {
            Some(w) => push_resolved(out, resolve_str(model, prefix, "word", w.as_str()), Ghost(m), Ghost(opt_attr(pre, "word"@, opt_view(self.word))), true),
            None => push_resolved(out, tables.word_false(p), Ghost(m), Ghost(opt_attr(pre, "word"@, opt_view(self.word))), false),
        }
        proof {
            lemma_resolved3(
                m,
                bool_attr(pre, "abbrev"@, self.abbrev),
                str_attr(pre, "digits"@, digits_name(self.digits)),
                opt_attr(pre, "word"@, opt_view(self.word)),
            );
        }
    }

    /// `trailing.zeros`, `length`, `endsinpunc`, resolved.
    fn encode_ids_second(&self, tables: &BoundedIds, out: &mut Vec<(u32, bool)>, p: usize)
        requires
            p < 3,
            features_wf(self@),
        ensures
            ({
                let pre = prefix_at(p as int);
                final(out)@ == old(out)@ + resolved(
                    tables.model(),
                    seq![
                        opt_attr(pre, "trailing.zeros"@, opt_view(self.trailing_zeros)),
                        str_attr(pre, "length"@, length_value(self.length_is_word, self.length as nat)),
                        opt_attr(pre, "endsinpunc"@, opt_view(self.endsinpunc)),
                    ],
                )
            }),
    {
        let ghost m = tables.model();
        let ghost pre = prefix_at(p as int);
        let model = tables.crf_model();
        let prefix = viewpoint_of(p).prefix();
        let ghost tz = opt_attr(pre, "trailing.zeros"@, opt_view(self.trailing_zeros));
        match &self.trailing_zeros {
            Some(z) => {
                let count = z.as_str().unicode_len();
                proof {
                    assert(z@ =~= zeros(count as nat));
                }
                match tables.trailing_zeros_some_id(p, count) {
                    Some(cached) => push_resolved(out, cached, Ghost(m), Ghost(tz), true),
                    None => push_resolved(out, resolve_str(model, prefix, "trailing.zeros", z.as_str()), Ghost(m), Ghost(tz), true),
                }
            },
            None => push_resolved(out, tables.trailing_zeros_false(p), Ghost(m), Ghost(tz), false),
        }
        let ghost len_attr = str_attr(pre, "length"@, length_value(self.length_is_word, self.length as nat));
        match tables.length_id(p, self.length_is_word, self.length) {
            Some(cached) => push_resolved(out, cached, Ghost(m), Ghost(len_attr), true),
            None => {
                let value = length_string(self.length_is_word, self.length);
                push_resolved(out, resolve_str(model, prefix, "length", value.as_str()), Ghost(m), Ghost(len_attr), true);
            },
        }
        let ghost ep = opt_attr(pre, "endsinpunc"@, opt_view(self.endsinpunc));
        match &self.endsinpunc {
            Some(c) => push_resolved(out, resolve_str(model, prefix, "endsinpunc", c.as_str()), Ghost(m), Ghost(ep), true),
            None => push_resolved(out, tables.endsinpunc_false(p), Ghost(m), Ghost(ep), false),
        }
        proof {
            lemma_resolved3(m, tz, len_attr, ep);
        }
    }

    /// `directional`, `street_name`, `has.vowels`, resolved.
    fn encode_ids_third(&self, tables: &BoundedIds, out: &mut Vec<(u32, bool)>, p: usize)
        requires
            p < 3,
        ensures
            ({
                let pre = prefix_at(p as int);
                final(out)@ == old(out)@ + resolved(
                    tables.model(),
                    seq![
                        bool_attr(pre, "directional"@, self.directional),
                        bool_attr(pre, "street_name"@, self.street_name),
                        bool_attr(pre, "has.vowels"@, self.has_vowels),
                    ],
                )
            }),
    {
        let ghost m = tables.model();
        let ghost pre = prefix_at(p as int);
        push_resolved(out, tables.directional(p), Ghost(m), Ghost(bool_attr(pre, "directional"@, self.directional)), self.directional);
        push_resolved(out, tables.street_name(p), Ghost(m), Ghost(bool_attr(pre, "street_name"@, self.street_name)), self.street_name);
        push_resolved(out, tables.has_vowels(p), Ghost(m), Ghost(bool_attr(pre, "has.vowels"@, self.has_vowels)), self.has_vowels);
        proof {
            lemma_resolved3(
                m,
                bool_attr(pre, "directional"@, self.directional),
                bool_attr(pre, "street_name"@, self.street_name),
                bool_attr(pre, "has.vowels"@, self.has_vowels),
            );
        }
    }

    /// The same nine attributes, in the same order, as
    /// [`TokenFeatures::encode_into`], resolved straight to `(id, weight)`
    /// pairs: through the tables for enumerable names, by name otherwise.
    /// `prefix_idx` is 0 for own, 1 for `previous:`, 2 for `next:`.
    pub fn encode_ids_into(&self, tables: &BoundedIds, out: &mut Vec<(u32, bool)>, prefix_idx: usize)
        requires
            prefix_idx < 3,
            features_wf(self@),
        ensures
            final(out)@ == old(out)@ + resolved(
                tables.model(),
                spec_encode(self@, prefix_at(prefix_idx as int)),
            ),
    {
        let ghost m = tables.model();
        let ghost pre = prefix_at(prefix_idx as int);
        let ghost start = out@;
        self.encode_ids_first(tables, out, prefix_idx);
        self.encode_ids_second(tables, out, prefix_idx);
        self.encode_ids_third(tables, out, prefix_idx);
        proof {
            let a = seq![
                bool_attr(pre, "abbrev"@, self.abbrev),
                str_attr(pre, "digits"@, digits_name(self.digits)),
                opt_attr(pre, "word"@, opt_view(self.word)),
            ];
            let b = seq![
                opt_attr(pre, "trailing.zeros"@, opt_view(self.trailing_zeros)),
                str_attr(pre, "length"@, length_value(self.length_is_word, self.length as nat)),
                opt_attr(pre, "endsinpunc"@, opt_view(self.endsinpunc)),
            ];
            let c = seq![
                bool_attr(pre, "directional"@, self.directional),
                bool_attr(pre, "street_name"@, self.street_name),
                bool_attr(pre, "has.vowels"@, self.has_vowels),
            ];
            assert(spec_encode(self@, pre) =~= a + b + c);
            lemma_resolved_append(m, a + b, c);
            lemma_resolved_append(m, a, b);
            assert(out@ =~= start + resolved(m, spec_encode(self@, pre)));
        }
    }
}

/// Resolving a single attribute.
proof fn lemma_resolved_single(model: Seq<u8>, a: (Seq<char>, bool))
    ensures
        resolved(model, seq![a]) == resolved_one(model, a),
{
    let e = Seq::<(Seq<char>, bool)>::empty();
    assert(seq![a].drop_last() =~= e);
    assert(resolved(model, e) == Seq::<(u32, bool)>::empty());
    assert(resolved(model, seq![a]) =~= resolved_one(model, a));
}

/// Id-based equivalent of [`tokens_to_features`]: every item's attributes,
/// in the same order, resolved to `(model id, weight)` pairs, names the model
/// does not know dropped.
pub fn tokens_to_id_features(tables: &BoundedIds, lexicon: &Lexicon, tokens: &[String]) -> (seq: Vec<Vec<(u32, bool)>>)
    ensures
        seq@.len() == tokens@.len(),
        forall|i: int| 0 <= i < tokens@.len() ==> (#[trigger] seq@[i])@ == resolved(
            tables.model(),
            item_attrs(
                features_of(lexicon.directions@, lexicon.street_names@, strings_view(tokens@)),
                i,
            ),
        ),
{
    let base = all_token_features(lexicon, tokens);
    let ghost fs = features_of(lexicon.directions@, lexicon.street_names@, strings_view(tokens@));
    let ghost m = tables.model();
    let n = base.len();
    let mut seq: Vec<Vec<(u32, bool)>> = Vec::new();
    let mut i: usize = 0;
    while i < n
        invariant
            n == base@.len(),
            n == tokens@.len(),
            fs.len() == n,
            m == tables.model(),
            forall|k: int| 0 <= k < n ==> (#[trigger] base@[k])@ == fs[k],
            forall|k: int| 0 <= k < n ==> features_wf((#[trigger] base@[k])@),
            i <= n,
            seq@.len() == i,
            forall|k: int| 0 <= k < i ==> (#[trigger] seq@[k])@ == resolved(m, item_attrs(fs, k)),
        decreases n - i,
    {
        let mut ids: Vec<(u32, bool)> = Vec::new();
        let ghost mut acc: Seq<(Seq<char>, bool)> = seq![];
        proof {
            assert(ids@ =~= resolved(m, acc));
        }
        base[i].encode_ids_into(tables, &mut ids, 0);
        proof {
            lemma_resolved_append(m, acc, spec_encode(fs[i as int], ""@));
            acc = acc + spec_encode(fs[i as int], ""@);
        }
        if i == 0 {
            push_resolved(&mut ids, tables.address_start(), Ghost(m), Ghost(flag_attr("address.start"@)), true);
            proof {
                lemma_resolved_single(m, flag_attr("address.start"@));
                lemma_resolved_append(m, acc, seq![flag_attr("address.start"@)]);
                acc = acc + seq![flag_attr("address.start"@)];
            }
        }
        if i + 1 == n {
            push_resolved(&mut ids, tables.address_end(), Ghost(m), Ghost(flag_attr("address.end"@)), true);
            proof {
                lemma_resolved_single(m, flag_attr("address.end"@));
                lemma_resolved_append(m, acc, seq![flag_attr("address.end"@)]);
                acc = acc + seq![flag_attr("address.end"@)];
            }
        }
        if i > 0 {
            base[i - 1].encode_ids_into(tables, &mut ids, 1);
            proof {
                lemma_resolved_append(m, acc, spec_encode(fs[i - 1], "previous:"@));
                acc = acc + spec_encode(fs[i - 1], "previous:"@);
            }
            if i == 1 {
                push_resolved(&mut ids, tables.previous_address_start(), Ghost(m), Ghost(flag_attr("previous:address.start"@)), true);
                proof {
                    lemma_resolved_single(m, flag_attr("previous:address.start"@));
                    lemma_resolved_append(m, acc, seq![flag_attr("previous:address.start"@)]);
                    acc = acc + seq![flag_attr("previous:address.start"@)];
                }
            }
        }
        if i + 1 < n {
            base[i + 1].encode_ids_into(tables, &mut ids, 2);
            proof {
                lemma_resolved_append(m, acc, spec_encode(fs[i + 1], "next:"@));
                acc = acc + spec_encode(fs[i + 1], "next:"@);
            }
            if i + 2 == n {
                push_resolved(&mut ids, tables.next_address_end(), Ghost(m), Ghost(flag_attr("next:address.end"@)), true);
                proof {
                    lemma_resolved_single(m, flag_attr("next:address.end"@));
                    lemma_resolved_append(m, acc, seq![flag_attr("next:address.end"@)]);
                    acc = acc + seq![flag_attr("next:address.end"@)];
                }
            }
        }
        proof {
            assert(acc =~= item_attrs(fs, i as int));
        }
        seq.push(ids);
        i = i + 1;
    }
    seq
}

} // verus!
