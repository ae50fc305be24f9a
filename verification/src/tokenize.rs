//! Address normalisation and tokenisation.
//!
//! A token is found by scanning left to right for the leftmost place where
//! one of two shapes starts, exactly as a leftmost-first regular-expression
//! search for
//!
//! ```text
//! J*( \(* W S* P* ) | ( [#&] )
//! ```
//!
//! would find it, where `W` is a word character (`[\p{L}\p{N}\p{M}\p{Pc}]`),
//! `S` is any character but whitespace and `,;#&()`, `J` is an `S` that is not
//! a `W`, and `P` is one of `.,;)` or a newline. Leading `J` characters are
//! skipped and not part of the token. Every quantifier is greedy and no
//! backtracking can change a match, so each run is simply maximal.

use std::borrow::Cow;

use vstd::prelude::*;

use crate::text::{
    char_whitespace, chars_to_string, is_whitespace, str_to_chars, word_class, word_class_mask,
};

verus! {

/// Whitespace and the punctuation that always ends a token: `,;#&()`.
pub open spec fn is_separator(c: char) -> bool {
    char_whitespace(c) || c == ',' || c == ';' || c == '#' || c == '&' || c == '(' || c == ')'
}

/// The characters a token may end with after its body: `.,;)` and newline.
pub open spec fn is_trailer(c: char) -> bool {
    c == '.' || c == ',' || c == ';' || c == ')' || c == '\n'
}

/// The four kinds of maximal run a token is cut from.
#[derive(Clone, Copy, PartialEq, Eq, Debug)]
pub enum RunKind {
    /// Leading junk: neither a separator nor a word character.
    Junk,
    /// Opening parentheses.
    OpenParen,
    /// The token body: anything but a separator.
    Body,
    /// Trailing punctuation.
    Trailer,
}

pub open spec fn in_run(k: RunKind, c: char) -> bool {
    match k {
        RunKind::Junk => !is_separator(c) && !word_class(c),
        RunKind::OpenParen => c == '(',
        RunKind::Body => !is_separator(c),
        RunKind::Trailer => is_trailer(c),
    }
}

/// Where the maximal run of kind `k` that starts at `i` ends.
pub open spec fn run_end(s: Seq<char>, i: int, k: RunKind) -> int
    decreases s.len() - i,
{
    if 0 <= i < s.len() && in_run(k, s[i]) {
        run_end(s, i + 1, k)
    } else {
        i
    }
}

pub proof fn lemma_run_end_bounds(s: Seq<char>, i: int, k: RunKind)
    requires
        0 <= i <= s.len(),
    ensures
        i <= run_end(s, i, k) <= s.len(),
        forall|m: int| i <= m < run_end(s, i, k) ==> in_run(k, #[trigger] s[m]),
        run_end(s, i, k) < s.len() ==> !in_run(k, s[run_end(s, i, k)]),
    decreases s.len() - i,
{
    if i < s.len() && in_run(k, s[i]) {
        lemma_run_end_bounds(s, i + 1, k);
    }
}

/// Where the token-shaped match that starts its search at `i` would end, if the
/// first alternative matches there.
pub open spec fn token_end(s: Seq<char>, i: int) -> int {
    let k = run_end(s, run_end(s, i, RunKind::Junk), RunKind::OpenParen);
    run_end(s, run_end(s, k + 1, RunKind::Body), RunKind::Trailer)
}

/// Does the first alternative match at `i`: after the junk and the opening
/// parentheses, is there a word character?
pub open spec fn word_token_at(s: Seq<char>, i: int) -> bool {
    let k = run_end(s, run_end(s, i, RunKind::Junk), RunKind::OpenParen);
    k < s.len() && word_class(s[k])
}

/// The tokens of `s` found from position `i` on.
pub open spec fn tokens_from(s: Seq<char>, i: int) -> Seq<Seq<char>>
    decreases s.len() - i,
{
    if i < 0 || i >= s.len() {
        seq![]
    } else if word_token_at(s, i) {
        let j = run_end(s, i, RunKind::Junk);
        let e = token_end(s, i);
        proof {
            lemma_token_end(s, i);
        }
        seq![s.subrange(j, e)] + tokens_from(s, e)
    } else if s[i] == '#' || s[i] == '&' {
        seq![seq![s[i]]] + tokens_from(s, i + 1)
    } else {
        tokens_from(s, i + 1)
    }
}

/// The tokens of a whole (already normalised) address.
pub open spec fn spec_tokenize(s: Seq<char>) -> Seq<Seq<char>> {
    tokens_from(s, 0)
}

pub proof fn lemma_token_end(s: Seq<char>, i: int)
    requires
        0 <= i < s.len(),
        word_token_at(s, i),
    ensures
        i <= run_end(s, i, RunKind::Junk) < token_end(s, i) <= s.len(),
{
    let j = run_end(s, i, RunKind::Junk);
    lemma_run_end_bounds(s, i, RunKind::Junk);
    lemma_run_end_bounds(s, j, RunKind::OpenParen);
    let k = run_end(s, j, RunKind::OpenParen);
    lemma_run_end_bounds(s, k + 1, RunKind::Body);
    lemma_run_end_bounds(s, run_end(s, k + 1, RunKind::Body), RunKind::Trailer);
}

/// No more tokens than characters from `i` on.
pub proof fn lemma_tokens_from_len(s: Seq<char>, i: int)
    requires
        0 <= i <= s.len(),
    ensures
        tokens_from(s, i).len() <= s.len() - i,
    decreases s.len() - i,
{
    if i < s.len() {
        if word_token_at(s, i) {
            lemma_token_end(s, i);
            lemma_tokens_from_len(s, token_end(s, i));
        } else {
            lemma_tokens_from_len(s, i + 1);
        }
    }
}

/// `&#38;`, one of the two spellings of an ampersand entity.
pub open spec fn numeric_entity() -> Seq<char> {
    seq!['&', '#', '3', '8', ';']
}

/// `&amp;`, the other spelling.
pub open spec fn named_entity() -> Seq<char> {
    seq!['&', 'a', 'm', 'p', ';']
}

/// Does an ampersand entity start at `i`?
pub open spec fn entity_at(s: Seq<char>, i: int) -> bool {
    0 <= i && i + 5 <= s.len() && (s.subrange(i, i + 5) == numeric_entity() || s.subrange(i, i + 5)
        == named_entity())
}

/// `s` with every ampersand entity replaced by `&`, scanning left to right
/// without rescanning what a replacement produced.
pub open spec fn spec_normalize(s: Seq<char>) -> Seq<char>
    decreases s.len(),
{
    if s.len() == 0 {
        s
    } else if entity_at(s, 0) {
        seq!['&'] + spec_normalize(s.skip(5))
    } else {
        seq![s[0]] + spec_normalize(s.skip(1))
    }
}

/// Does that scan replace anything?
pub open spec fn has_entity(s: Seq<char>) -> bool
    decreases s.len(),
{
    if s.len() == 0 {
        false
    } else if entity_at(s, 0) {
        true
    } else {
        has_entity(s.skip(1))
    }
}

/// Normalising never lengthens.
pub proof fn lemma_normalize_len(s: Seq<char>)
    ensures
        spec_normalize(s).len() <= s.len(),
    decreases s.len(),
{
    if s.len() > 0 {
        if entity_at(s, 0) {
            lemma_normalize_len(s.skip(5));
        } else {
            lemma_normalize_len(s.skip(1));
        }
    }
}

proof fn lemma_normalize_unchanged(s: Seq<char>)
    requires
        !has_entity(s),
    ensures
        spec_normalize(s) == s,
    decreases s.len(),
{
    if s.len() > 0 {
        lemma_normalize_unchanged(s.skip(1));
        assert(seq![s[0]] + s.skip(1) =~= s);
    }
}

/// Exec [`entity_at`].
fn entity_at_exec(s: &[char], i: usize) -> (b: bool)
    ensures
        b == entity_at(s@, i as int),
{
    if i > s.len() || s.len() - i < 5 {
        return false;
    }
    let numeric = s[i] == '&' && s[i + 1] == '#' && s[i + 2] == '3' && s[i + 3] == '8' && s[i + 4]
        == ';';
    let named = s[i] == '&' && s[i + 1] == 'a' && s[i + 2] == 'm' && s[i + 3] == 'p' && s[i + 4]
        == ';';
    proof {
        let sub = s@.subrange(i as int, i + 5);
        if numeric {
            assert(sub =~= numeric_entity());
        } else if sub == numeric_entity() {
            assert(sub[1] == numeric_entity()[1]);
            assert(sub[2] == numeric_entity()[2]);
            assert(sub[3] == numeric_entity()[3]);
            assert(sub[4] == numeric_entity()[4]);
        }
        if named {
            assert(sub =~= named_entity());
        } else if sub == named_entity() {
            assert(sub[1] == named_entity()[1]);
            assert(sub[2] == named_entity()[2]);
            assert(sub[3] == named_entity()[3]);
            assert(sub[4] == named_entity()[4]);
        }
    }
    numeric || named
}

/// Normalise HTML ampersand entities (`&#38;`, `&amp;`) to `&`, before
/// tokenising. Borrows the input when there is nothing to rewrite.
pub fn normalize(address: &str) -> (r: Cow<'_, str>)
    ensures
        r@ == spec_normalize(address@),
        r is Borrowed <==> !has_entity(address@),
{
    let s = str_to_chars(address);
    let ghost sv = s@;
    let mut out: Vec<char> = Vec::new();
    let mut changed = false;
    let mut i: usize = 0;
    proof {
        assert(sv.skip(0) =~= sv);
        assert(out@ + spec_normalize(sv) =~= spec_normalize(sv));
    }
    while i < s.len()
        invariant
            sv == s@,
            sv == address@,
            i <= sv.len(),
            out@ + spec_normalize(sv.skip(i as int)) == spec_normalize(sv),
            changed || has_entity(sv.skip(i as int)) <==> has_entity(sv),
        decreases sv.len() - i,
    {
        let ghost rest = sv.skip(i as int);
        let ghost old_out = out@;
        if entity_at_exec(s.as_slice(), i) {
            proof {
                assert(rest.subrange(0, 5) =~= sv.subrange(i as int, i + 5));
                assert(rest.skip(5) =~= sv.skip(i + 5));
            }
            out.push('&');
            changed = true;
            i = i + 5;
            proof {
                assert(old_out + spec_normalize(rest) =~= out@ + spec_normalize(sv.skip(i as int)));
            }
        } else {
            proof {
                if rest.len() >= 5 {
                    assert(rest.subrange(0, 5) =~= sv.subrange(i as int, i + 5));
                }
                assert(rest.skip(1) =~= sv.skip(i + 1));
            }
            out.push(s[i]);
            i = i + 1;
            proof {
                assert(old_out + spec_normalize(rest) =~= out@ + spec_normalize(sv.skip(i as int)));
            }
        }
    }
    proof {
        assert(sv.skip(i as int) =~= Seq::<char>::empty());
        assert(out@ =~= spec_normalize(sv));
    }
    if changed {
        Cow::Owned(chars_to_string(out.as_slice()))
    } else {
        proof {
            assert(sv.skip(0) =~= sv);
            lemma_normalize_unchanged(sv);
        }
        Cow::Borrowed(address)
    }
}

/// Exec test of [`is_separator`].
fn separator(c: char) -> (b: bool)
    ensures
        b == is_separator(c),
{
    is_whitespace(c) || c == ',' || c == ';' || c == '#' || c == '&' || c == '(' || c == ')'
}

/// Exec test of [`in_run`]; `word` is the word-class flag of `c`.
fn in_run_exec(k: RunKind, c: char, word: bool) -> (b: bool)
    requires
        word == word_class(c),
    ensures
        b == in_run(k, c),
{
    match k {
        RunKind::Junk => !separator(c) && !word,
        RunKind::OpenParen => c == '(',
        RunKind::Body => !separator(c),
        RunKind::Trailer => c == '.' || c == ',' || c == ';' || c == ')' || c == '\n',
    }
}

/// Exec [`run_end`].
fn scan_run(s: &[char], mask: &[bool], i: usize, k: RunKind) -> (e: usize)
    requires
        i <= s@.len(),
        mask@.len() == s@.len(),
        forall|m: int| 0 <= m < s@.len() ==> mask@[m] == word_class(#[trigger] s@[m]),
    ensures
        e == run_end(s@, i as int, k),
{
    let mut j = i;
    while j < s.len() && in_run_exec(k, s[j], mask[j])
        invariant
            i <= j <= s@.len(),
            mask@.len() == s@.len(),
            forall|m: int| 0 <= m < s@.len() ==> mask@[m] == word_class(#[trigger] s@[m]),
            run_end(s@, i as int, k) == run_end(s@, j as int, k),
        decreases s@.len() - j,
    {
        j = j + 1;
    }
    j
}

/// Split an (already [`normalize`]d) address into tokens.
pub fn tokenize(address: &str) -> (tokens: Vec<String>)
    ensures
        tokens@.len() == spec_tokenize(address@).len(),
        forall|t: int| 0 <= t < tokens@.len() ==> #[trigger] tokens@[t]@ == spec_tokenize(address@)[t],
{
    let s = str_to_chars(address);
    let mask = word_class_mask(s.as_slice());
    let ghost sv = s@;
    let mut out: Vec<String> = Vec::new();
    let ghost mut done: Seq<Seq<char>> = seq![];
    let mut i: usize = 0;
    while i < s.len()
        invariant
            sv == s@,
            sv == address@,
            i <= sv.len(),
            mask@.len() == sv.len(),
            forall|m: int| 0 <= m < sv.len() ==> mask@[m] == word_class(#[trigger] sv[m]),
            out@.len() == done.len(),
            forall|t: int| 0 <= t < out@.len() ==> #[trigger] out@[t]@ == done[t],
            done + tokens_from(sv, i as int) == spec_tokenize(sv),
        decreases sv.len() - i,
    {
        let j = scan_run(s.as_slice(), mask.as_slice(), i, RunKind::Junk);
        proof {
            lemma_run_end_bounds(sv, i as int, RunKind::Junk);
        }
        let k = scan_run(s.as_slice(), mask.as_slice(), j, RunKind::OpenParen);
        proof {
            lemma_run_end_bounds(sv, j as int, RunKind::OpenParen);
        }
        if k < s.len() && mask[k] {
            let b = scan_run(s.as_slice(), mask.as_slice(), k + 1, RunKind::Body);
            proof {
                lemma_run_end_bounds(sv, k + 1, RunKind::Body);
            }
            let e = scan_run(s.as_slice(), mask.as_slice(), b, RunKind::Trailer);
            proof {
                lemma_token_end(sv, i as int);
            }
            let tok = chars_to_string(&s.as_slice()[j..e]);
            out.push(tok);
            proof {
                assert(tokens_from(sv, i as int) == seq![sv.subrange(j as int, e as int)]
                    + tokens_from(sv, e as int));
                done = done.push(sv.subrange(j as int, e as int));
                assert(done + tokens_from(sv, e as int) =~= spec_tokenize(sv)) by {
                    assert(done.drop_last() + tokens_from(sv, i as int) == spec_tokenize(sv));
                    assert(done.drop_last() + (seq![sv.subrange(j as int, e as int)]
                        + tokens_from(sv, e as int)) =~= done + tokens_from(sv, e as int));
                }
            }
            i = e;
        } else if s[i] == '#' || s[i] == '&' {
            let tok = chars_to_string(&s.as_slice()[i..i + 1]);
            out.push(tok);
            proof {
                assert(sv.subrange(i as int, i + 1) =~= seq![sv[i as int]]);
                let old_done = done;
                done = done.push(seq![sv[i as int]]);
                assert(old_done + (seq![seq![sv[i as int]]] + tokens_from(sv, i + 1))
                    =~= done + tokens_from(sv, i + 1));
            }
            i = i + 1;
        } else {
            i = i + 1;
        }
    }
    proof {
        assert(done + tokens_from(sv, i as int) =~= done);
    }
    out
}

} // verus!
