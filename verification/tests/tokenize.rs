use std::borrow::Cow;

use polars_usaddress::tokenize::{normalize, tokenize};

fn toks(s: &str) -> Vec<String> {
    let n = normalize(s);
    tokenize(&n)
}

#[test]
fn basic() {
    assert_eq!(
        toks("123 Main St. Suite 100 Chicago, IL 60601"),
        ["123", "Main", "St.", "Suite", "100", "Chicago,", "IL", "60601"]
    );
}

#[test]
fn parens_are_kept() {
    assert_eq!(toks("(123) Main St"), ["(123)", "Main", "St"]);
}

#[test]
fn html_entities_become_ampersand() {
    assert_eq!(
        toks("123 Main St &amp; Oak Ave"),
        ["123", "Main", "St", "&", "Oak", "Ave"]
    );
    assert_eq!(
        toks("123 Main St &#38; Oak Ave"),
        ["123", "Main", "St", "&", "Oak", "Ave"]
    );
}

#[test]
fn normalize_borrows_when_no_entity() {
    assert!(matches!(normalize("123 Main St"), Cow::Borrowed(_)));
}

#[test]
fn degenerate_inputs_yield_nothing() {
    for s in ["", "   ", ",,,"] {
        assert!(toks(s).is_empty(), "expected no tokens for {s:?}");
    }
}

#[test]
fn bare_symbols_are_tokens() {
    assert_eq!(toks("#"), ["#"]);
    assert_eq!(toks("&"), ["&"]);
}

#[test]
fn leading_fraction_is_not_dropped() {
    assert_eq!(toks("½ Main St"), ["½", "Main", "St"]);
    assert_eq!(toks("¼ Main St"), ["¼", "Main", "St"]);
    assert_eq!(toks("½ Ave.."), ["½", "Ave.."]);
}

#[test]
fn fraction_fused_to_digit() {
    assert_eq!(toks("123\u{bd} Main St"), ["123½", "Main", "St"]);
}

#[test]
fn leading_junk_symbols_are_skipped() {
    assert_eq!(toks("°abc"), ["abc"]);
    assert_eq!(toks("(°abc)"), ["abc)"]);
    assert_eq!(toks("°(abc)"), ["(abc)"]);
}

#[test]
fn normalize_rewrites_each_entity_once() {
    assert_eq!(normalize("a &amp; b &#38; c"), "a & b & c");
    assert!(matches!(normalize("a &amp; b"), Cow::Owned(_)));
    // The replacement is not rescanned.
    assert_eq!(normalize("&amp;amp;"), "&amp;");
    assert_eq!(normalize("&amp"), "&amp");
}

#[test]
fn trailing_punctuation_and_newline_stay_on_the_token() {
    assert_eq!(toks("St.,; Ave),. x"), ["St.,;", "Ave),.", "x"]);
    assert_eq!(toks("Main\nSt"), ["Main\n", "St"]);
}

#[test]
fn separators_split_tokens() {
    assert_eq!(toks("a#b&c(d)e"), ["a", "#", "b", "&", "c", "(d)", "e"]);
    assert_eq!(toks("((x"), ["((x"]);
    assert_eq!(toks("( x"), ["x"]);
}

#[test]
fn no_token_spans_a_space() {
    let parts = ["123 Main St.", "(°abc)", "#", "&Oak", "Chicago,", "½", "", "a\nb", "(("];
    for a in parts {
        for b in parts {
            let joined = format!("{a} {b}");
            let mut want = tokenize(a);
            want.extend(tokenize(b));
            assert_eq!(tokenize(&joined), want, "{joined:?}");
        }
    }
}
