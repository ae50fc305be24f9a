use polars_usaddress::features::{
    decimal_chars, token_features, tokens_to_features, Attribute, DigitsClass, Lexicon, Viewpoint,
};

fn lexicon() -> Lexicon {
    Lexicon {
        directions: ["n", "s", "e", "w", "north", "south", "east", "west", "ne", "nw", "se", "sw"]
            .iter()
            .map(|s| s.to_string())
            .collect(),
        street_names: ["st", "street", "ave", "avenue", "rd", "road"]
            .iter()
            .map(|s| s.to_string())
            .collect(),
    }
}

fn names(attrs: &[Attribute]) -> Vec<String> {
    let mut v: Vec<String> = attrs
        .iter()
        .map(|a| format!("{}={}", a.name, if a.active { 1 } else { 0 }))
        .collect();
    v.sort();
    v
}

fn strings(tokens: &[&str]) -> Vec<String> {
    tokens.iter().map(|s| s.to_string()).collect()
}

#[test]
fn empty_string_value_still_gets_a_colon() {
    let f = token_features(&lexicon(), "123");
    let mut out = Vec::new();
    f.encode_into(&mut out, Viewpoint::Own);
    assert!(names(&out).contains(&"trailing.zeros:=1".to_string()));
}

#[test]
fn false_booleans_are_emitted_with_zero_weight() {
    let f = token_features(&lexicon(), "123");
    let mut out = Vec::new();
    f.encode_into(&mut out, Viewpoint::Own);
    assert!(names(&out).contains(&"word=0".to_string()));
}

#[test]
fn trailing_zeros_are_captured() {
    let f = token_features(&lexicon(), "1200");
    assert_eq!(f.trailing_zeros.as_deref(), Some("00"));
    let f = token_features(&lexicon(), "123");
    assert_eq!(f.trailing_zeros.as_deref(), Some(""));
}

#[test]
fn has_vowels_skips_the_first_character() {
    assert!(token_features(&lexicon(), "Ave").has_vowels);
    assert!(!token_features(&lexicon(), "A").has_vowels);
}

#[test]
fn endsinpunc_matches_newlines() {
    let f = token_features(&lexicon(), "St.\n");
    assert_eq!(f.endsinpunc.as_deref(), Some("\n"));
}

#[test]
fn positional_flags_land_in_one_place_each() {
    let tokens = strings(&["123", "Main", "St", "Chicago"]);
    let seq = tokens_to_features(&lexicon(), &tokens);

    let has = |i: usize, name: &str| seq[i].iter().any(|a| a.name == name);

    assert!(has(0, "address.start"));
    assert!(has(1, "previous:address.start"));
    assert!(!has(2, "previous:address.start"));

    assert!(has(3, "address.end"));
    assert!(has(2, "next:address.end"));
    assert!(!has(1, "next:address.end"));
}

#[test]
fn nesting_is_not_recursive() {
    let seq = tokens_to_features(&lexicon(), &strings(&["123", "Main", "St"]));
    assert!(!seq
        .iter()
        .flatten()
        .any(|a| a.name.contains("next:next:") || a.name.contains("previous:previous:")));
}

#[test]
fn every_viewpoint_carries_nine_attributes() {
    let seq = tokens_to_features(&lexicon(), &strings(&["123", "Main", "St"]));
    // own 9 + start flag + next 9
    assert_eq!(seq[0].len(), 19);
    // previous 9 + own 9 + next 9 + previous:address.start + next:address.end
    assert_eq!(seq[1].len(), 29);
    // own 9 + end flag + previous 9
    assert_eq!(seq[2].len(), 19);
    let single = tokens_to_features(&lexicon(), &strings(&["x"]));
    assert_eq!(single[0].len(), 11);
    assert!(tokens_to_features(&lexicon(), &[]).is_empty());
}

#[test]
fn features_of_a_word_token() {
    let f = token_features(&lexicon(), "St.");
    assert!(f.abbrev);
    assert_eq!(f.digits, DigitsClass::NoDigits);
    assert_eq!(f.word.as_deref(), Some("st"));
    assert_eq!(f.trailing_zeros, None);
    assert!(f.length_is_word);
    assert_eq!(f.length, 2);
    assert_eq!(f.endsinpunc, None);
    assert!(!f.directional);
    assert!(f.street_name);
    assert!(!f.has_vowels);
}

#[test]
fn features_of_mixed_and_directional_tokens() {
    let f = token_features(&lexicon(), "4B");
    assert_eq!(f.digits, DigitsClass::SomeDigits);
    assert_eq!(f.word.as_deref(), Some("4b"));
    let f = token_features(&lexicon(), "N.");
    assert!(f.directional);
    assert_eq!(f.word.as_deref(), Some("n"));
    let f = token_features(&lexicon(), "Chicago,");
    assert_eq!(f.endsinpunc.as_deref(), Some(","));
    assert_eq!(f.word.as_deref(), Some("chicago"));
    assert!(!f.abbrev);
    let f = token_features(&lexicon(), "100");
    assert_eq!(f.digits, DigitsClass::AllDigits);
    assert_eq!(f.word, None);
    assert!(!f.length_is_word);
    assert_eq!(f.length, 3);
}

#[test]
fn clean_token_keeps_the_special_symbols() {
    let f = token_features(&lexicon(), "&");
    assert_eq!(f.word.as_deref(), Some("&"));
    let f = token_features(&lexicon(), "#");
    assert_eq!(f.word.as_deref(), Some("#"));
    let f = token_features(&lexicon(), "(123)");
    assert_eq!(f.digits, DigitsClass::AllDigits);
    assert_eq!(f.endsinpunc.as_deref(), Some(")"));
}

#[test]
fn encoded_names_and_values() {
    let f = token_features(&lexicon(), "Main");
    let mut out = Vec::new();
    f.encode_into(&mut out, Viewpoint::Next);
    let got: Vec<(String, bool)> = out.iter().map(|a| (a.name.clone(), a.active)).collect();
    assert_eq!(
        got,
        vec![
            ("next:abbrev".to_string(), false),
            ("next:digits:no_digits".to_string(), true),
            ("next:word:main".to_string(), true),
            ("next:trailing.zeros".to_string(), false),
            ("next:length:w:4".to_string(), true),
            ("next:endsinpunc".to_string(), false),
            ("next:directional".to_string(), false),
            ("next:street_name".to_string(), false),
            ("next:has.vowels".to_string(), true),
        ]
    );
}

#[test]
fn decimal_rendering() {
    assert_eq!(decimal_chars(0), vec!['0']);
    assert_eq!(decimal_chars(48), vec!['4', '8']);
    assert_eq!(decimal_chars(1207), vec!['1', '2', '0', '7']);
}
