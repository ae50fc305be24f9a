//! Tests against a small CRFsuite model written here in memory: its
//! attribute dictionary holds every feature name that the library emits for a
//! handful of addresses, and a few state features are weighted by hand.

use std::io::{Cursor, Seek, SeekFrom, Write};

use cqdb::CQDBWriter;
use polars_usaddress::attr_cache::{endsinpunc_ids, resolve_one, word_ids};
use polars_usaddress::bounded_ids::BoundedIds;
use polars_usaddress::crf::CrfModel;
use polars_usaddress::features::{tokens_to_features, tokens_to_id_features, Lexicon};
use polars_usaddress::tokenize::{normalize, tokenize};
use polars_usaddress::{parse, tag, AddressType, Parser};

const PREFIXES: [&str; 3] = ["", "previous:", "next:"];

fn lexicon() -> Lexicon {
    Lexicon {
        directions: ["n", "s", "e", "w", "north", "south"].iter().map(|s| s.to_string()).collect(),
        street_names: ["st", "ave", "rd"].iter().map(|s| s.to_string()).collect(),
    }
}

/// Addresses whose feature names make up the model's attribute dictionary.
const VOCABULARY: [&str; 6] = [
    "123 Main St",
    "45 Oak Ave Chicago, IL",
    "PO Box 123",
    "Main St & Oak Ave",
    "123 N Main St. Chicago, IL",
    "1000000000000000000000000000000 Aaaaaaaaaaaaaaaaaaaaaaaaaaaaaaaaaaaaaaaaaaaaaaaaaaaaaa Rd.",
];

const LABELS: [&str; 8] = [
    "AddressNumber",
    "StreetName",
    "StreetNamePostType",
    "PlaceName",
    "StateName",
    "USPSBoxType",
    "USPSBoxID",
    "IntersectionSeparator",
];

/// State features: attribute, label, weight.
const STATE: [(&str, &str, f64); 12] = [
    ("digits:all_digits", "AddressNumber", 5.0),
    ("previous:word:box", "USPSBoxID", 20.0),
    ("word:main", "StreetName", 5.0),
    ("word:oak", "StreetName", 5.0),
    ("word:st", "StreetNamePostType", 5.0),
    ("word:ave", "StreetNamePostType", 5.0),
    ("word:po", "USPSBoxType", 5.0),
    ("word:box", "USPSBoxType", 5.0),
    ("word:&", "IntersectionSeparator", 5.0),
    ("word:chicago", "PlaceName", 5.0),
    ("word:il", "StateName", 5.0),
    ("address.start", "AddressNumber", 1.0),
];

fn put_u32(out: &mut Cursor<Vec<u8>>, v: u32) {
    out.write_all(&v.to_le_bytes()).unwrap();
}

fn align(out: &mut Cursor<Vec<u8>>) {
    while out.position() % 4 != 0 {
        out.write_all(&[0]).unwrap();
    }
}

fn write_dictionary(out: &mut Cursor<Vec<u8>>, names: &[String]) {
    {
        let mut db = CQDBWriter::new(&mut *out).unwrap();
        for (id, name) in names.iter().enumerate() {
            db.put(name, id as u32).unwrap();
        }
    }
    out.seek(SeekFrom::End(0)).unwrap();
}

/// The bytes of a CRFsuite model over the attributes of `VOCABULARY`, with
/// the state features of `STATE` and no transition features.
fn trained_model(_name: &str) -> Vec<u8> {
    let lex = lexicon();
    let mut attrs: Vec<String> = Vec::new();
    for address in VOCABULARY {
        let tokens = tokenize(&normalize(address));
        for item in tokens_to_features(&lex, &tokens) {
            for a in item {
                if !attrs.contains(&a.name) {
                    attrs.push(a.name);
                }
            }
        }
    }
    let labels: Vec<String> = LABELS.iter().map(|s| s.to_string()).collect();
    let mut refs: Vec<Vec<u32>> = vec![Vec::new(); attrs.len()];
    let mut features: Vec<(u32, u32, f64)> = Vec::new();
    for (attr, label, weight) in STATE {
        let a = attrs.iter().position(|n| n == attr).expect("state attribute in vocabulary") as u32;
        let l = LABELS.iter().position(|n| *n == label).unwrap() as u32;
        refs[a as usize].push(features.len() as u32);
        features.push((a, l, weight));
    }

    let mut out = Cursor::new(Vec::new());
    out.write_all(&[0u8; 48]).unwrap();

    let off_features = out.position() as u32;
    out.write_all(b"FEAT").unwrap();
    put_u32(&mut out, 12 + 20 * features.len() as u32);
    put_u32(&mut out, features.len() as u32);
    for (a, l, w) in &features {
        put_u32(&mut out, 0);
        put_u32(&mut out, *a);
        put_u32(&mut out, *l);
        out.write_all(&w.to_le_bytes()).unwrap();
    }

    let off_labels = out.position() as u32;
    write_dictionary(&mut out, &labels);
    let off_attrs = out.position() as u32;
    write_dictionary(&mut out, &attrs);

    align(&mut out);
    let off_label_refs = out.position() as u32;
    let slots = labels.len() as u32 + 2;
    let first = off_label_refs + 12 + 4 * slots;
    out.write_all(b"LFRF").unwrap();
    put_u32(&mut out, 12 + 4 * slots + 4 * labels.len() as u32);
    put_u32(&mut out, slots);
    for i in 0..labels.len() as u32 {
        put_u32(&mut out, first + 4 * i);
    }
    put_u32(&mut out, 0);
    put_u32(&mut out, 0);
    for _ in 0..labels.len() {
        put_u32(&mut out, 0);
    }

    align(&mut out);
    let off_attr_refs = out.position() as u32;
    let body: u32 = refs.iter().map(|r| 4 + 4 * r.len() as u32).sum();
    out.write_all(b"AFRF").unwrap();
    put_u32(&mut out, 12 + 4 * refs.len() as u32 + body);
    put_u32(&mut out, refs.len() as u32);
    let mut next = off_attr_refs + 12 + 4 * refs.len() as u32;
    for r in &refs {
        put_u32(&mut out, next);
        next += 4 + 4 * r.len() as u32;
    }
    for r in &refs {
        put_u32(&mut out, r.len() as u32);
        for fid in r {
            put_u32(&mut out, *fid);
        }
    }

    let size = out.position() as u32;
    out.seek(SeekFrom::Start(0)).unwrap();
    out.write_all(b"lCRF").unwrap();
    put_u32(&mut out, size);
    out.write_all(b"FOMC").unwrap();
    for v in [
        100,
        features.len() as u32,
        labels.len() as u32,
        attrs.len() as u32,
        off_features,
        off_labels,
        off_attrs,
        off_label_refs,
        off_attr_refs,
    ] {
        put_u32(&mut out, v);
    }
    out.into_inner()
}

#[test]
fn model_bytes_load_in_crfs() {
    let bytes = trained_model("load");
    let model = crfs::Model::new(&bytes).unwrap();
    assert_eq!(model.num_labels(), LABELS.len() as u32);
    assert_eq!(model.to_label(0), Some("AddressNumber"));
    assert!(model.to_attr_id("word:main").is_some());
    let tagger = model.tagger().unwrap();
    let xseq = vec![vec![crfs::Attribute::new("word:main", 1.0)]];
    assert_eq!(tagger.tag(&xseq).unwrap(), vec!["StreetName"]);
}

#[test]
fn value_tables_match_full_name_lookup() {
    let bytes = trained_model("value_tables");
    let model = CrfModel::new(&bytes).unwrap();
    for word in ["main", "st", "chicago", "suite", "not-a-word-the-model-saw"] {
        for (p, prefix) in PREFIXES.iter().enumerate() {
            assert_eq!(word_ids(&model, word)[p], resolve_one(&model, &format!("{prefix}word:{word}")));
        }
    }
    assert!(word_ids(&model, "main")[0].is_some());
    for c in [",", ".", ")", "\n", ";"] {
        for (p, prefix) in PREFIXES.iter().enumerate() {
            assert_eq!(endsinpunc_ids(&model, c)[p], resolve_one(&model, &format!("{prefix}endsinpunc:{c}")));
        }
    }
}

#[test]
fn matches_model_to_attr_id_for_real_feature_output() {
    let model_bytes = trained_model("to_attr_id");
    let model = crfs::Model::new(&model_bytes).unwrap();
    let checked = CrfModel::new(&model_bytes).unwrap();
    let tokens: Vec<String> = ["123", "Main", "St", "Chicago", "IL", "60614"].iter().map(|s| s.to_string()).collect();
    let seq = tokens_to_features(&lexicon(), &tokens);
    for token_attrs in &seq {
        for attr in token_attrs {
            let expected = model.to_attr_id(&attr.name);
            let got = resolve_one(&checked, &attr.name);
            assert_eq!(got, expected, "attribute {:?}: lookup said {:?}, model said {:?}", attr.name, got, expected);
        }
    }
}

#[test]
fn id_features_match_string_features_exactly() {
    let bytes = trained_model("id_features");
    let model = CrfModel::new(&bytes).unwrap();
    let tables = BoundedIds::new(&model);
    let lex = lexicon();
    let mut checked_any = false;
    for input in [
        "123 Main St",
        "45 Oak Ave Chicago, IL",
        "PO Box 123",
        "Main St & Oak Ave",
        "1000000000000000000000000000000 Aaaaaaaaaaaaaaaaaaaaaaaaaaaaaaaaaaaaaaaaaaaaaaaaaaaaaa Rd.",
    ] {
        let tokens = tokenize(&normalize(input));
        if tokens.is_empty() {
            continue;
        }
        checked_any = true;
        let expected: Vec<Vec<(u32, bool)>> = tokens_to_features(&lex, &tokens)
            .iter()
            .map(|attrs| attrs.iter().filter_map(|a| resolve_one(&model, &a.name).map(|id| (id, a.active))).collect())
            .collect();
        let got = tokens_to_id_features(&tables, &lex, &tokens);
        assert_eq!(got, expected, "id-based and string-based feature resolution diverged for input {:?}", input);
    }
    assert!(checked_any);
}

#[test]
fn bounded_tables_hold_the_model_ids() {
    let bytes = trained_model("tables");
    let model = CrfModel::new(&bytes).unwrap();
    let tables = BoundedIds::new(&model);
    assert_eq!(tables.abbrev(0), resolve_one(&model, "abbrev"));
    assert_eq!(tables.directional(1), resolve_one(&model, "previous:directional"));
    assert_eq!(tables.digits_id(2, 0), resolve_one(&model, "next:digits:all_digits"));
    assert_eq!(tables.length_id(0, true, 4), Some(resolve_one(&model, "length:w:4")));
    assert_eq!(tables.length_id(0, true, 49), None);
    assert_eq!(tables.trailing_zeros_some_id(0, 0), Some(resolve_one(&model, "trailing.zeros:")));
    assert_eq!(tables.trailing_zeros_some_id(0, 25), None);
    assert_eq!(tables.address_start(), resolve_one(&model, "address.start"));
    assert!(tables.address_start().is_some());
    assert_eq!(tables.next_address_end(), resolve_one(&model, "next:address.end"));
}

#[test]
fn parse_labels_every_token() {
    let model = trained_model("parse");
    let lex = lexicon();
    let parser = Parser::new(&model, &lex).unwrap();
    let parsed = parser.parse("123 Main St").unwrap();
    let tokens: Vec<&str> = parsed.iter().map(|(t, _)| t.as_str()).collect();
    assert_eq!(tokens, ["123", "Main", "St"]);
    let labels: Vec<&str> = parsed.iter().map(|(_, l)| l.as_str()).collect();
    assert_eq!(labels, ["AddressNumber", "StreetName", "StreetNamePostType"]);
    assert_eq!(parse(&model, &lex, "123 Main St").unwrap(), parsed);
}

#[test]
fn tag_collapses_the_parse() {
    let model = trained_model("tag");
    let lex = lexicon();
    let parser = Parser::new(&model, &lex).unwrap();
    for addr in ["123 Main St", "PO Box 123", "Main St & Oak Ave"] {
        let parsed = parser.parse(addr).unwrap();
        let via_collapse = polars_usaddress::components::collapse(parsed);
        let tagged = tag(&model, &lex, addr);
        match (via_collapse, tagged) {
            (Ok(a), Ok(b)) => assert_eq!(a, b),
            (Err(_), Err(_)) => {}
            _ => panic!("tag and collapse(parse) disagree for {addr:?}"),
        }
    }
    let (comps, t) = parser.tag("PO Box 123").unwrap();
    assert_eq!(t, AddressType::PoBox);
    assert_eq!(comps, vec![
        ("USPSBoxType".to_string(), "PO Box".to_string()),
        ("USPSBoxID".to_string(), "123".to_string()),
    ]);
}

#[test]
fn empty_input_is_ambiguous_not_an_error() {
    let model = trained_model("empty");
    let lex = lexicon();
    for s in ["", "   ", ",,,"] {
        let (components, t) = tag(&model, &lex, s).unwrap();
        assert!(components.is_empty());
        assert_eq!(t, AddressType::Ambiguous);
        assert!(parse(&model, &lex, s).unwrap().is_empty());
    }
}

#[test]
fn a_complete_model_is_accepted() {
    let bytes = trained_model("complete");
    assert!(CrfModel::new(&bytes).is_some());
}

#[test]
fn a_truncated_model_is_refused() {
    let bytes = trained_model("truncated");
    for len in [0, 10, 48, 49, 200, bytes.len() / 2, bytes.len() - 1] {
        assert!(CrfModel::new(&bytes[..len]).is_none(), "accepted {len} of {} bytes", bytes.len());
        assert!(Parser::new(&bytes[..len], &lexicon()).is_err());
    }
}

#[test]
fn a_feature_aimed_past_the_labels_is_refused() {
    let mut bytes = trained_model("bad_target");
    let off_features = u32::from_le_bytes(bytes[28..32].try_into().unwrap()) as usize;
    // The first feature's target label.
    let target = off_features + 12 + 8;
    bytes[target..target + 4].copy_from_slice(&(LABELS.len() as u32).to_le_bytes());
    assert!(CrfModel::new(&bytes).is_none());
    bytes[target..target + 4].copy_from_slice(&((LABELS.len() - 1) as u32).to_le_bytes());
    assert!(CrfModel::new(&bytes).is_some());
}

#[test]
fn a_model_without_labels_is_refused() {
    let mut bytes = trained_model("no_labels");
    bytes[20..24].copy_from_slice(&0u32.to_le_bytes());
    assert!(CrfModel::new(&bytes).is_none());
    assert!(tag(&bytes, &lexicon(), "").is_err());
}

#[test]
fn a_model_with_a_bad_magic_is_refused() {
    let mut bytes = trained_model("magic");
    bytes[0] = b'L';
    assert!(CrfModel::new(&bytes).is_none());
}

#[test]
fn parse_tags_with_the_model_weights() {
    let model = trained_model("weights");
    let lex = lexicon();
    let parsed = parse(&model, &lex, "PO Box 123").unwrap();
    let labels: Vec<&str> = parsed.iter().map(|(_, l)| l.as_str()).collect();
    assert_eq!(labels, ["USPSBoxType", "USPSBoxType", "USPSBoxID"]);
}

#[test]
fn a_dictionary_whose_record_count_overflows_is_refused() {
    let mut bytes = trained_model("record_count");
    let base = u32::from_le_bytes(bytes[32..36].try_into().unwrap()) as usize;
    let mut set = 0;
    for t in 0..256 {
        let at = base + 24 + 8 * t;
        let offset = u32::from_le_bytes(bytes[at..at + 4].try_into().unwrap());
        if offset == 0 && set < 3 {
            bytes[at + 4..at + 8].copy_from_slice(&u32::MAX.to_le_bytes());
            set += 1;
        }
    }
    assert_eq!(set, 3);
    assert!(CrfModel::new(&bytes).is_none());
    assert!(Parser::new(&bytes, &lexicon()).is_err());
}

#[test]
fn a_feature_with_an_infinite_weight_is_refused() {
    let mut bytes = trained_model("infinite_weight");
    let off_features = u32::from_le_bytes(bytes[28..32].try_into().unwrap()) as usize;
    let weight = off_features + 12 + 12;
    bytes[weight..weight + 8].copy_from_slice(&f64::INFINITY.to_le_bytes());
    assert!(CrfModel::new(&bytes).is_none());
    bytes[weight..weight + 8].copy_from_slice(&f64::NAN.to_le_bytes());
    assert!(CrfModel::new(&bytes).is_none());
    bytes[weight..weight + 8].copy_from_slice(&(-2.5f64).to_le_bytes());
    assert!(CrfModel::new(&bytes).is_some());
}

#[test]
fn the_length_bound_follows_the_model() {
    let bytes = trained_model("bound");
    assert!(polars_usaddress::is_taggable(&bytes, "123 Main St"));
    assert!(polars_usaddress::is_taggable(&[], "123 Main St"));
}
