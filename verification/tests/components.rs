use polars_usaddress::components::{collapse, components_by_label};
use polars_usaddress::{AddressType, Error, LABELS};

fn parsed(pairs: &[(&str, &str)]) -> Vec<(String, String)> {
    pairs.iter().map(|(t, l)| (t.to_string(), l.to_string())).collect()
}

#[test]
fn consecutive_tokens_are_joined_and_trimmed() {
    let (comps, t) = collapse(parsed(&[
        ("123", "AddressNumber"),
        ("Main", "StreetName"),
        ("Ave", "StreetName"),
        ("Chicago,", "PlaceName"),
        ("IL", "StateName"),
    ]))
    .unwrap();
    assert_eq!(t, AddressType::StreetAddress);
    assert_eq!(
        comps,
        parsed(&[
            ("AddressNumber", "123"),
            ("StreetName", "Main Ave"),
            ("PlaceName", "Chicago"),
            ("StateName", "IL"),
        ])
    );
}

#[test]
fn intersection_second_street_is_prefixed() {
    let (comps, t) = collapse(parsed(&[
        ("Main", "StreetName"),
        ("St", "StreetNamePostType"),
        ("&", "IntersectionSeparator"),
        ("Oak", "StreetName"),
        ("Ave", "StreetNamePostType"),
    ]))
    .unwrap();
    assert_eq!(t, AddressType::Intersection);
    assert_eq!(
        comps,
        parsed(&[
            ("StreetName", "Main"),
            ("StreetNamePostType", "St"),
            ("IntersectionSeparator", "&"),
            ("SecondStreetName", "Oak"),
            ("SecondStreetNamePostType", "Ave"),
        ])
    );
}

#[test]
fn po_box_and_ambiguous() {
    let (_, t) = collapse(parsed(&[("PO", "USPSBoxType"), ("Box", "USPSBoxType"), ("123", "USPSBoxID")])).unwrap();
    assert_eq!(t, AddressType::PoBox);
    let (_, t) = collapse(parsed(&[("Chicago", "PlaceName")])).unwrap();
    assert_eq!(t, AddressType::Ambiguous);
    let (comps, t) = collapse(Vec::new()).unwrap();
    assert!(comps.is_empty());
    assert_eq!(t, AddressType::Ambiguous);
    // Both an address number and an intersection: neither street nor
    // intersection, and no box id.
    let (_, t) = collapse(parsed(&[
        ("1", "AddressNumber"),
        ("Main", "StreetName"),
        ("&", "IntersectionSeparator"),
    ]))
    .unwrap();
    assert_eq!(t, AddressType::Ambiguous);
}

#[test]
fn repeated_label_is_an_error() {
    let input = parsed(&[
        ("123", "AddressNumber"),
        ("Main", "StreetName"),
        ("456", "AddressNumber"),
    ]);
    match collapse(input.clone()) {
        Err(Error::RepeatedLabel { label, parsed }) => {
            assert_eq!(label, "AddressNumber");
            assert_eq!(parsed, input);
        }
        _ => panic!("expected RepeatedLabel"),
    }
}

#[test]
fn component_of_only_punctuation_is_empty_text() {
    let (comps, _) = collapse(parsed(&[("1", "AddressNumber"), (",", "NotAddress"), (";", "NotAddress")])).unwrap();
    assert_eq!(comps[1], ("NotAddress".to_string(), "".to_string()));
}

#[test]
fn address_type_names() {
    assert_eq!(AddressType::StreetAddress.as_str(), "Street Address");
    assert_eq!(AddressType::Intersection.as_str(), "Intersection");
    assert_eq!(AddressType::PoBox.as_str(), "PO Box");
    assert_eq!(AddressType::Ambiguous.as_str(), "Ambiguous");
}

#[test]
fn components_fall_into_their_label_columns() {
    let comps = parsed(&[("AddressNumber", "123"), ("SecondStreetName", "Oak"), ("Unheard", "x")]);
    let row = components_by_label(&comps);
    assert_eq!(row.len(), LABELS.len());
    for (i, name) in LABELS.iter().enumerate() {
        let want = match *name {
            "AddressNumber" => Some("123"),
            "SecondStreetName" => Some("Oak"),
            _ => None,
        };
        assert_eq!(row[i].as_deref(), want, "column {name}");
    }
}

#[test]
fn every_component_label_is_listed() {
    let base = &LABELS[..26];
    let (comps, t) = collapse(parsed(&[
        ("Main", "StreetNamePreType"),
        ("Oak", "StreetName"),
        ("&", "IntersectionSeparator"),
        ("N", "StreetNamePreDirectional"),
        ("Elm", "StreetName"),
        ("Rd", "StreetNamePostType"),
        ("Chicago", "PlaceName"),
    ]))
    .unwrap();
    assert_eq!(t, AddressType::Intersection);
    for (label, _) in &comps {
        assert!(LABELS.contains(&label.as_str()), "{label} is not listed");
    }
    assert!(comps.iter().any(|(l, _)| l == "SecondStreetNamePreDirectional"));
    assert!(base.iter().all(|l| !l.starts_with("Second")));
}

#[test]
fn distinct_labels_after_collapse() {
    let (comps, _) = collapse(parsed(&[
        ("123", "AddressNumber"),
        ("Main", "StreetName"),
        ("Main", "StreetName"),
        ("Apt", "OccupancyType"),
        ("4", "OccupancyIdentifier"),
    ]))
    .unwrap();
    let mut labels: Vec<&str> = comps.iter().map(|(l, _)| l.as_str()).collect();
    let n = labels.len();
    labels.sort();
    labels.dedup();
    assert_eq!(labels.len(), n);
}
