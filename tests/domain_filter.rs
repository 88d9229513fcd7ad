use externaldns_webhook::domain_filter::{DomainFilter, DomainFilterError, DomainFilterWire, RegexPattern};

fn wire(
    included: Option<Vec<&str>>,
    excluded: Option<Vec<&str>>,
    regex_include: Option<&str>,
    regex_exclude: Option<&str>,
) -> DomainFilterWire {
    let list = |v: Option<Vec<&str>>| v.map(|v| v.into_iter().map(String::from).collect());
    DomainFilterWire {
        included: list(included),
        excluded: list(excluded),
        regex_include: regex_include.map(String::from),
        regex_exclude: regex_exclude.map(String::from),
    }
}

#[test]
fn string_filter_wire_has_only_its_fields() {
    let f = DomainFilter::Strings { included: None, excluded: Some(vec!["example.org".to_string()]) };
    let w = f.into_wire();
    assert_eq!(w.included, None);
    assert_eq!(w.excluded, Some(vec!["example.org".to_string()]));
    assert_eq!(w.regex_include, None);
    assert_eq!(w.regex_exclude, None);
}

#[test]
fn regex_filter_wire_has_only_its_fields() {
    let f = DomainFilter::Regex {
        regex_include: Some(RegexPattern::new("[0-9]a".to_string()).unwrap()),
        regex_exclude: None,
    };
    let w = f.into_wire();
    assert_eq!(w.regex_include, Some("[0-9]a".to_string()));
    assert_eq!(w.regex_exclude, None);
    assert_eq!(w.included, None);
}

#[test]
fn string_filter_round_trip() {
    let f = DomainFilter::Strings { included: Some(vec!["a.org".to_string()]), excluded: None };
    match DomainFilter::from_wire(f.into_wire()).unwrap() {
        DomainFilter::Strings { included, excluded } => {
            assert_eq!(included, Some(vec!["a.org".to_string()]));
            assert_eq!(excluded, None);
        }
        _ => panic!("wrong variant"),
    }
}

#[test]
fn regex_filter_round_trip() {
    let f = DomainFilter::Regex {
        regex_include: None,
        regex_exclude: Some(RegexPattern::new("^x\\.".to_string()).unwrap()),
    };
    match DomainFilter::from_wire(f.into_wire()).unwrap() {
        DomainFilter::Regex { regex_include, regex_exclude } => {
            assert!(regex_include.is_none());
            assert_eq!(regex_exclude.unwrap().as_str(), "^x\\.");
        }
        _ => panic!("wrong variant"),
    }
}

#[test]
fn empty_object_reads_as_string_filter() {
    let f = DomainFilter::from_wire(wire(None, None, None, None)).unwrap();
    assert!(matches!(f, DomainFilter::Strings { included: None, excluded: None }));
}

#[test]
fn mixed_fields_are_rejected() {
    let r = DomainFilter::from_wire(wire(Some(vec!["a.org"]), None, Some("a"), None));
    assert_eq!(r.err().map(|e| e), Some(DomainFilterError::MixedFields));
}

#[test]
fn invalid_regex_is_rejected() {
    let r = DomainFilter::from_wire(wire(None, None, Some("("), None));
    assert_eq!(r.err(), Some(DomainFilterError::InvalidRegex));
    assert!(RegexPattern::new("(".to_string()).is_err());
    assert!(RegexPattern::new("[a-z]+".to_string()).is_ok());
}
