use btc_name::{BtcDomain, CollectionKind, ParseError, SuffixSet};

#[test]
fn validate_regex() {
    let invalid_domains = [
        "abc.bitmap",
        "btc.com.btc",
        "hi.jack.btc",
        " jack.btc",
        "jack.btc ",
        "hi jack.btc",
        " jack.btc ",
        "jack.btc\n",
        "\njack.btc",
        "hi\njack.btc",
        "\njack.btc\n",
        "abc.aaa",
        r#"{ "p":"sns", "op":"reg",    "name":"jack.btc"}"#,
    ];
    for domain in invalid_domains {
        let btc_name = BtcDomain::parse(domain.as_bytes());
        assert!(btc_name.is_err());
    }

    let valid_domains = [
        "01.btc",
        "123456.btc",
        "Jack.btc",
        "JACK.BTC",
        "jack.BtC",
        "ÊØîÁâπÂ∏Å.btc",
        "üòÄ.btc",
        "\\jack.btc",
        "\tjack.btc",
    ];
    for domain in valid_domains {
        let btc_name = BtcDomain::parse(domain.as_bytes());
        assert!(btc_name.is_ok());
        assert!(matches!(
            btc_name.unwrap().collection_kind,
            CollectionKind::BtcName
        ));
    }

    let valid_domain = "abcdef.unisat";
    let unisat_name = BtcDomain::parse(valid_domain.as_bytes()).unwrap();
    assert_eq!(unisat_name.collection_kind, CollectionKind::UnisatName);
    let valid_domain = "abcdef.sats";
    let sats_name = BtcDomain::parse(valid_domain.as_bytes()).unwrap();
    assert_eq!(sats_name.collection_kind, CollectionKind::SatsName);
    let valid_domain = "abcdef.x";
    let x_name = BtcDomain::parse(valid_domain.as_bytes()).unwrap();
    assert_eq!(x_name.collection_kind, CollectionKind::XName);

    for d in ["btc", "unisat", "sats", "x"] {
        let s = format!("abc.{d}");
        let btc_name = BtcDomain::parse(s.as_bytes()).unwrap();
        assert!(["btc", "unisat", "sats", "x"].contains(&btc_name.domain.as_str()));
        assert_eq!(btc_name.name, "abc");
    }
}

#[test]
fn accepts_jack_btc() {
    let d = BtcDomain::parse(b"jack.btc").unwrap();
    assert_eq!(d.name, "jack");
    assert_eq!(d.domain, "btc");
    assert_eq!(d.collection_kind, CollectionKind::BtcName);
    assert_eq!(d.to_collection_key(), "BTC_DOMAIN_btc_jack");
}

#[test]
fn case_insensitive_results_agree() {
    let upper = BtcDomain::parse(b"JACK.BTC").unwrap();
    let lower = BtcDomain::parse(b"jack.btc").unwrap();
    assert_eq!(upper.name, lower.name);
    assert_eq!(upper.domain, lower.domain);
    assert_eq!(upper.collection_kind, lower.collection_kind);
    assert_eq!(upper.name, "jack");
    assert_eq!(upper.domain, "btc");
}

#[test]
fn rejects_non_utf8_as_not_text() {
    let err = BtcDomain::parse(&[0xff, 0xfe, 0x2e, 0x62, 0x74, 0x63]).unwrap_err();
    assert_eq!(err, ParseError::NotText);
}

#[test]
fn rejects_without_suffix_as_no_match() {
    assert_eq!(BtcDomain::parse(b"abc").unwrap_err(), ParseError::NoMatch);
    assert_eq!(BtcDomain::parse(b".btc").unwrap_err(), ParseError::NoMatch);
    assert_eq!(
        BtcDomain::parse(b"hi.jack.btc").unwrap_err(),
        ParseError::NoMatch
    );
}

#[test]
fn rejects_json_localpart_as_structured_payload() {
    let err = BtcDomain::parse(br#"{"a":1}.btc"#).unwrap_err();
    assert_eq!(err, ParseError::StructuredPayload);
}

#[test]
fn accepts_brace_localpart_that_is_not_json() {
    let d = BtcDomain::parse(b"{notjson.btc").unwrap();
    assert_eq!(d.name, "{notjson");
    assert_eq!(d.domain, "btc");
}

#[test]
fn rejects_sns_payload_body() {
    let body = br#"{"p":"sns","op":"reg","name":"jack.btc"}"#;
    assert!(BtcDomain::parse(body).is_err());
}

#[test]
fn configurable_suffixes_accept_their_own_list() {
    let suffixes = SuffixSet {
        items: vec!["example".to_string(), "test".to_string()],
    };
    let d = BtcDomain::parse_with_suffixes(b"Foo.Example", &suffixes).unwrap();
    assert_eq!(d.name, "foo");
    assert_eq!(d.domain, "example");
    assert_eq!(d.collection_kind, CollectionKind::BtcName);
    assert_eq!(d.to_configurable_key(), "BTC_NAME_foo_example");
    assert!(BtcDomain::parse_with_suffixes(b"foo.btc", &suffixes).is_err());
}

#[test]
fn configured_suffixes_match_case_insensitively() {
    let suffixes = SuffixSet {
        items: vec!["BTC".to_string()],
    };
    let d = BtcDomain::parse_with_suffixes(b"JACK.btc", &suffixes).unwrap();
    assert_eq!(d.name, "jack");
    assert_eq!(d.domain, "btc");
    let d = BtcDomain::parse_with_suffixes(b"jack.BTC", &suffixes).unwrap();
    assert_eq!(d.domain, "btc");
}

#[test]
fn empty_suffix_set_means_btc_only() {
    let suffixes = SuffixSet { items: vec![] };
    assert!(BtcDomain::parse_with_suffixes(b"jack.btc", &suffixes).is_ok());
    assert!(BtcDomain::parse_with_suffixes(b"jack.unisat", &suffixes).is_err());
}

#[test]
fn suffix_literals_are_not_patterns() {
    let suffixes = SuffixSet {
        items: vec!["a.b".to_string()],
    };
    let d = BtcDomain::parse_with_suffixes(b"x.a.b", &suffixes).unwrap();
    assert_eq!(d.name, "x");
    assert_eq!(d.domain, "a.b");
}

#[test]
fn kind_encodings_are_stable() {
    assert_eq!(CollectionKind::BitMap.as_str(), "bitmap");
    assert_eq!(CollectionKind::BRC20.as_str(), "brc20");
    assert_eq!(CollectionKind::BtcName.as_str(), "btc_name");
    assert_eq!(CollectionKind::UnisatName.as_str(), "unisat_name");
    assert_eq!(CollectionKind::SatsName.as_str(), "sats_name");
    assert_eq!(CollectionKind::XName.as_str(), "x_name");
}
