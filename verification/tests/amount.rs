use xrpl_api::{Amount, AmountError, Currency, IssuedAmount};

#[test]
fn serialize_drops() {
    let amount = Amount::drops(100);
    assert_eq!(r#""100""#, amount.encode());
}

#[test]
fn serialize_issued_amount() {
    let amount = Amount::issued("12.34", "USD", "rhub8VRN55s94qWKDv6jmDy1pUykJzF3wq");
    assert_eq!(
        r#"{"value":"12.34","currency":"USD","issuer":"rhub8VRN55s94qWKDv6jmDy1pUykJzF3wq"}"#,
        amount.encode()
    );
}

#[test]
fn deserialize_drops() {
    let amount = Amount::decode(r#""100""#).unwrap();
    match amount {
        Amount::Drops(drops) => {
            assert_eq!(drops, "100");
        }
        other => panic!("expected a drops amount, got {:?}", other),
    }
}

#[test]
fn deserialize_issued_amount() {
    let amount = Amount::decode(
        r#"{"value":"12.34","currency":"USD","issuer":"rhub8VRN55s94qWKDv6jmDy1pUykJzF3wq"}"#,
    )
    .unwrap();
    match amount {
        Amount::Issued(IssuedAmount {
            value,
            currency,
            issuer,
        }) => {
            assert_eq!(value, "12.34");
            assert_eq!(currency, "USD");
            assert_eq!(issuer, "rhub8VRN55s94qWKDv6jmDy1pUykJzF3wq");
        }
        other => panic!("expected an issued amount, got {:?}", other),
    }
}

#[test]
fn round_trip_drops() {
    let a = Amount::drops(0);
    assert_eq!(Amount::decode(&a.encode()).unwrap(), a);
    let b = Amount::drops(u64::MAX);
    assert_eq!(Amount::decode(&b.encode()).unwrap(), b);
}

#[test]
fn round_trip_issued() {
    let a = Amount::issued("12.34", "USD", "rhub8VRN55s94qWKDv6jmDy1pUykJzF3wq");
    assert_eq!(Amount::decode(&a.encode()).unwrap(), a);
}

#[test]
fn round_trip_content_needing_escapes() {
    let a = Amount::issued("say \"hi\"", "\\", "r\"\\\"");
    let text = a.encode();
    assert_eq!(Amount::decode(&text).unwrap(), a);
    let b = Amount::Drops(String::from("1\"2\\3"));
    assert_eq!(Amount::decode(&b.encode()).unwrap(), b);
}

#[test]
fn encode_escapes_quotes_and_backslashes() {
    let a = Amount::issued("a\"b", "U\\D", "r1");
    assert_eq!(r#"{"value":"a\"b","currency":"U\\D","issuer":"r1"}"#, a.encode());
}

#[test]
fn encode_escapes_control_characters() {
    let a = Amount::Drops(String::from("a\nb\u{0001}"));
    assert_eq!(r#""a\nb\u0001""#, a.encode());
    assert_eq!(Amount::decode(&a.encode()).unwrap(), a);
}

#[test]
fn decode_rejects_number() {
    match Amount::decode("100") {
        Err(AmountError::ShapeMismatch(raw)) => assert_eq!(raw, "100"),
        other => panic!("expected a shape mismatch, got {:?}", other),
    }
}

#[test]
fn decode_rejects_array() {
    assert!(matches!(
        Amount::decode("[1,2]"),
        Err(AmountError::ShapeMismatch(_))
    ));
}

#[test]
fn decode_rejects_object_missing_issuer() {
    assert!(matches!(
        Amount::decode(r#"{"value":"12.34","currency":"USD"}"#),
        Err(AmountError::ShapeMismatch(_))
    ));
}

#[test]
fn decode_rejects_null_and_empty() {
    assert!(matches!(
        Amount::decode("null"),
        Err(AmountError::ShapeMismatch(_))
    ));
    assert!(matches!(
        Amount::decode(""),
        Err(AmountError::ShapeMismatch(_))
    ));
}

#[test]
fn decode_rejects_unterminated_string() {
    assert!(matches!(
        Amount::decode(r#""100"#),
        Err(AmountError::ShapeMismatch(_))
    ));
    assert!(matches!(
        Amount::decode(r#""100" x"#),
        Err(AmountError::ShapeMismatch(_))
    ));
}

#[test]
fn decode_allows_whitespace() {
    assert_eq!(Amount::decode(" \t\"100\"\n").unwrap(), Amount::drops(100));
    let a = Amount::decode(
        " { \"value\" : \"12.34\" ,\n\"currency\": \"USD\", \"issuer\" :\t\"r1\" } ",
    )
    .unwrap();
    assert_eq!(a, Amount::issued("12.34", "USD", "r1"));
}

#[test]
fn decode_accepts_members_in_any_order() {
    let a = Amount::decode(r#"{"currency":"USD","issuer":"r1","value":"12.34"}"#).unwrap();
    assert_eq!(a, Amount::issued("12.34", "USD", "r1"));
    let b = Amount::decode(r#"{"issuer":"r1","value":"12.34","currency":"USD"}"#).unwrap();
    assert_eq!(b, Amount::issued("12.34", "USD", "r1"));
}

#[test]
fn decode_standard_escapes() {
    assert_eq!(
        Amount::decode(r#""a\nb\t\u0041\/\b\f\r""#).unwrap(),
        Amount::Drops(String::from("a\nb\tA/\u{0008}\u{000C}\r"))
    );
    // An astral character written as a surrogate pair.
    assert_eq!(
        Amount::decode(r#""\ud83d\ude00""#).unwrap(),
        Amount::Drops(String::from("\u{1F600}"))
    );
}

#[test]
fn decode_rejects_bad_escapes_and_raw_controls() {
    assert!(matches!(
        Amount::decode(r#""\x""#),
        Err(AmountError::ShapeMismatch(_))
    ));
    assert!(matches!(
        Amount::decode(r#""\ud83d""#),
        Err(AmountError::ShapeMismatch(_))
    ));
    assert!(matches!(
        Amount::decode("\"a\nb\""),
        Err(AmountError::ShapeMismatch(_))
    ));
}

#[test]
fn decode_rejects_extra_or_duplicate_members() {
    assert!(matches!(
        Amount::decode(r#"{"value":"1","currency":"USD","issuer":"r1","extra":"x"}"#),
        Err(AmountError::ShapeMismatch(_))
    ));
    assert!(matches!(
        Amount::decode(r#"{"value":"1","currency":"USD","currency":"EUR"}"#),
        Err(AmountError::ShapeMismatch(_))
    ));
}

#[test]
fn xrp_converts_whole_units() {
    assert_eq!(Amount::xrp("1").unwrap(), Amount::drops(1_000_000));
    assert_eq!(Amount::xrp("0").unwrap(), Amount::drops(0));
    assert_eq!(Amount::xrp("25").unwrap(), Amount::drops(25_000_000));
}

#[test]
fn xrp_converts_fractions() {
    assert_eq!(Amount::xrp("0.1").unwrap(), Amount::drops(100_000));
    assert_eq!(Amount::xrp(".5").unwrap(), Amount::drops(500_000));
    assert_eq!(Amount::xrp("5.").unwrap(), Amount::drops(5_000_000));
    assert_eq!(Amount::xrp("1.234567").unwrap(), Amount::drops(1_234_567));
}

#[test]
fn xrp_truncates_past_the_sixth_fraction_digit() {
    assert_eq!(Amount::xrp("1.23456789").unwrap(), Amount::drops(1_234_567));
    assert_eq!(Amount::xrp("0.0000001").unwrap(), Amount::drops(0));
}

#[test]
fn xrp_is_exact_where_floating_point_is_not() {
    // The full 64-bit drop range survives the conversion digit for digit.
    assert_eq!(
        Amount::xrp("18446744073709.551615").unwrap(),
        Amount::drops(u64::MAX)
    );
}

#[test]
fn xrp_rejects_garbage() {
    match Amount::xrp("not-a-number") {
        Err(AmountError::ParseError(raw)) => assert_eq!(raw, "not-a-number"),
        other => panic!("expected a parse error, got {:?}", other),
    }
    assert!(matches!(Amount::xrp(""), Err(AmountError::ParseError(_))));
    assert!(matches!(Amount::xrp("."), Err(AmountError::ParseError(_))));
    assert!(matches!(Amount::xrp("1e3"), Err(AmountError::ParseError(_))));
    assert!(matches!(Amount::xrp("-1"), Err(AmountError::ParseError(_))));
    assert!(matches!(
        Amount::xrp("1.2.3"),
        Err(AmountError::ParseError(_))
    ));
}

#[test]
fn xrp_converts_beyond_64_bits() {
    assert_eq!(
        Amount::xrp("18446744073709.551616").unwrap(),
        Amount::Drops(String::from("18446744073709551616"))
    );
    assert_eq!(
        Amount::xrp("100000000000000").unwrap(),
        Amount::Drops(String::from("100000000000000000000"))
    );
}

#[test]
fn with_currency_dispatches_on_the_descriptor() {
    let native = Currency::Xrp;
    let issued = Currency::Issued {
        currency: String::from("USD"),
        issuer: String::from("rhub8VRN55s94qWKDv6jmDy1pUykJzF3wq"),
    };
    assert_eq!(
        Amount::with_currency("1", &native).unwrap(),
        Amount::drops(1_000_000)
    );
    assert_eq!(
        Amount::with_currency("12.34", &issued).unwrap(),
        Amount::issued("12.34", "USD", "rhub8VRN55s94qWKDv6jmDy1pUykJzF3wq")
    );
    assert!(matches!(
        Amount::with_currency("junk", &native),
        Err(AmountError::ParseError(_))
    ));
}

#[test]
fn default_is_zero_drops() {
    assert_eq!(Amount::default(), Amount::drops(0));
    assert_eq!(Amount::default(), Amount::Drops(String::from("0")));
}

#[test]
fn issued_amount_new_keeps_fields() {
    let rec = IssuedAmount::new("1", "EUR", "r2");
    assert_eq!(rec.value, "1");
    assert_eq!(rec.currency, "EUR");
    assert_eq!(rec.issuer, "r2");
}
