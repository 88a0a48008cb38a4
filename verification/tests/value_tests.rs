use cfgreader::value::CfgType;

fn classify(s: &str) -> Option<CfgType> {
    CfgType::from_string(s.to_string())
}

#[test]
fn integers_classify_as_integers() {
    assert_eq!(classify("800"), Some(CfgType::IntNumber(800)));
    assert_eq!(classify("0"), Some(CfgType::IntNumber(0)));
    assert_eq!(classify("-5"), Some(CfgType::IntNumber(-5)));
    assert_eq!(classify("+42"), Some(CfgType::IntNumber(42)));
    assert_eq!(classify("007"), Some(CfgType::IntNumber(7)));
    assert_eq!(classify("2147483647"), Some(CfgType::IntNumber(2147483647)));
    assert_eq!(classify("-2147483648"), Some(CfgType::IntNumber(-2147483648)));
}

#[test]
fn out_of_range_integer_falls_through_to_float() {
    assert_eq!(
        classify("2147483648"),
        Some(CfgType::FloatNumber("2147483648".to_string()))
    );
    assert_eq!(
        classify("-2147483649"),
        Some(CfgType::FloatNumber("-2147483649".to_string()))
    );
}

#[test]
fn floats_keep_their_text() {
    assert_eq!(classify("1.5"), Some(CfgType::FloatNumber("1.5".to_string())));
    assert_eq!(classify(".5"), Some(CfgType::FloatNumber(".5".to_string())));
    assert_eq!(classify("5."), Some(CfgType::FloatNumber("5.".to_string())));
    assert_eq!(classify("1e5"), Some(CfgType::FloatNumber("1e5".to_string())));
    assert_eq!(
        classify("-2.5E-3"),
        Some(CfgType::FloatNumber("-2.5E-3".to_string()))
    );
    match classify("1.5") {
        Some(CfgType::FloatNumber(t)) => assert_eq!(t.parse::<f32>().unwrap(), 1.5f32),
        other => panic!("expected a float, got {:?}", other),
    }
}

#[test]
fn special_float_spellings_beat_the_literal_rule() {
    assert_eq!(classify("inf"), Some(CfgType::FloatNumber("inf".to_string())));
    assert_eq!(
        classify("Infinity"),
        Some(CfgType::FloatNumber("Infinity".to_string()))
    );
    assert_eq!(classify("NaN"), Some(CfgType::FloatNumber("NaN".to_string())));
}

#[test]
fn bare_words_classify_as_literals() {
    assert_eq!(classify("fast"), Some(CfgType::Literal("fast".to_string())));
    assert_eq!(classify("X"), Some(CfgType::Literal("X".to_string())));
    assert_eq!(classify("TRUE"), Some(CfgType::Literal("TRUE".to_string())));
}

#[test]
fn quoted_strings_lose_their_quotes() {
    assert_eq!(classify("\"main\""), Some(CfgType::String("main".to_string())));
    assert_eq!(classify("\"\""), Some(CfgType::String(String::new())));
    assert_eq!(
        classify("\"two words\""),
        Some(CfgType::String("two words".to_string()))
    );
}

#[test]
fn string_round_trip_reproduces_the_value() {
    let first = classify("\"main\"");
    let inner = match &first {
        Some(CfgType::String(t)) => t.clone(),
        other => panic!("expected a string, got {:?}", other),
    };
    let rewrapped = format!("\"{}\"", inner);
    assert_eq!(classify(&rewrapped), first);
}

#[test]
fn unclassifiable_values_are_rejected() {
    assert_eq!(classify(""), None);
    assert_eq!(classify("abc123"), None);
    assert_eq!(classify("two words"), None);
    assert_eq!(classify("12.5.6"), None);
    assert_eq!(classify("1e"), None);
    assert_eq!(classify("e5"), None);
    assert_eq!(classify("\"a\"b\""), None);
    assert_eq!(classify("\""), None);
    assert_eq!(classify("snake_case"), None);
}

#[test]
fn kind_tests_match_the_variant() {
    let v = classify("800").unwrap();
    assert!(v.is_int());
    assert!(!v.is_float() && !v.is_literal() && !v.is_string());
    let v = classify("1.5").unwrap();
    assert!(v.is_float());
    assert!(!v.is_int() && !v.is_literal() && !v.is_string());
    let v = classify("fast").unwrap();
    assert!(v.is_literal());
    assert!(!v.is_int() && !v.is_float() && !v.is_string());
    let v = classify("\"main\"").unwrap();
    assert!(v.is_string());
    assert!(!v.is_int() && !v.is_float() && !v.is_literal());
}
