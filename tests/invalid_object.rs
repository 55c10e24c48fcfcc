use json_threat_protection::{self as jtp, read::Position, Error};

fn invalid_at(v: &str, offset: usize) {
    let err = jtp::from_slice(v.as_bytes()).validate().unwrap_err();
    assert!(
        matches!(err, Error::InvalidJSON(p) if p == Position { line: 1, column: offset, offset }),
        "unexpected error: {:?}",
        err
    );
}

#[test]
fn unclosed_object() {
    invalid_at(r#"{"key": "value""#, 15);
}

#[test]
fn object_missing_comma() {
    invalid_at(r#"{"key": "value" "key2": "value2"}"#, 22);
}

#[test]
fn missing_colon() {
    invalid_at(r#"{"key" "value"}"#, 14);
}

#[test]
fn missing_key() {
    invalid_at(r#"{: "value"}"#, 2);
}

#[test]
fn missing_value() {
    invalid_at(r#"{"key":}"#, 8);
}

#[test]
fn missing_value2() {
    invalid_at(r#"{"key":,}"#, 8);
}

#[test]
fn missing_value3() {
    invalid_at(r#"{"key":, "key2": "value2"}"#, 8);
}

#[test]
fn object_leading_comma() {
    invalid_at(r#"{,"key": "value"}"#, 2);
}

#[test]
fn object_trailing_comma() {
    invalid_at(r#"{"key": "value",}"#, 17);
}

#[test]
fn object_missing_lb() {
    let v = r#""key": "value"}"#;
    let err = jtp::from_slice(v.as_bytes()).validate().unwrap_err();
    assert!(
        matches!(err, Error::TrailingData(Position { line: 1, column: 6, offset: 6 })),
        "unexpected error: {:?}",
        err
    );
}

#[test]
fn duplicates_in_separate_objects() {
    let v = r#"{"a":{"k":1},"b":{"k":2},"k":[{"k":3}]}"#;
    jtp::from_str(v).disallow_duplicate_object_entry_name().validate().unwrap();
    let err = jtp::from_str(r#"{"a":{"k":1,"k":2}}"#)
        .disallow_duplicate_object_entry_name()
        .validate()
        .unwrap_err();
    match err {
        Error::DuplicateObjectEntryName { position, key } => {
            assert_eq!(key, "k");
            assert_eq!(position, Position { line: 1, column: 15, offset: 15 });
        }
        _ => panic!("unexpected error: {:?}", err),
    }
}

#[test]
fn keys_are_compared_decoded() {
    let err = jtp::from_str(r#"{"a":1,"\u0061":2}"#)
        .disallow_duplicate_object_entry_name()
        .validate()
        .unwrap_err();
    assert!(matches!(err, Error::DuplicateObjectEntryName { .. }), "unexpected error: {:?}", err);
}

#[test]
fn literals() {
    jtp::from_str("[true,false,null]").validate().unwrap();
    let err = jtp::from_str("[tru]").validate().unwrap_err();
    assert!(
        matches!(err, json_threat_protection::Error::LexerError(json_threat_protection::LexerError::UnexpectedByte(p)) if p.offset == 5),
        "unexpected error: {:?}",
        err
    );
    let err = jtp::from_str("[nul").validate().unwrap_err();
    assert!(
        matches!(err, Error::LexerError(json_threat_protection::LexerError::ReadError(json_threat_protection::ReadError::UnexpectedEndOfInput(p))) if p.offset == 2),
        "unexpected error: {:?}",
        err
    );
}
