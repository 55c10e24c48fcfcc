use json_threat_protection::{self as jtp, read::Position, Error, LexerError, ReadError};

fn at(offset: usize) -> Position {
    Position { line: 1, column: offset, offset }
}

#[test]
fn invalid_utf8_sequence() {
    let v = r#"{"key": "\x80"}"#;
    let err = jtp::from_slice(v.as_bytes()).validate().unwrap_err();
    assert!(
        matches!(err, Error::LexerError(LexerError::ReadError(ReadError::InvalidEscapeSequence(p))) if p == at(11)),
        "unexpected error: {:?}",
        err
    );

    let v = r#"{"key": "\uD800"}"#;
    let err = jtp::from_slice(v.as_bytes()).validate().unwrap_err();
    assert!(
        matches!(err, Error::LexerError(LexerError::ReadError(ReadError::UnexpectedEndOfInput(p))) if p == at(15)),
        "unexpected error: {:?}",
        err
    );
}

#[test]
fn unclosed() {
    let v = r#"{"key": "value}"#;
    let err = jtp::from_slice(v.as_bytes()).validate().unwrap_err();
    assert!(
        matches!(err, Error::LexerError(LexerError::ReadError(ReadError::UnclosedString(p))) if p == at(15)),
        "unexpected error: {:?}",
        err
    );
}

#[test]
fn invalid_escape() {
    let v = r#"{"key": "\z"}"#;
    let err = jtp::from_slice(v.as_bytes()).validate().unwrap_err();
    assert!(
        matches!(err, Error::LexerError(LexerError::ReadError(ReadError::InvalidEscapeSequence(p))) if p == at(11)),
        "unexpected error: {:?}",
        err
    );
}

#[test]
fn invalid_incomplete_escape() {
    for (v, offset) in [(r#"{"key": "\u"}"#, 11), (r#"{"key": "\u1"}"#, 11)] {
        let err = jtp::from_slice(v.as_bytes()).validate().unwrap_err();
        assert!(
            matches!(err, Error::LexerError(LexerError::ReadError(ReadError::UnexpectedEndOfInput(p))) if p == at(offset)),
            "unexpected error: {:?}",
            err
        );
    }
    for (v, offset) in [(r#"{"key": "\u12"}"#, 15), (r#"{"key": "\u123"}"#, 15)] {
        let err = jtp::from_slice(v.as_bytes()).validate().unwrap_err();
        assert!(
            matches!(err, Error::LexerError(LexerError::ReadError(ReadError::NonHexCharacterInUnicodeEscape(p))) if p == at(offset)),
            "unexpected error: {:?}",
            err
        );
    }
}

#[test]
fn control_character_in_string() {
    let err = jtp::from_slice(b"\"a\x01\"").validate().unwrap_err();
    assert!(
        matches!(err, Error::LexerError(LexerError::ReadError(ReadError::ControlCharacterInString(p))) if p == at(3)),
        "unexpected error: {:?}",
        err
    );
}

#[test]
fn invalid_utf8_bytes_in_string() {
    let err = jtp::from_slice(b"\"\xff\"").validate().unwrap_err();
    assert!(
        matches!(err, Error::LexerError(LexerError::InvalidUtf8Sequence(p)) if p == at(3)),
        "unexpected error: {:?}",
        err
    );
}

#[test]
fn lone_low_surrogate() {
    let err = jtp::from_str(r#""\uDC00""#).validate().unwrap_err();
    assert!(
        matches!(err, Error::LexerError(LexerError::ReadError(ReadError::InvalidEscapeSequence(p))) if p == at(7)),
        "unexpected error: {:?}",
        err
    );
}

#[test]
fn high_surrogate_without_low() {
    let err = jtp::from_str(r#""\uD800\u0041""#).validate().unwrap_err();
    assert!(
        matches!(err, Error::LexerError(LexerError::ReadError(ReadError::InvalidEscapeSequence(p))) if p == at(13)),
        "unexpected error: {:?}",
        err
    );
    let err = jtp::from_str(r#""\uD800\n0000""#).validate().unwrap_err();
    assert!(
        matches!(err, Error::LexerError(LexerError::ReadError(ReadError::InvalidEscapeSequence(p))) if p == at(9)),
        "unexpected error: {:?}",
        err
    );
    let err = jtp::from_str(r#""\uD800xxxxxx""#).validate().unwrap_err();
    assert!(
        matches!(err, Error::LexerError(LexerError::ReadError(ReadError::InvalidEscapeSequence(p))) if p == at(8)),
        "unexpected error: {:?}",
        err
    );
}

#[test]
fn decoded_lengths() {
    // "é" is two bytes once decoded, a surrogate pair four, "\n" one.
    let v = r#"["é", "\uD83D\uDE00", "\n"]"#;
    jtp::from_str(v).with_max_string_length(4).validate().unwrap();
    let err = jtp::from_str(v).with_max_string_length(3).validate().unwrap_err();
    match err {
        Error::MaxStringLengthExceeded { limit, str, .. } => {
            assert_eq!(limit, 3);
            assert_eq!(str, "\u{1F600}");
        }
        _ => panic!("unexpected error: {:?}", err),
    }
    let err = jtp::from_str(r#"{"éé": 1}"#)
        .with_max_object_entry_name_length(3)
        .validate()
        .unwrap_err();
    match err {
        Error::MaxObjectEntryNameLengthExceeded { name, .. } => assert_eq!(name, "éé"),
        _ => panic!("unexpected error: {:?}", err),
    }
}

#[test]
fn non_hex_in_low_surrogate() {
    let err = jtp::from_str(r#""\uD800\u12G4""#).validate().unwrap_err();
    assert!(
        matches!(err, Error::LexerError(LexerError::ReadError(ReadError::NonHexCharacterInUnicodeEscape(p))) if p == at(13)),
        "unexpected error: {:?}",
        err
    );
}
