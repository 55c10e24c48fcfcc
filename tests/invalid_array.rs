use json_threat_protection::{self as jtp, read::Position, Error};

fn invalid_at(v: &str, offset: usize) {
    let err = jtp::from_slice(v.as_bytes()).validate().unwrap_err();
    assert!(
        matches!(err, Error::InvalidJSON(p) if p == Position { line: 1, column: offset, offset }),
        "unexpected error: {:?}",
        err
    );
}

#[test]
fn unclosed_array() {
    invalid_at(r#"[1, 2, 3"#, 8);
}

#[test]
fn missing_comma() {
    invalid_at(r#"[1 2, 3]"#, 4);
}

#[test]
fn trailing_comma() {
    invalid_at(r#"[1, 2, 3,]"#, 10);
}

#[test]
fn leading_comma() {
    invalid_at(r#"[,1, 2, 3]"#, 2);
}

#[test]
fn missing_lb() {
    let v = r#"1, 2, 3]"#;
    let err = jtp::from_slice(v.as_bytes()).validate().unwrap_err();
    assert!(
        matches!(err, Error::TrailingData(Position { line: 1, column: 2, offset: 2 })),
        "unexpected error: {:?}",
        err
    );
}

#[test]
fn empty_containers() {
    for v in ["[]", "{}", "[[]]", "[{}]", "{\"a\":[]}", " [ ] "] {
        jtp::from_str(v).validate().unwrap();
    }
}

#[test]
fn empty_input() {
    for v in ["", "   ", "\n"] {
        let err = jtp::from_str(v).validate().unwrap_err();
        assert!(matches!(err, Error::InvalidJSON(_)), "unexpected error: {:?}", err);
    }
}
