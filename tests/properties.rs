use json_threat_protection::lexer::{Lexer, Token};
use json_threat_protection::read::{IoRead, LineColumnIterator, Position, Read, SliceRead, StrRead};
use json_threat_protection::read::decode_hex_sequence;
use json_threat_protection::{self as jtp, Error, NO_LIMIT};

/// A small deterministic generator of bytes drawn mostly from JSON's alphabet.
struct Gen(u64);

impl Gen {
    fn next(&mut self) -> u64 {
        self.0 = self.0.wrapping_mul(6364136223846793005).wrapping_add(1442695040888963407);
        self.0 >> 33
    }

    fn bytes(&mut self, max_len: usize) -> Vec<u8> {
        const ALPHABET: &[u8] = b"{}[],:\"\\ \n0123456789-+.eEtrufalsn\x01\xc3\xa9u";
        let len = (self.next() as usize) % (max_len + 1);
        (0..len)
            .map(|_| {
                let r = self.next() as usize;
                if r % 17 == 0 {
                    (r >> 8) as u8
                } else {
                    ALPHABET[r % ALPHABET.len()]
                }
            })
            .collect()
    }
}

fn corpus() -> Vec<Vec<u8>> {
    let mut out: Vec<Vec<u8>> = [
        r#"{"a":1,"b":[2,3],"c":null}"#,
        r#"[1, 2, 3"#,
        r#""key": "value"}"#,
        r#"{"key": 0123}"#,
        r#"{"key": "\uD800"}"#,
        r#"{"key": "\uD83D\uDE00"}"#,
        r#"[-0, 0.5, 1e5, 1E-5, -12.5e+3, true, false, null, "x", {}, []]"#,
        r#"{"a":{"b":{"c":[1,{"d":"e"}]}}}"#,
        "[1,]",
        "{\"a\" 1}",
        "\"\\u0000\"",
        "\"tab\there\"",
        "01",
        "-",
        "1 2",
        "nul",
        "[\"\\/\\b\\f\\n\\r\\t\\\"\\\\\"]",
    ]
    .iter()
    .map(|s| s.as_bytes().to_vec())
    .collect();
    let mut g = Gen(7);
    for _ in 0..3000 {
        out.push(g.bytes(24));
    }
    out
}

fn describe(r: &Result<(), Error>) -> String {
    format!("{:?}", r)
}

#[test]
fn agrees_with_serde_json() {
    for data in corpus() {
        let theirs = serde_json::from_slice::<serde_json::Value>(&data);
        if let Err(e) = &theirs {
            let msg = e.to_string();
            if msg.contains("out of range") || msg.contains("recursion limit") {
                continue;
            }
        }
        let ours = jtp::from_slice(&data).validate();
        assert_eq!(ours.is_ok(), theirs.is_ok(), "input {:?}: {:?}", String::from_utf8_lossy(&data), ours);
    }
}

#[test]
fn accepts_mixed_document() {
    jtp::from_str(r#"{"a":1,"b":[2,3],"c":null}"#).validate().unwrap();
}

#[test]
fn peek_is_idempotent() {
    let mut lexer = Lexer::new(SliceRead::new(br#"  "ab\n" 12 ]"#));
    let mut buf = Vec::new();
    let first = lexer.peek(&mut buf).unwrap();
    let pos1 = lexer.position();
    let buf1 = buf.clone();
    let second = lexer.peek(&mut buf).unwrap();
    assert_eq!(first, Some(Token::String));
    assert_eq!(first, second);
    assert_eq!(pos1, lexer.position());
    assert_eq!(buf, buf1);
    assert_eq!(buf, b"ab\n".to_vec());
    let mut other = Vec::new();
    assert_eq!(lexer.next(&mut other).unwrap(), Some(Token::String));
    assert_eq!(other, b"ab\n".to_vec());
    assert_eq!(lexer.peek(&mut other).unwrap(), Some(Token::Number));
    assert_eq!(lexer.next(&mut other).unwrap(), Some(Token::Number));
    assert_eq!(lexer.next(&mut other).unwrap(), Some(Token::RBracket));
    assert_eq!(lexer.peek(&mut other).unwrap(), None);
    assert_eq!(lexer.next(&mut other).unwrap(), None);
    assert_eq!(lexer.position(), Position { line: 1, column: 13, offset: 13 });
}

fn run_in_steps(data: &[u8], n: usize, max_depth: usize) -> Result<(), Error> {
    let mut v = jtp::from_slice(data).with_max_depth(max_depth);
    loop {
        match v.validate_with_steps(n) {
            Ok(true) => return Ok(()),
            Ok(false) => {}
            Err(e) => return Err(e),
        }
    }
}

#[test]
fn steps_agree_with_validate() {
    for data in corpus() {
        for max_depth in [2, NO_LIMIT] {
            let whole = describe(&jtp::from_slice(&data).with_max_depth(max_depth).validate());
            for n in [1, 2, 3, 7, 2000] {
                assert_eq!(describe(&run_in_steps(&data, n, max_depth)), whole, "input {:?}", data);
            }
        }
    }
}

#[test]
fn steps_suspend_and_resume() {
    let mut v = jtp::from_str("[1, [2], {\"a\": 3}]");
    assert_eq!(v.validate_with_steps(1).unwrap(), false);
    assert_eq!(v.validate_with_steps(3).unwrap(), false);
    assert_eq!(v.validate_with_steps(100).unwrap(), true);
    assert_eq!(v.validate_with_steps(1).unwrap(), true);
}

#[test]
fn depth_bound() {
    let nested = |d: usize| format!("{}{}", "[".repeat(d), "]".repeat(d));
    for d in 1..8usize {
        for max in 0..d {
            let err = jtp::from_str(&nested(d)).with_max_depth(max).validate().unwrap_err();
            match err {
                Error::MaxDepthExceeded { position, limit } => {
                    assert_eq!(limit, max);
                    assert_eq!(position.offset, max + 1);
                }
                _ => panic!("unexpected error: {:?}", err),
            }
        }
        jtp::from_str(&nested(d)).with_max_depth(d).validate().unwrap();
    }
    let deep = nested(100_000);
    jtp::from_str(&deep).validate().unwrap();
}

#[test]
fn never_panics_on_noise() {
    let mut g = Gen(99);
    for _ in 0..5000 {
        let data = g.bytes(64);
        let _ = jtp::from_slice(&data).validate();
        let mut v = jtp::from_slice(&data).disallow_duplicate_object_entry_name().with_max_string_length(3);
        let _ = v.validate_with_steps(2);
    }
}

#[test]
fn decoded_strings_are_utf8() {
    let inputs = [
        r#""plain ascii""#,
        r#""\u0041\u00e9\u20AC\uD83D\uDE00\uFFFF""#,
        r#""\u0000\u007f\u0080\u07FF\u0800\uDBFF\uDFFF""#,
    ];
    for v in inputs {
        let mut lexer = Lexer::new(SliceRead::new(v.as_bytes()));
        let mut buf = Vec::new();
        assert_eq!(lexer.next(&mut buf).unwrap(), Some(Token::String));
        assert!(std::str::from_utf8(&buf).is_ok());
    }
    let mut lexer = Lexer::new(SliceRead::new(br#""\u0041\u00e9\uD83D\uDE00""#));
    let mut buf = Vec::new();
    lexer.next(&mut buf).unwrap();
    assert_eq!(buf, "A\u{e9}\u{1F600}".as_bytes().to_vec());
}

#[test]
fn positions_grow() {
    let data = b"[1,\n {\"a\": tru}]";
    let mut lexer = Lexer::new(SliceRead::new(data));
    let mut buf = Vec::new();
    let mut last = 0;
    loop {
        match lexer.next(&mut buf) {
            Ok(Some(_)) => {
                let p = lexer.position();
                assert!(p.offset >= last);
                last = p.offset;
            }
            Ok(None) => panic!("expected an error"),
            Err(e) => {
                let p = match e {
                    jtp::LexerError::UnexpectedByte(p) => p,
                    _ => panic!("unexpected error: {:?}", e),
                };
                assert!(p.offset >= last);
                assert_eq!(p, Position { line: 2, column: 11, offset: 15 });
                break;
            }
        }
    }
}

#[test]
fn readers_agree() {
    for data in corpus() {
        let a = describe(&jtp::from_slice(&data).validate());
        if let Ok(s) = std::str::from_utf8(&data) {
            assert_eq!(describe(&jtp::from_str(s).validate()), a);
            let r = jtp::Validator::new(StrRead::new(s)).validate();
            assert_eq!(describe(&r), a);
        }
        let mut copy = Vec::new();
        std::io::Read::read_to_end(&mut std::io::BufReader::new(data.as_slice()), &mut copy).unwrap();
        assert_eq!(describe(&jtp::Validator::new(IoRead::new(copy)).validate()), a);
    }
}

#[test]
fn hex_sequences() {
    assert_eq!(decode_hex_sequence(b"0000"), 0);
    assert_eq!(decode_hex_sequence(b"00e9"), 0xE9);
    assert_eq!(decode_hex_sequence(b"D83D"), 0xD83D);
    assert_eq!(decode_hex_sequence(b"fFfF"), 0xFFFF);
}

#[test]
fn line_and_column() {
    let mut it = LineColumnIterator::new(b"ab\ncd");
    assert_eq!(it.position(), Position { line: 1, column: 0, offset: 0 });
    assert_eq!(it.peek(), Some(b'a'));
    it.discard();
    assert_eq!(it.next(), Some(b'b'));
    assert_eq!(it.position(), Position { line: 1, column: 2, offset: 2 });
    assert_eq!(it.next(), Some(b'\n'));
    assert_eq!(it.position(), Position { line: 2, column: 0, offset: 3 });
    it.discard();
    assert_eq!(it.next(), Some(b'd'));
    assert_eq!(it.next(), None);
    assert_eq!(it.position(), Position { line: 2, column: 2, offset: 5 });
    let mut r = SliceRead::new(b"x\ny");
    r.next();
    r.next();
    assert_eq!(r.position(), Position { line: 2, column: 0, offset: 2 });
    assert_eq!(Position::default(), Position { line: 1, column: 0, offset: 0 });
}

#[test]
fn whitespace_lines() {
    let err = jtp::from_str("[1,\n\n  x]").validate().unwrap_err();
    match err {
        Error::LexerError(jtp::LexerError::UnexpectedByte(p)) => {
            assert_eq!(p, Position { line: 3, column: 3, offset: 8 })
        }
        _ => panic!("unexpected error: {:?}", err),
    }
}

#[test]
fn reader_stops_at_error() {
    let mut r = SliceRead::new(b"0123");
    assert_eq!(r.next(), Some(b'0'));
    let err = r.next_number(b'0').unwrap_err();
    assert_eq!(err, jtp::ReadError::LeadingZerosInNumber(Position { line: 1, column: 1, offset: 1 }));
    assert_eq!(r.position(), Position { line: 1, column: 1, offset: 1 });
    assert_eq!(r.peek(), Some(b'1'));
}
