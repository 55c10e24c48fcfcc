use json_threat_protection::{self as jtp, read::IoRead, read::Position, Validator};
use std::io::Read;

fn read_all<R: Read>(mut reader: R) -> Vec<u8> {
    let mut bytes = Vec::new();
    reader.read_to_end(&mut bytes).unwrap();
    bytes
}

fn pos(line: usize, column: usize, offset: usize) -> Position {
    Position { line, column, offset }
}

#[test]
fn no_limit() {
    let v = br#"{"key":"value","key2":123,"key3":true,"key4":false,"key5":null,"key6":[1,2,3],"key7":{"key10":true,"key11":false,"key12":null,"key13":[1,2,3],"key8":"value","key9":123}}"#;
    let validator = jtp::from_slice(v);
    validator.validate().unwrap();
}

#[test]
fn limit_string() {
    let v = br#""123456""#.to_vec();

    let result = jtp::from_slice(&v).with_max_string_length(5).validate();
    assert!(result.is_err());
    match result.unwrap_err() {
        jtp::Error::MaxStringLengthExceeded { position, limit, str } => {
            assert_eq!(position, pos(1, 8, 8));
            assert_eq!(limit, 5);
            assert_eq!(str, "123456");
        }
        _ => panic!("unexpected error"),
    }

    jtp::from_slice(&v).with_max_string_length(6).validate().unwrap();

    let bytes = read_all(std::io::BufReader::new(v.as_slice()));
    let result = Validator::new(IoRead::new(bytes.clone())).with_max_string_length(5).validate();
    assert!(result.is_err());
    match result.unwrap_err() {
        jtp::Error::MaxStringLengthExceeded { position, limit, str } => {
            assert_eq!(position, pos(1, 8, 8));
            assert_eq!(limit, 5);
            assert_eq!(str, "123456");
        }
        _ => panic!("unexpected error"),
    }

    Validator::new(IoRead::new(bytes.clone())).with_max_string_length(6).validate().unwrap();
}

#[test]
fn limit_array() {
    let v = b"[1,2,3,4,5]".to_vec();

    let result = jtp::from_slice(&v).with_max_array_entries(4).validate();
    assert!(result.is_err());
    match result.unwrap_err() {
        jtp::Error::MaxArrayEntriesExceeded { position, limit } => {
            assert_eq!(position, pos(1, 10, 10));
            assert_eq!(limit, 4);
        }
        _ => panic!("unexpected error"),
    }

    jtp::from_slice(&v).with_max_array_entries(5).validate().unwrap();

    let bytes = read_all(std::io::BufReader::new(v.as_slice()));
    let result = Validator::new(IoRead::new(bytes.clone())).with_max_array_entries(4).validate();
    match result.unwrap_err() {
        jtp::Error::MaxArrayEntriesExceeded { position, limit } => {
            assert_eq!(position, pos(1, 10, 10));
            assert_eq!(limit, 4);
        }
        _ => panic!("unexpected error"),
    }
    Validator::new(IoRead::new(bytes.clone())).with_max_array_entries(5).validate().unwrap();
}

#[test]
fn limit_object_entries() {
    let v = br#"{"key1":1,"key2":2,"key3":3,"key4":4,"key5":5}"#.to_vec();

    let result = jtp::from_slice(&v).with_max_object_entries(4).validate();
    assert!(result.is_err());
    match result.unwrap_err() {
        jtp::Error::MaxObjectEntriesExceeded { position, limit } => {
            assert_eq!(position, pos(1, 45, 45));
            assert_eq!(limit, 4);
        }
        _ => panic!("unexpected error"),
    }

    jtp::from_slice(&v).with_max_object_entries(5).validate().unwrap();

    let bytes = read_all(std::io::BufReader::new(v.as_slice()));
    let result = Validator::new(IoRead::new(bytes.clone())).with_max_object_entries(4).validate();
    match result.unwrap_err() {
        jtp::Error::MaxObjectEntriesExceeded { position, limit } => {
            assert_eq!(position, pos(1, 45, 45));
            assert_eq!(limit, 4);
        }
        _ => panic!("unexpected error"),
    }
    Validator::new(IoRead::new(bytes.clone())).with_max_object_entries(5).validate().unwrap();
}

#[test]
fn limit_object_entry_name_length() {
    let v = br#"{"12345":1,"123456":2}"#.to_vec();

    let result = jtp::from_slice(&v).with_max_object_entry_name_length(5).validate();
    assert!(result.is_err());
    match result.unwrap_err() {
        jtp::Error::MaxObjectEntryNameLengthExceeded { position, limit, name } => {
            assert_eq!(position, pos(1, 19, 19));
            assert_eq!(limit, 5);
            assert_eq!(name, "123456");
        }
        _ => panic!("unexpected error"),
    }

    jtp::from_slice(&v).with_max_object_entry_name_length(6).validate().unwrap();

    let bytes = read_all(std::io::BufReader::new(v.as_slice()));
    let result = Validator::new(IoRead::new(bytes.clone())).with_max_object_entry_name_length(5).validate();
    match result.unwrap_err() {
        jtp::Error::MaxObjectEntryNameLengthExceeded { position, limit, name } => {
            assert_eq!(position, pos(1, 19, 19));
            assert_eq!(limit, 5);
            assert_eq!(name, "123456");
        }
        _ => panic!("unexpected error"),
    }
    Validator::new(IoRead::new(bytes.clone())).with_max_object_entry_name_length(6).validate().unwrap();
}

#[test]
fn disallow_duplicate_object_entry_name() {
    let v = r#"{"key":1,"key":2}"#;

    let result = jtp::from_str(v).disallow_duplicate_object_entry_name().validate();
    assert!(result.is_err());
    match result.unwrap_err() {
        jtp::Error::DuplicateObjectEntryName { position, key } => {
            assert_eq!(position, pos(1, 14, 14));
            assert_eq!(key, "key");
        }
        _ => panic!("unexpected error"),
    }

    jtp::from_str(v).allow_duplicate_object_entry_name().validate().unwrap();

    let bytes = read_all(std::io::BufReader::new(v.as_bytes()));
    let result = Validator::new(IoRead::new(bytes.clone())).disallow_duplicate_object_entry_name().validate();
    match result.unwrap_err() {
        jtp::Error::DuplicateObjectEntryName { position, key } => {
            assert_eq!(position, pos(1, 14, 14));
            assert_eq!(key, "key");
        }
        _ => panic!("unexpected error"),
    }
    Validator::new(IoRead::new(bytes.clone())).allow_duplicate_object_entry_name().validate().unwrap();
}

#[test]
fn limit_depth() {
    let v = r#"{"key":{"key":{"key":{"key":{"key":1}}}}}"#;

    let result = jtp::from_str(v).with_max_depth(4).validate();
    assert!(result.is_err());
    match result.unwrap_err() {
        jtp::Error::MaxDepthExceeded { position, limit } => {
            assert_eq!(position, pos(1, 29, 29));
            assert_eq!(limit, 4);
        }
        _ => panic!("unexpected error"),
    }

    jtp::from_str(v).with_max_depth(5).validate().unwrap();

    let bytes = read_all(std::io::BufReader::new(v.as_bytes()));
    let result = Validator::new(IoRead::new(bytes.clone())).with_max_depth(4).validate();
    match result.unwrap_err() {
        jtp::Error::MaxDepthExceeded { position, limit } => {
            assert_eq!(position, pos(1, 29, 29));
            assert_eq!(limit, 4);
        }
        _ => panic!("unexpected error"),
    }
    Validator::new(IoRead::new(bytes.clone())).with_max_depth(5).validate().unwrap();
}

#[test]
fn skip_whitespace() {
    let v = r#"    {"key"    :   1
    
    ,   
     
        "key2":    "32 "
     }     "#;
    jtp::from_str(v).validate().unwrap();
    jtp::from_slice(v.as_bytes()).validate().unwrap();
}
