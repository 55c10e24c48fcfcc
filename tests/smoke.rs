use json_threat_protection as jtp;

#[test]
fn smoke() {
    let v = b"false".to_vec();
    jtp::from_slice(&v).validate().unwrap();
}
