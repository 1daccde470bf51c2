use tig::oid::Oid;

#[test]
fn hex_roundtrip() {
    let hex = "a9993e364706816aba3e25717850c26c9cd0d89d";
    let oid = Oid::from_hex(hex.as_bytes()).unwrap();
    assert_eq!(oid.to_hex(), hex);
}

#[test]
fn rejects_bad_hex() {
    assert!(Oid::from_hex(b"xyz").is_err());
    assert!(Oid::from_hex(&[b'g'; 40]).is_err());
}
