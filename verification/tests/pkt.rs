use tig::err::Error;
use tig::pkt::{write_data, write_delim, write_flush, write_line, Pkt, PktReader};

#[test]
fn roundtrip() {
    let mut buf = Vec::new();
    write_line(&mut buf, b"version 2");
    write_delim(&mut buf);
    write_data(&mut buf, &[0x01, 0xff]);
    write_flush(&mut buf);

    let mut r = PktReader::new(&buf);
    assert_eq!(r.expect_next().unwrap(), Pkt::Data(b"version 2\n"));
    assert_eq!(r.expect_next().unwrap(), Pkt::Delim);
    assert_eq!(r.expect_next().unwrap(), Pkt::Data(&[0x01, 0xff]));
    assert_eq!(r.expect_next().unwrap(), Pkt::Flush);
    assert!(r.next().is_none());
}

#[test]
fn known_encoding() {
    let mut buf = Vec::new();
    write_line(&mut buf, b"a");
    assert_eq!(buf, b"0006a\n");
    buf.clear();
    write_flush(&mut buf);
    assert_eq!(buf, b"0000");
}

#[test]
fn truncated_rejected() {
    let mut r = PktReader::new(b"000");
    assert_eq!(r.expect_next().unwrap_err(), Error::UnexpectedEof);
    let mut r = PktReader::new(b"0010short");
    assert_eq!(r.expect_next().unwrap_err(), Error::UnexpectedEof);
}

#[test]
fn bad_length_rejected() {
    let mut r = PktReader::new(b"00xx");
    assert!(r.expect_next().is_err());
    let mut r = PktReader::new(b"0003");
    assert!(r.expect_next().is_err());
}
