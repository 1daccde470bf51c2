use tig::object::Kind;
use tig::pack::{write_pack, Pack};
use tig::sha1;

fn with_trailer(mut content: Vec<u8>) -> Vec<u8> {
    let digest = sha1::digest(&content);
    content.extend_from_slice(&digest);
    content
}

fn header(count: u32) -> Vec<u8> {
    let mut c = Vec::new();
    c.extend_from_slice(b"PACK");
    c.extend_from_slice(&2u32.to_be_bytes());
    c.extend_from_slice(&count.to_be_bytes());
    c
}

#[test]
fn ref_delta_base_into_trailer_rejected() {
    let mut c = header(1);
    c.push(0x70);
    c.extend_from_slice(&[0xaa; 5]);
    assert!(Pack::parse(&with_trailer(c)).is_err());
}

#[test]
fn ofs_delta_varint_into_trailer_rejected() {
    let mut c = header(1);
    c.push(0x60);
    c.extend_from_slice(&[0x80; 3]);
    assert!(Pack::parse(&with_trailer(c)).is_err());
}

#[test]
fn empty_pack() {
    let pack = with_trailer(header(0));
    assert!(Pack::parse(&pack).unwrap().is_empty());
}

#[test]
fn write_pack_roundtrip() {
    let blob = b"hello\n".as_slice();
    let large: Vec<u8> = (0..100_000usize).map(|i| (i % 251) as u8).collect();
    let objects = [(Kind::Blob, blob), (Kind::Blob, large.as_slice())];
    let data = write_pack(&objects);

    let pack = Pack::parse(&data).unwrap();
    assert_eq!(pack.len(), 2);
    for (kind, body) in &objects {
        let oid = tig::object::compute_oid(*kind, body);
        let (got_kind, got_body) = pack.read_object(&oid).unwrap().unwrap();
        assert_eq!(got_kind, *kind);
        assert_eq!(got_body, *body);
    }
}
