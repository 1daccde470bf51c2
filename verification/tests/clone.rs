use tig::clone::{CloneOptions, Request};
use tig::err::Error;
use tig::pkt;

fn advertisement() -> Vec<u8> {
    let mut b = Vec::new();
    pkt::write_line(&mut b, b"version 2");
    pkt::write_line(&mut b, b"ls-refs");
    pkt::write_line(&mut b, b"fetch=shallow");
    pkt::write_flush(&mut b);
    b
}

fn ls_refs_response(hex: &str) -> Vec<u8> {
    let mut b = Vec::new();
    pkt::write_line(&mut b, format!("{hex} refs/heads/main").as_bytes());
    pkt::write_flush(&mut b);
    b
}

fn fetch_response() -> Vec<u8> {
    let mut b = Vec::new();
    pkt::write_line(&mut b, b"packfile");
    pkt::write_data(&mut b, &[1, b'P', b'A', b'C', b'K']);
    pkt::write_flush(&mut b);
    b
}

#[test]
fn walks_three_requests() {
    let hex = "1111111111111111111111111111111111111111";
    let mut clone = tig::clone::Clone::new(CloneOptions::default());

    assert!(matches!(clone.next_request(), Some(Request::Get { .. })));
    clone.on_response(&advertisement()).unwrap();

    let Some(Request::Post { body, .. }) = clone.next_request() else {
        panic!("ls-refs request expected");
    };
    assert!(String::from_utf8_lossy(&body).contains("command=ls-refs"));
    clone.on_response(&ls_refs_response(hex)).unwrap();

    let Some(Request::Post { body, .. }) = clone.next_request() else {
        panic!("fetch request expected");
    };
    let text = String::from_utf8_lossy(&body);
    assert!(text.contains("command=fetch"));
    assert!(text.contains(&format!("want {hex}")));
    clone.on_response(&fetch_response()).unwrap();

    assert!(clone.is_done());
    assert_eq!(clone.finish().unwrap().pack, b"PACK");
}

#[test]
fn depth_requires_shallow_capability() {
    let mut b = Vec::new();
    pkt::write_line(&mut b, b"version 2");
    pkt::write_line(&mut b, b"ls-refs");
    pkt::write_line(&mut b, b"fetch");
    pkt::write_flush(&mut b);

    let mut clone = tig::clone::Clone::new(CloneOptions {
        depth: Some(1),
        want_ref: None,
    });
    clone.next_request();
    assert_eq!(
        clone.on_response(&b).unwrap_err(),
        Error::Unsupported("server without shallow fetch")
    );
}

#[test]
fn missing_ref_is_error() {
    let mut clone = tig::clone::Clone::new(CloneOptions {
        depth: None,
        want_ref: Some(b"refs/heads/nonexistent".to_vec()),
    });
    clone.next_request();
    clone.on_response(&advertisement()).unwrap();
    assert!(
        clone
            .on_response(&ls_refs_response(
                "1111111111111111111111111111111111111111"
            ))
            .is_err()
    );
}
