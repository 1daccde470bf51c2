use tig::oid::Oid;
use tig::pkt;
use tig::protov2::{
    fetch_request, ls_refs_request, parse_advertisement, parse_fetch_response, parse_ls_refs,
};

fn oid(n: u8) -> Oid {
    Oid::from_bytes([n; 20])
}

fn adv_body(with_service: bool, caps: &[&[u8]]) -> Vec<u8> {
    let mut b = Vec::new();
    if with_service {
        pkt::write_line(&mut b, b"# service=git-upload-pack");
        pkt::write_flush(&mut b);
    }
    pkt::write_line(&mut b, b"version 2");
    for c in caps {
        pkt::write_line(&mut b, c);
    }
    pkt::write_flush(&mut b);
    b
}

#[test]
fn advertisement_with_service_prefix() {
    let body = adv_body(
        true,
        &[
            b"agent=git/2.54.0",
            b"ls-refs=unborn",
            b"fetch=shallow wait-for-done",
        ],
    );
    let adv = parse_advertisement(&body).unwrap();
    assert!(adv.ls_refs && adv.fetch && adv.fetch_shallow);
}

#[test]
fn advertisement_without_service_prefix() {
    let body = adv_body(false, &[b"ls-refs", b"fetch"]);
    let adv = parse_advertisement(&body).unwrap();
    assert!(adv.ls_refs && adv.fetch && !adv.fetch_shallow);
}

#[test]
fn advertisement_v1_rejected() {
    let mut body = Vec::new();
    pkt::write_line(&mut body, b"version 1");
    pkt::write_flush(&mut body);
    assert!(parse_advertisement(&body).is_err());
}

#[test]
fn ls_refs_request_encoding() {
    let body = ls_refs_request(&[b"refs/heads/"]);
    let expected =
        b"0014command=ls-refs\n00010009peel\n000csymrefs\n001bref-prefix refs/heads/\n0000";
    assert_eq!(body, expected);
}

#[test]
fn ls_refs_response_parse() {
    let hex1 = "1111111111111111111111111111111111111111";
    let hex2 = "2222222222222222222222222222222222222222";
    let mut body = Vec::new();
    pkt::write_line(
        &mut body,
        format!("{hex1} HEAD symref-target:refs/heads/main").as_bytes(),
    );
    pkt::write_line(
        &mut body,
        format!("{hex1} refs/tags/v1 peeled:{hex2}").as_bytes(),
    );
    pkt::write_flush(&mut body);

    let refs = parse_ls_refs(&body).unwrap();
    assert_eq!(refs.len(), 2);
    assert_eq!(refs[0].name, b"HEAD");
    assert_eq!(
        refs[0].symref_target.as_deref(),
        Some(&b"refs/heads/main"[..])
    );
    assert_eq!(refs[1].oid, oid(0x11));
    assert_eq!(refs[1].peeled, Some(oid(0x22)));
}

#[test]
fn fetch_request_contents() {
    let body = fetch_request(&[oid(0xab)], Some(1));
    let text = String::from_utf8_lossy(&body);
    assert!(text.contains("command=fetch"));
    assert!(text.contains("deepen 1"));
    assert!(text.contains(&format!("want {}", oid(0xab).to_hex())));
    assert!(text.contains("done"));
}

#[test]
fn fetch_response_sideband() {
    let mut body = Vec::new();
    pkt::write_line(&mut body, b"shallow-info");
    pkt::write_line(
        &mut body,
        b"shallow 1111111111111111111111111111111111111111",
    );
    pkt::write_delim(&mut body);
    pkt::write_line(&mut body, b"packfile");
    pkt::write_data(&mut body, &[1, b'P', b'A']);
    pkt::write_data(&mut body, &[2, b'p', b'r', b'o', b'g']);
    pkt::write_data(&mut body, &[1, b'C', b'K']);
    pkt::write_flush(&mut body);

    let resp = parse_fetch_response(&body).unwrap();
    assert_eq!(resp.shallow, vec![oid(0x11)]);
    assert_eq!(resp.pack, b"PACK");
}

#[test]
fn fetch_response_error_band() {
    let mut body = Vec::new();
    pkt::write_line(&mut body, b"packfile");
    pkt::write_data(&mut body, &[3, b'n', b'g']);
    pkt::write_flush(&mut body);
    assert!(parse_fetch_response(&body).is_err());
}
