use tig::err::Error;
use tig::oid::Oid;
use tig::pkt;
use tig::push::{Push, Request};

fn oid(n: u8) -> Oid {
    Oid::from_bytes([n; 20])
}

fn advertisement(refs: &[(&str, Oid)]) -> Vec<u8> {
    let mut b = Vec::new();
    pkt::write_line(&mut b, b"# service=git-receive-pack");
    pkt::write_flush(&mut b);
    if refs.is_empty() {
        pkt::write_line(
            &mut b,
            b"0000000000000000000000000000000000000000 capabilities^{}\0report-status side-band-64k",
        );
    } else {
        for (i, (name, oid)) in refs.iter().enumerate() {
            let caps = if i == 0 {
                "\0report-status side-band-64k"
            } else {
                ""
            };
            pkt::write_line(&mut b, format!("{} {name}{caps}", oid.to_hex()).as_bytes());
        }
    }
    pkt::write_flush(&mut b);
    b
}

fn ok_report(name: &str) -> Vec<u8> {
    let mut inner = Vec::new();
    pkt::write_line(&mut inner, b"unpack ok");
    pkt::write_line(&mut inner, format!("ok {name}").as_bytes());
    pkt::write_flush(&mut inner);
    let mut body = Vec::new();
    let mut payload = vec![1u8];
    payload.extend_from_slice(&inner);
    pkt::write_data(&mut body, &payload);
    pkt::write_flush(&mut body);
    body
}

#[test]
fn create_ref_on_empty_repository() {
    let mut push = Push::new(
        vec![(b"refs/heads/main".to_vec(), oid(0x11))],
        b"PACK".to_vec(),
    );
    assert!(matches!(push.next_request(), Some(Request::Get { .. })));
    push.on_response(&advertisement(&[])).unwrap();

    let Some(Request::Post { body, .. }) = push.next_request() else {
        panic!("update request expected");
    };
    let text = String::from_utf8_lossy(&body);
    assert!(text.contains("0000000000000000000000000000000000000000 1111"));
    assert!(body.ends_with(b"PACK"));

    push.on_response(&ok_report("refs/heads/main")).unwrap();
    let outcome = push.finish().unwrap();
    assert!(!outcome.up_to_date);
    assert!(outcome.report.unwrap().is_success());
}

#[test]
fn up_to_date_skips_send() {
    let mut push = Push::new(
        vec![(b"refs/heads/main".to_vec(), oid(0x11))],
        b"PACK".to_vec(),
    );
    push.next_request();
    push.on_response(&advertisement(&[("refs/heads/main", oid(0x11))]))
        .unwrap();
    assert!(push.is_done());
    assert!(push.finish().unwrap().up_to_date);
}

#[test]
fn truncated_report_rejected() {
    let mut push = Push::new(
        vec![(b"refs/heads/main".to_vec(), oid(0x11))],
        b"PACK".to_vec(),
    );
    push.next_request();
    push.on_response(&advertisement(&[])).unwrap();

    let mut inner = Vec::new();
    pkt::write_line(&mut inner, b"unpack ok");
    pkt::write_flush(&mut inner);
    let mut body = Vec::new();
    let mut payload = vec![1u8];
    payload.extend_from_slice(&inner);
    pkt::write_data(&mut body, &payload);
    pkt::write_flush(&mut body);

    assert_eq!(
        push.on_response(&body).unwrap_err(),
        Error::Corrupt("report-status missing ref result")
    );
}

#[test]
fn update_uses_advertised_old_oid() {
    let mut push = Push::new(
        vec![(b"refs/heads/main".to_vec(), oid(0x22))],
        b"PACK".to_vec(),
    );
    push.next_request();
    push.on_response(&advertisement(&[("refs/heads/main", oid(0x11))]))
        .unwrap();
    let Some(Request::Post { body, .. }) = push.next_request() else {
        panic!("update request expected");
    };
    let text = String::from_utf8_lossy(&body);
    assert!(text.contains(&format!("{} {}", oid(0x11).to_hex(), oid(0x22).to_hex())));
}
