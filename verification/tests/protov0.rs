use tig::oid::Oid;
use tig::pkt::{self, Pkt, PktReader};
use tig::protov0::{
    parse_receive_advertisement, parse_report_status, push_request, Command, ZERO_OID,
};

fn oid(n: u8) -> Oid {
    Oid::from_bytes([n; 20])
}

#[test]
fn advertisement_with_refs() {
    let mut b = Vec::new();
    pkt::write_line(&mut b, b"# service=git-receive-pack");
    pkt::write_flush(&mut b);
    let hex = "1111111111111111111111111111111111111111";
    pkt::write_line(
        &mut b,
        format!("{hex} refs/heads/main\0report-status side-band-64k delete-refs").as_bytes(),
    );
    pkt::write_line(&mut b, format!("{hex} refs/tags/v1").as_bytes());
    pkt::write_flush(&mut b);

    let adv = parse_receive_advertisement(&b).unwrap();
    assert!(adv.report_status && adv.side_band_64k && adv.delete_refs);
    assert_eq!(adv.refs.len(), 2);
    assert_eq!(adv.refs[0].0, b"refs/heads/main");
}

#[test]
fn advertisement_empty_repository() {
    let mut b = Vec::new();
    pkt::write_line(&mut b, b"# service=git-receive-pack");
    pkt::write_flush(&mut b);
    pkt::write_line(
        &mut b,
        b"0000000000000000000000000000000000000000 capabilities^{}\0report-status",
    );
    pkt::write_flush(&mut b);

    let adv = parse_receive_advertisement(&b).unwrap();
    assert!(adv.report_status);
    assert!(adv.refs.is_empty());
}

#[test]
fn push_request_layout() {
    let commands = [Command {
        old: Oid::from_bytes(ZERO_OID),
        new: oid(0x11),
        name: b"refs/heads/main".to_vec(),
    }];
    let body = push_request(&commands, true, b"PACKDATA");
    let text = String::from_utf8_lossy(&body);
    assert!(text.contains("report-status side-band-64k"));
    assert!(body.ends_with(b"PACKDATA"));
    let mut r = PktReader::new(&body);
    assert!(matches!(r.expect_next().unwrap(), Pkt::Data(_)));
    assert_eq!(r.expect_next().unwrap(), Pkt::Flush);
    assert_eq!(r.rest(), b"PACKDATA");
}

#[test]
fn report_status_sideband() {
    let mut inner = Vec::new();
    pkt::write_line(&mut inner, b"unpack ok");
    pkt::write_line(&mut inner, b"ok refs/heads/main");
    pkt::write_line(&mut inner, b"ng refs/heads/x non-fast-forward");
    pkt::write_flush(&mut inner);

    let mut body = Vec::new();
    let mut payload = vec![1u8];
    payload.extend_from_slice(&inner);
    pkt::write_data(&mut body, &payload);
    pkt::write_flush(&mut body);

    let report = parse_report_status(&body, true).unwrap();
    assert!(report.unpack_ok);
    assert!(!report.is_success());
    assert_eq!(report.results.len(), 2);
    assert_eq!(
        report.results[1].1.as_deref(),
        Some(&b"non-fast-forward"[..])
    );
}

#[test]
fn report_status_plain() {
    let mut body = Vec::new();
    pkt::write_line(&mut body, b"unpack ok");
    pkt::write_line(&mut body, b"ok refs/heads/main");
    pkt::write_flush(&mut body);

    let report = parse_report_status(&body, false).unwrap();
    assert!(report.is_success());
}
