use tig::build::commit;
use tig::bundle::{self, Bundle};
use tig::err::Error;
use tig::object::{compute_oid, Kind, Sig};
use tig::oid::Oid;
use tig::pack::write_pack;

fn oid(n: u8) -> Oid {
    Oid::from_bytes([n; 20])
}

fn empty_pack_bytes() -> Vec<u8> {
    write_pack(&[])
}

fn with_pack(head: &str) -> Vec<u8> {
    let mut data = head.as_bytes().to_vec();
    data.extend_from_slice(&empty_pack_bytes());
    data
}

fn failure(head: &str) -> Error {
    Bundle::parse(&with_pack(head)).err().unwrap()
}

#[test]
fn heads_of_bundles() {
    let hex = oid(1).to_hex();
    let data = with_pack(&format!("# v2 git bundle\n-{hex} comment\n{hex} refs/a b\n{hex} HEAD\n\n"));
    let bundle = Bundle::parse(&data).ok().unwrap();
    assert_eq!(bundle.prerequisites, vec![oid(1)]);
    assert_eq!(bundle.refs, vec![(&b"refs/a b"[..], oid(1)), (&b"HEAD"[..], oid(1))]);
    assert_eq!(bundle.find_ref(b"HEAD"), Some(oid(1)));
    assert_eq!(bundle.find_ref(b"refs/a"), None);
    assert!(bundle.pack.is_empty());

    let data = with_pack(&format!("# v3 git bundle\n@object-format=sha1\n{hex} HEAD\n\n"));
    assert_eq!(Bundle::parse(&data).ok().unwrap().refs.len(), 1);
}

#[test]
fn first_ref_with_a_name_counts() {
    let data = with_pack(&format!(
        "# v2 git bundle\n{} a\n{} a\n\n",
        oid(1).to_hex(),
        oid(2).to_hex()
    ));
    assert_eq!(Bundle::parse(&data).ok().unwrap().find_ref(b"a"), Some(oid(1)));
}

#[test]
fn broken_heads_of_bundles() {
    let hex = oid(1).to_hex();
    assert_eq!(failure("# v9 git bundle\n\n"), Error::Unsupported("bundle signature"));
    assert_eq!(
        failure("# v3 git bundle\n@object-format=sha256\n\n"),
        Error::Unsupported("bundle capability")
    );
    assert_eq!(failure("# v2 git bundle\n-12\n\n"), Error::Corrupt("bundle prerequisite"));
    assert_eq!(failure("# v2 git bundle\n12\n\n"), Error::Corrupt("bundle ref"));
    assert_eq!(
        failure(&format!("# v2 git bundle\n{hex}\n\n")),
        Error::Corrupt("bundle ref name")
    );
    assert_eq!(
        failure(&format!("# v2 git bundle\n{hex}xHEAD\n\n")),
        Error::Corrupt("bundle ref name")
    );
    assert_eq!(
        failure(&format!("# v2 git bundle\n{} HEAD\n\n", "g".repeat(40))),
        Error::Corrupt("oid hex digit")
    );
    assert_eq!(Bundle::parse(b"# v2").err(), Some(Error::Corrupt("bundle header line")));
    assert_eq!(
        Bundle::parse(b"# v2 git bundle\n").err(),
        Some(Error::Corrupt("bundle header line"))
    );
    assert_eq!(Bundle::parse(b"# v2 git bundle\n\nPACK").err(), Some(Error::UnexpectedEof));
}

#[test]
fn bundles_are_read_as_written() {
    let pack = write_pack(&[(Kind::Blob, &b"hello"[..])]);
    let refs: [(&[u8], Oid); 2] = [(b"refs/heads/a b", oid(1)), (b"\xff", oid(2))];
    let data = bundle::write(&refs, &[], &pack).unwrap();
    let back = Bundle::parse(&data).ok().unwrap();
    assert_eq!(back.refs, refs);
    assert!(back.prerequisites.is_empty());
    let blob = compute_oid(Kind::Blob, b"hello");
    assert_eq!(
        back.pack.read_object(&blob).unwrap(),
        Some((Kind::Blob, b"hello".to_vec()))
    );
    assert!(data.starts_with(b"# v2 git bundle\n0101010101010101010101010101010101010101 refs/heads/a b\n"));
}

#[test]
fn absent_parents_of_shallow_commits_are_prerequisites() {
    let sig = Sig { name: b"n", email: b"e", time: 0, tz: b"+0000" };
    let base = commit(oid(5), &[], &sig, &sig, b"base").unwrap();
    let base_oid = compute_oid(Kind::Commit, &base);
    let one = commit(oid(5), &[oid(7), base_oid, oid(8)], &sig, &sig, b"one").unwrap();
    let one_oid = compute_oid(Kind::Commit, &one);
    let two = commit(oid(5), &[oid(8), oid(9)], &sig, &sig, b"two").unwrap();
    let two_oid = compute_oid(Kind::Commit, &two);
    let pack = write_pack(&[
        (Kind::Commit, &base),
        (Kind::Commit, &one),
        (Kind::Commit, &two),
        (Kind::Blob, b"x"),
    ]);
    let refs: [(&[u8], Oid); 1] = [(b"refs/heads/main", one_oid)];
    let data = bundle::write(&refs, &[one_oid, two_oid], &pack).unwrap();
    let back = Bundle::parse(&data).ok().unwrap();
    assert_eq!(back.prerequisites, vec![oid(7), oid(8), oid(9)]);
    assert_eq!(back.refs, refs);

    assert_eq!(
        bundle::write(&refs, &[oid(1)], &pack).unwrap_err(),
        Error::MissingBase
    );
    assert_eq!(
        bundle::write(&refs, &[compute_oid(Kind::Blob, b"x")], &pack).unwrap_err(),
        Error::Corrupt("shallow object is not a commit")
    );
    assert_eq!(
        bundle::write(&refs, &[one_oid], b"PACK").unwrap_err(),
        Error::UnexpectedEof
    );
    // Without shallow commits the pack is not looked at.
    assert!(bundle::write(&refs, &[], b"PACK").is_ok());
}

#[test]
fn names_that_a_bundle_cannot_hold() {
    for name in [&b""[..], b"a\nb"] {
        assert_eq!(
            bundle::write(&[(name, oid(1))], &[], &empty_pack_bytes()).unwrap_err(),
            Error::Corrupt("bundle ref name")
        );
    }
}
