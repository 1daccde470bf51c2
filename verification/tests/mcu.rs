use tig::build::{commit, tree};
use tig::bundle;
use tig::mcu::{commit_count, head_subject, line_for, place, report, Failure};
use tig::object::{compute_oid, Kind, Sig};
use tig::oid::Oid;
use tig::pack::write_pack;

fn chain(n: usize, last: &[u8]) -> (Vec<u8>, Vec<Oid>) {
    let tree = tree(&[]).unwrap();
    let root = compute_oid(Kind::Tree, &tree);
    let mut bodies: Vec<Vec<u8>> = Vec::new();
    let mut oids: Vec<Oid> = Vec::new();
    for i in 0..n {
        let sig = Sig { name: b"n", email: b"e", time: i as i64, tz: b"+0000" };
        let parents: Vec<Oid> = oids.last().copied().into_iter().collect();
        let message: &[u8] = if i + 1 == n { last } else { b"old\n" };
        let body = commit(root, &parents, &sig, &sig, message).unwrap();
        oids.push(compute_oid(Kind::Commit, &body));
        bodies.push(body);
    }
    let mut objects: Vec<(Kind, &[u8])> = vec![(Kind::Tree, &tree)];
    for body in &bodies {
        objects.push((Kind::Commit, body));
    }
    (write_pack(&objects), oids)
}

fn chain_bundle(n: usize, last: &[u8]) -> Vec<u8> {
    let (pack, oids) = chain(n, last);
    let mut refs: Vec<(&[u8], Oid)> = Vec::new();
    if let Some(tip) = oids.last() {
        refs.push((b"refs/heads/main", *tip));
        refs.push((b"refs/heads/first", oids[0]));
    }
    bundle::write(&refs, &[], &pack).unwrap()
}

#[test]
fn counts_of_commits() {
    assert_eq!(commit_count(b"junk"), -1);
    assert_eq!(commit_count(&chain_bundle(0, b"")), 0);
    assert_eq!(commit_count(&chain_bundle(1, b"m")), 1);
    assert_eq!(commit_count(&chain_bundle(7, b"m")), 7);
    let (pack, oids) = chain(2, b"m");
    let absent = bundle::write(&[(b"refs/x", Oid::from_bytes([9; 20]))], &[], &pack).unwrap();
    assert_eq!(commit_count(&absent), -2);
    let last = bundle::write(&[(b"refs/x", oids[1])], &[], &pack).unwrap();
    assert_eq!(commit_count(&last), 2);
}

fn broken_parent() -> Vec<u8> {
    let bad = b"tree x\n\nm";
    let bad_oid = compute_oid(Kind::Commit, bad);
    let sig = Sig { name: b"n", email: b"e", time: 0, tz: b"+0000" };
    let good = commit(Oid::from_bytes([1; 20]), &[bad_oid], &sig, &sig, b"m").unwrap();
    let good_oid = compute_oid(Kind::Commit, &good);
    let pack = write_pack(&[(Kind::Commit, &bad[..]), (Kind::Commit, &good)]);
    bundle::write(&[(b"refs/a", good_oid)], &[], &pack).unwrap()
}

#[test]
fn counts_with_a_broken_commit() {
    assert_eq!(commit_count(&broken_parent()), -3);
    assert_eq!(head_subject(&broken_parent(), 10), Err(Failure::Walk));
    assert_eq!(report(&broken_parent()), ("TIG-FAIL walk\n".to_string(), false));
}

#[test]
fn subjects_of_heads() {
    let data = chain_bundle(2, b"subject line\nbody\n");
    assert_eq!(head_subject(&data, 100).unwrap(), b"subject line");
    assert_eq!(head_subject(&data, 7).unwrap(), b"subject");
    assert_eq!(head_subject(&data, 0).unwrap(), b"");
    assert_eq!(head_subject(b"", 7), Err(Failure::Parse));
    assert_eq!(head_subject(&chain_bundle(0, b""), 7), Err(Failure::Push));
    let (pack, _) = chain(1, b"m");
    let absent = bundle::write(&[(b"refs/x", Oid::from_bytes([9; 20]))], &[], &pack).unwrap();
    assert_eq!(head_subject(&absent, 7), Err(Failure::Push));
}

#[test]
fn reports_of_devices() {
    assert_eq!(
        report(&chain_bundle(3, b"commit 3: embedded demo\n")),
        ("TIG-OK count=3 head=commit 3: embedded demo\n".to_string(), true)
    );
    assert_eq!(
        report(&chain_bundle(2, b"\xe9\n")),
        ("TIG-OK count=2 head=\u{e9}\n".to_string(), false)
    );
    let long = [b'x'; 100];
    assert_eq!(
        report(&chain_bundle(1, &long)).0,
        format!("TIG-OK count=1 head={}\n", "x".repeat(64))
    );
    assert_eq!(
        report(&chain_bundle(0, b"")),
        ("TIG-OK count=0 head=\n".to_string(), false)
    );
    assert_eq!(report(b""), ("TIG-FAIL parse\n".to_string(), false));
    assert_eq!(line_for(&Err(Failure::Push)), "TIG-FAIL push\n");
    assert_eq!(line_for(&Ok((10, b"a\0".to_vec()))), "TIG-OK count=10 head=a\0\n");
}

#[test]
fn blocks_of_memory() {
    assert_eq!(place(0, 8, 16, 64), Some((0, 16)));
    assert_eq!(place(1, 8, 16, 64), Some((8, 24)));
    assert_eq!(place(17, 1, 3, 64), Some((17, 20)));
    assert_eq!(place(48, 16, 16, 64), Some((48, 64)));
    assert_eq!(place(49, 16, 0, 64), Some((64, 64)));
    assert_eq!(place(49, 16, 1, 64), None);
    assert_eq!(place(1, 1, usize::MAX, 64), None);
    assert_eq!(place(usize::MAX, 8, 0, usize::MAX), None);
}
