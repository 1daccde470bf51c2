use tig::object::{compute_oid, parse_commit, Kind, TreeEntry, TreeIter};
use tig::oid::Oid;

#[test]
fn oid_of_empty_blob() {
    assert_eq!(
        compute_oid(Kind::Blob, b"").to_hex(),
        "e69de29bb2d1d6434b8b29ae775ad8c2e48c5391"
    );
}

#[test]
fn oid_of_hello_blob() {
    assert_eq!(
        compute_oid(Kind::Blob, b"hello\n").to_hex(),
        "ce013625030ba8dba906f756967f9e9ca394464a"
    );
}

#[test]
fn parse_minimal_commit() {
    let body = b"tree a9993e364706816aba3e25717850c26c9cd0d89d\n\
          parent e69de29bb2d1d6434b8b29ae775ad8c2e48c5391\n\
          author Alice <alice@example.com> 1700000000 +0900\n\
          committer Bob <bob@example.com> 1700000100 -0500\n\
          \n\
          subject\n\nbody\n";
    let c = parse_commit(body).unwrap();
    assert_eq!(c.parents.len(), 1);
    assert_eq!(c.author.name, b"Alice");
    assert_eq!(c.author.email, b"alice@example.com");
    assert_eq!(c.author.time, 1_700_000_000);
    assert_eq!(c.author.tz, b"+0900");
    assert_eq!(c.committer.time, 1_700_000_100);
    assert_eq!(c.message, b"subject\n\nbody\n");
}

#[test]
fn parse_commit_skips_gpgsig() {
    let body = b"tree a9993e364706816aba3e25717850c26c9cd0d89d\n\
          author A <a@e> 1 +0000\n\
          committer A <a@e> 1 +0000\n\
          gpgsig -----BEGIN PGP SIGNATURE-----\n\
           lines\n\
           -----END PGP SIGNATURE-----\n\
          \n\
          msg";
    let c = parse_commit(body).unwrap();
    assert_eq!(c.message, b"msg");
    assert!(c.parents.is_empty());
}

#[test]
fn tree_iteration() {
    let oid = Oid::from_hex(b"e69de29bb2d1d6434b8b29ae775ad8c2e48c5391").unwrap();
    let mut body = Vec::new();
    body.extend_from_slice(b"100644 a.txt\0");
    body.extend_from_slice(oid.as_bytes());
    body.extend_from_slice(b"40000 dir\0");
    body.extend_from_slice(oid.as_bytes());

    let mut iter = TreeIter::new(&body);
    let mut entries: Vec<TreeEntry<'_>> = Vec::new();
    while let Some(entry) = iter.next() {
        entries.push(entry.unwrap());
    }
    assert_eq!(entries.len(), 2);
    assert_eq!(entries[0].mode, b"100644");
    assert_eq!(entries[0].name, b"a.txt");
    assert_eq!(entries[1].mode, b"40000");
    assert_eq!(entries[1].oid, oid);
}
