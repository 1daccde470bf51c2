use tig::build::{commit, tree, TreeEntry};
use tig::object::{self, Kind, Sig};
use tig::oid::Oid;

fn oid(n: u8) -> Oid {
    Oid::from_bytes([n; 20])
}

#[test]
fn commit_roundtrip() {
    let author = Sig {
        name: b"Alice",
        email: b"alice@example.com",
        time: 1_700_000_000,
        tz: b"+0900",
    };
    let body = commit(oid(1), &[oid(2), oid(3)], &author, &author, b"subject\n").unwrap();
    let parsed = object::parse_commit(&body).unwrap();
    assert_eq!(parsed.tree, oid(1));
    assert_eq!(parsed.parents, vec![oid(2), oid(3)]);
    assert_eq!(parsed.author, author);
    assert_eq!(parsed.message, b"subject\n");
}

#[test]
fn tree_sorts_directories_padded() {
    let entries = [
        TreeEntry {
            mode: b"40000",
            name: b"foo",
            oid: oid(1),
        },
        TreeEntry {
            mode: b"100644",
            name: b"foo.txt",
            oid: oid(2),
        },
    ];
    let body = tree(&entries).unwrap();
    let mut iter = object::TreeIter::new(&body);
    let mut names: Vec<&[u8]> = Vec::new();
    while let Some(e) = iter.next() {
        names.push(e.unwrap().name);
    }
    assert_eq!(names, vec![&b"foo.txt"[..], &b"foo"[..]]);
    assert_eq!(object::compute_oid(Kind::Tree, &body), {
        let again = tree(&entries).unwrap();
        object::compute_oid(Kind::Tree, &again)
    });
}

#[test]
fn invalid_names_rejected() {
    for name in [&b""[..], b".", b"..", b"a/b", b"a\0b"] {
        let entries = [TreeEntry {
            mode: b"100644",
            name,
            oid: oid(1),
        }];
        assert!(tree(&entries).is_err(), "name={name:?}");
    }
}

#[test]
fn invalid_signature_rejected() {
    let bad = Sig {
        name: b"a<b",
        email: b"e",
        time: 0,
        tz: b"+0000",
    };
    assert!(commit(oid(1), &[], &bad, &bad, b"m").is_err());
}
