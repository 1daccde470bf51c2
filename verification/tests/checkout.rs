use tig::checkout::{walk, EntryKind};
use tig::err::Error;
use tig::object::{compute_oid, Kind};
use tig::oid::Oid;
use tig::Odb;

struct MemOdb(Vec<(Oid, Kind, Vec<u8>)>);

impl MemOdb {
    fn put(&mut self, kind: Kind, body: Vec<u8>) -> Oid {
        let oid = compute_oid(kind, &body);
        self.0.push((oid, kind, body));
        oid
    }
}

impl Odb for MemOdb {
    fn read(&self, oid: &Oid) -> Option<(Kind, Vec<u8>)> {
        self.0
            .iter()
            .find(|(o, _, _)| o == oid)
            .map(|(_, k, b)| (*k, b.clone()))
    }
}

fn tree_body(entries: &[(&[u8], &[u8], Oid)]) -> Vec<u8> {
    let mut body = Vec::new();
    for (mode, name, oid) in entries {
        body.extend_from_slice(mode);
        body.push(b' ');
        body.extend_from_slice(name);
        body.push(0);
        body.extend_from_slice(oid.as_bytes());
    }
    body
}

#[test]
fn walks_nested_trees_in_order() {
    let mut odb = MemOdb(vec![]);
    let blob_a = odb.put(Kind::Blob, b"A".to_vec());
    let blob_b = odb.put(Kind::Blob, b"B".to_vec());
    let sub = odb.put(Kind::Tree, tree_body(&[(b"100755", b"run.sh", blob_b)]));
    let root = odb.put(
        Kind::Tree,
        tree_body(&[(b"100644", b"a.txt", blob_a), (b"40000", b"dir", sub)]),
    );

    let mut seen: Vec<(Vec<u8>, EntryKind, Vec<u8>)> = Vec::new();
    walk(&odb, root, &mut |path, kind, content| {
        seen.push((path.to_vec(), kind, content.to_vec()));
        Ok(())
    })
    .unwrap();

    assert_eq!(
        seen,
        vec![
            (b"a.txt".to_vec(), EntryKind::File, b"A".to_vec()),
            (b"dir/run.sh".to_vec(), EntryKind::Executable, b"B".to_vec()),
        ]
    );
}

#[test]
fn missing_blob_is_error() {
    let mut odb = MemOdb(vec![]);
    let ghost = compute_oid(Kind::Blob, b"ghost");
    let root = odb.put(Kind::Tree, tree_body(&[(b"100644", b"x", ghost)]));
    assert_eq!(
        walk(&odb, root, &mut |_, _, _| Ok(())).unwrap_err(),
        Error::MissingBase
    );
}
