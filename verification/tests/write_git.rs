//! Objects that are built here have the ids that git gives to the same contents.

use tig::build;
use tig::object::{compute_oid, Kind, Sig};
use tig::oid::Oid;

#[test]
fn tree_oid_matches_git_mktree() {
    let blob = compute_oid(Kind::Blob, b"content\n");
    assert_eq!(blob.to_hex(), "d95f3ad14dee633a758d2e331151e950dd13e4ed");

    let sub_body = build::tree(&[build::TreeEntry {
        mode: b"100644",
        name: b"inner.txt",
        oid: blob,
    }])
    .unwrap();
    let sub = compute_oid(Kind::Tree, &sub_body);
    assert_eq!(sub.to_hex(), "2ca20bc69c6611572ed3512f657810df137235f1");

    // The entries come in another order than they are kept in.
    let root_body = build::tree(&[
        build::TreeEntry {
            mode: b"40000",
            name: b"foo",
            oid: sub,
        },
        build::TreeEntry {
            mode: b"100755",
            name: b"run.sh",
            oid: blob,
        },
        build::TreeEntry {
            mode: b"100644",
            name: b"foo.txt",
            oid: blob,
        },
        build::TreeEntry {
            mode: b"120000",
            name: b"link",
            oid: blob,
        },
    ])
    .unwrap();
    assert_eq!(
        compute_oid(Kind::Tree, &root_body).to_hex(),
        "1eeeaedc6aeef1beeb6b8b1880b7c48142cb147a"
    );
}

#[test]
fn commit_oid_matches_git_commit_tree() {
    let blob = compute_oid(Kind::Blob, b"x\n");
    let tree_body = build::tree(&[build::TreeEntry {
        mode: b"100644",
        name: b"a.txt",
        oid: blob,
    }])
    .unwrap();
    let tree = compute_oid(Kind::Tree, &tree_body);
    assert_eq!(tree.to_hex(), "6ca2b082c4982a05d9978c0e48bfbae57de44389");

    let author = Sig {
        name: b"Tester",
        email: b"tester@example.com",
        time: 1_700_000_000,
        tz: b"+0900",
    };
    let committer = Sig {
        time: 1_700_000_100,
        ..author
    };
    let body = build::commit(tree, &[], &author, &committer, b"first\n").unwrap();
    let root_hex = "c4b6661b39fd3d9f97b8f9d2f903a6ec110505fe";
    assert_eq!(compute_oid(Kind::Commit, &body).to_hex(), root_hex);

    let parent = Oid::from_hex(root_hex.as_bytes()).unwrap();
    let body = build::commit(tree, &[parent], &author, &committer, b"second\n").unwrap();
    assert_eq!(
        compute_oid(Kind::Commit, &body).to_hex(),
        "dc42a6c1706e7b15fddd1706995bf57c27a53cf7"
    );
}
