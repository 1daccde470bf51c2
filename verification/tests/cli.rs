use tig::build::{commit, tree, TreeEntry};
use tig::bundle::{self, Bundle};
use tig::cli::{
    cat_file, checkout_tree, clone_summary, default_bundle_name, log, parse_args, push_full,
    push_oneline, push_result, push_summary, refs, Command, Format, USAGE,
};
use tig::object::{compute_oid, Kind, Sig};
use tig::oid::Oid;
use tig::pack::write_pack;
use tig::protov0::PushReport;

fn args(list: &[&str]) -> Vec<String> {
    list.iter().map(|s| s.to_string()).collect()
}

fn refused(list: &[&str]) {
    match parse_args(&args(list)) {
        Err(e) => assert_eq!(e, USAGE, "{list:?}"),
        Ok(_) => panic!("{list:?}"),
    }
}

#[test]
fn arguments_that_make_no_sense() {
    refused(&[]);
    refused(&["fetch"]);
    refused(&["clone"]);
    refused(&["clone", "u", "-o"]);
    refused(&["clone", "u", "--depth", "x"]);
    refused(&["clone", "u", "--depth", "4294967296"]);
    refused(&["clone", "u", "--other", "x"]);
    refused(&["push", "u"]);
    refused(&["push", "u", "b", "--to"]);
    refused(&["push", "u", "b", "-o", "x"]);
    refused(&["checkout", "b", "r"]);
    refused(&["checkout", "b", "r", "-x", "d"]);
    refused(&["refs"]);
    refused(&["refs", "a", "b"]);
    refused(&["log"]);
    refused(&["log", "b", "-n", "-1"]);
    refused(&["log", "b", "--format", "short"]);
    refused(&["log", "b", "--ref"]);
    refused(&["cat-file", "b"]);
    refused(&["cat-file", "b", "o", "x"]);
}

#[test]
fn arguments_of_a_clone() {
    let list = args(&["clone", "u", "--depth", "+7", "-o", "f", "--ref", "r", "-o", "g"]);
    let Ok(Command::Clone { url, output, depth, want_ref }) = parse_args(&list) else {
        panic!();
    };
    assert_eq!(url, "u");
    assert_eq!(output.as_deref(), Some("g"));
    assert_eq!(depth, Some(7));
    assert_eq!(want_ref.as_deref(), Some("r"));

    let Ok(Command::Clone { output, depth, want_ref, .. }) = parse_args(&args(&["clone", "u"])) else {
        panic!();
    };
    assert_eq!((output, depth, want_ref), (None, None, None));
}

#[test]
fn arguments_of_a_push_and_a_checkout() {
    let list = args(&["push", "u", "b", "--to", "t", "--ref", "r"]);
    let Ok(Command::Push { url, bundle, from, to }) = parse_args(&list) else {
        panic!();
    };
    assert_eq!((url.as_str(), bundle.as_str()), ("u", "b"));
    assert_eq!((from.as_deref(), to.as_deref()), (Some("r"), Some("t")));

    let list = args(&["checkout", "b", "r", "-o", "d"]);
    let Ok(Command::Checkout { bundle, name, output }) = parse_args(&list) else {
        panic!();
    };
    assert_eq!((bundle.as_str(), name.as_str(), output.as_str()), ("b", "r", "d"));
}

#[test]
fn arguments_of_the_other_commands() {
    let Ok(Command::Refs { bundle }) = parse_args(&args(&["refs", "b"])) else {
        panic!();
    };
    assert_eq!(bundle, "b");

    let Ok(Command::Log { bundle, start, limit, format }) = parse_args(&args(&["log", "b"])) else {
        panic!();
    };
    assert_eq!((bundle.as_str(), start, limit, format), ("b", None, usize::MAX, Format::Oneline));
    let list = args(&["log", "b", "--format", "full", "-n", "10", "--ref", "r"]);
    let Ok(Command::Log { start, limit, format, .. }) = parse_args(&list) else {
        panic!();
    };
    assert_eq!((start.as_deref(), limit, format), (Some("r"), 10, Format::Full));

    let Ok(Command::CatFile { bundle, oid }) = parse_args(&args(&["cat-file", "b", "o"])) else {
        panic!();
    };
    assert_eq!((bundle.as_str(), oid.as_str()), ("b", "o"));
}

#[test]
fn names_of_bundles() {
    for (url, name) in [
        ("http://h/path/repo.git", "repo.bundle"),
        ("http://h/path/repo.git//", "repo.bundle"),
        ("http://h/repo", "repo.bundle"),
        ("repo.git", "repo.bundle"),
        ("http://h/.git", "repo.bundle"),
        ("", "repo.bundle"),
        ("http://h/a.git.git", "a.git.bundle"),
        ("http://h/é", "é.bundle"),
    ] {
        assert_eq!(default_bundle_name(url), name, "{url}");
    }
}

#[test]
fn summaries_of_clones() {
    assert_eq!(clone_summary("x.bundle", 2, 1234, 0), "x.bundle: 2 refs, 1234 bytes (full)");
    assert_eq!(
        clone_summary("x", 0, 0, 10),
        "x: 0 refs, 0 bytes (shallow, 10 boundary commits)"
    );
}

struct Repo {
    data: Vec<u8>,
    blob: Oid,
    root: Oid,
    first: Oid,
    second: Oid,
    tag: Oid,
}

fn repo() -> Repo {
    let blob_body = b"hello\n";
    let blob = compute_oid(Kind::Blob, blob_body);
    let tree_body = tree(&[TreeEntry { mode: b"100644", name: b"a", oid: blob }]).unwrap();
    let root = compute_oid(Kind::Tree, &tree_body);
    let author = Sig { name: b"Al \xff", email: b"a@x", time: -3, tz: b"+0900" };
    let committer = Sig { name: b"Bo", email: b"b@x", time: 100, tz: b"-0100" };
    let c1 = commit(root, &[], &author, &committer, b"one\n\nmore\n").unwrap();
    let first = compute_oid(Kind::Commit, &c1);
    let later = Sig { time: 200, ..committer };
    let c2 = commit(root, &[first], &author, &later, b"tw\xffo").unwrap();
    let second = compute_oid(Kind::Commit, &c2);
    let tag_body = format!(
        "object {}\ntype commit\ntag v1\ntagger T <t@x> 1 +0000\n\nm\n",
        first.to_hex()
    );
    let tag = compute_oid(Kind::Tag, tag_body.as_bytes());
    let pack = write_pack(&[
        (Kind::Blob, &blob_body[..]),
        (Kind::Tree, &tree_body),
        (Kind::Commit, &c1),
        (Kind::Commit, &c2),
        (Kind::Tag, tag_body.as_bytes()),
    ]);
    let list: [(&[u8], Oid); 3] = [
        (b"refs/heads/main", second),
        (b"refs/tags/v1", tag),
        (b"refs/\xff", first),
    ];
    let data = bundle::write(&list, &[], &pack).unwrap();
    Repo { data, blob, root, first, second, tag }
}

#[test]
fn lines_of_refs() {
    let r = repo();
    let bundle = Bundle::parse(&r.data).ok().unwrap();
    assert_eq!(
        refs(&bundle),
        format!(
            "{} refs/heads/main\n{} refs/tags/v1\n{} refs/\u{fffd}\n",
            r.second.to_hex(),
            r.tag.to_hex(),
            r.first.to_hex()
        )
    );
}

#[test]
fn bodies_of_objects() {
    let r = repo();
    let bundle = Bundle::parse(&r.data).ok().unwrap();
    assert_eq!(cat_file(&bundle, &r.blob.to_hex()).unwrap(), b"hello\n");
    let absent = "0".repeat(40);
    assert_eq!(
        cat_file(&bundle, &absent).unwrap_err(),
        format!("object not found: {absent}")
    );
    assert_eq!(cat_file(&bundle, "é").unwrap_err(), "corrupt data: oid hex length");
    assert_eq!(
        cat_file(&bundle, &"g".repeat(40)).unwrap_err(),
        "corrupt data: oid hex digit"
    );
}

#[test]
fn logs_in_three_formats() {
    let r = repo();
    let bundle = Bundle::parse(&r.data).ok().unwrap();
    let (one, two) = (r.first.to_hex(), r.second.to_hex());
    assert_eq!(
        log(&bundle, None, usize::MAX, Format::Oid).unwrap(),
        format!("{two}\n{one}\n")
    );
    assert_eq!(
        log(&bundle, None, usize::MAX, Format::Oneline).unwrap(),
        format!("{two} tw\u{fffd}o\n{one} one\n")
    );
    assert_eq!(
        log(&bundle, Some("refs/tags/v1"), 5, Format::Full).unwrap(),
        format!(
            "commit {one}\nAuthor: Al \u{fffd} <a@x>\nDate:   -3 +0900\n\n    one\n    \n    more\n    \n"
        )
    );
    assert_eq!(
        log(&bundle, Some("refs/heads/main"), 1, Format::Oid).unwrap(),
        format!("{two}\n")
    );
    assert_eq!(log(&bundle, None, 0, Format::Oid).unwrap(), "");
    assert_eq!(
        log(&bundle, Some("refs/é"), 1, Format::Oid).unwrap_err(),
        "ref not found: refs/é"
    );
}

#[test]
fn logs_of_broken_histories() {
    // The parent is no commit that can be read.
    let bad = b"tree x\n\nm";
    let bad_oid = compute_oid(Kind::Commit, bad);
    let sig = Sig { name: b"n", email: b"e", time: 0, tz: b"+0000" };
    let good = commit(Oid::from_bytes([1; 20]), &[bad_oid], &sig, &sig, b"m").unwrap();
    let good_oid = compute_oid(Kind::Commit, &good);
    let pack = write_pack(&[(Kind::Commit, &bad[..]), (Kind::Commit, &good)]);
    let list: [(&[u8], Oid); 2] = [(b"refs/a", good_oid), (b"refs/b", Oid::from_bytes([9; 20]))];
    let data = bundle::write(&list, &[], &pack).unwrap();
    let bundle = Bundle::parse(&data).ok().unwrap();
    assert_eq!(
        log(&bundle, Some("refs/a"), 1, Format::Oid).unwrap_err(),
        "corrupt data: oid hex length"
    );
    // Nothing is read where nothing is to be shown.
    assert_eq!(log(&bundle, Some("refs/a"), 0, Format::Oid).unwrap(), "");
    assert_eq!(
        log(&bundle, Some("refs/b"), 1, Format::Oid).unwrap_err(),
        "delta base object not found"
    );
    assert_eq!(
        log(&bundle, None, 1, Format::Oid).unwrap_err(),
        "delta base object not found"
    );
}

#[test]
fn entries_from_decoded_texts() {
    let oid = Oid::from_bytes([0xab; 20]);
    let hex = "ab".repeat(20);
    let mut out = String::new();
    push_oneline(&mut out, &oid, "s");
    assert_eq!(out, format!("{hex} s\n"));
    let mut out = String::new();
    push_full(&mut out, &oid, "n", "e", i64::MIN, "z", &vec![]);
    assert_eq!(
        out,
        format!("commit {hex}\nAuthor: n <e>\nDate:   -9223372036854775808 z\n\n")
    );
    let mut out = String::from("-");
    push_result(&mut out, "a", Some("b"));
    assert_eq!(out, "-a: b\n");
}

#[test]
fn summaries_of_pushes() {
    assert_eq!(push_summary(None).unwrap(), "up to date\n");
    let mut report = PushReport {
        unpack_ok: true,
        results: vec![(b"refs/a".to_vec(), None), (b"refs/b".to_vec(), None)],
    };
    assert_eq!(push_summary(Some(&report)).unwrap(), "refs/a: ok\nrefs/b: ok\n");
    report.results[1].1 = Some(b"denied \xff".to_vec());
    assert_eq!(
        push_summary(Some(&report)).unwrap_err(),
        "push failed\nrefs/a: ok\nrefs/b: denied \u{fffd}\n"
    );
    report.unpack_ok = false;
    report.results.clear();
    assert_eq!(push_summary(Some(&report)).unwrap_err(), "push failed\n");
}

#[test]
fn trees_to_check_out() {
    let r = repo();
    let bundle = Bundle::parse(&r.data).ok().unwrap();
    assert_eq!(checkout_tree(&bundle, "refs/heads/main").unwrap(), r.root);
    assert_eq!(checkout_tree(&bundle, "refs/tags/v1").unwrap(), r.root);
    assert_eq!(
        checkout_tree(&bundle, "refs/none").unwrap_err(),
        "ref not found: refs/none"
    );
}

#[test]
fn trees_of_refs_that_lead_to_no_commit() {
    let pack = write_pack(&[(Kind::Blob, &b"x"[..])]);
    let blob = compute_oid(Kind::Blob, b"x");
    let list: [(&[u8], Oid); 2] = [(b"refs/a", blob), (b"refs/b", Oid::from_bytes([9; 20]))];
    let data = bundle::write(&list, &[], &pack).unwrap();
    let bundle = Bundle::parse(&data).ok().unwrap();
    assert_eq!(
        checkout_tree(&bundle, "refs/a").unwrap_err(),
        "corrupt data: start point is not a commit"
    );
    assert_eq!(
        checkout_tree(&bundle, "refs/b").unwrap_err(),
        "delta base object not found"
    );
}
