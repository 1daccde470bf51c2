use tig::build::{commit, tree};
use tig::bundle::{self, Bundle};
use tig::json;
use tig::object::{compute_oid, Kind, Sig};
use tig::oid::Oid;
use tig::pack::{write_pack, Pack};
use tig::pkt;
use tig::protov0::PushReport;
use tig::publish;
use tig::web::{cat, framed, CloneSlot, PushSlot, Slots};

#[test]
fn json_escape() {
    let mut s = String::new();
    json::json_escape_into(&mut s, b"a\"b\\c\nd\x01");
    assert_eq!(s, "a\\\"b\\\\c\\nd\\u0001");
}

#[test]
fn json_escape_invalid_utf8() {
    let mut s = String::new();
    json::json_escape_into(&mut s, &[0xff, b'x']);
    assert_eq!(s, "\u{fffd}x");
}

fn sig(time: i64) -> Sig<'static> {
    Sig {
        name: b"T",
        email: b"t@example.com",
        time,
        tz: b"+0000",
    }
}

fn small_bundle(refs: &[&[u8]]) -> (Vec<u8>, Oid) {
    let tree = tree(&[]).unwrap();
    let commit = commit(compute_oid(Kind::Tree, &tree), &[], &sig(0), &sig(0), b"m\n").unwrap();
    let commit_oid = compute_oid(Kind::Commit, &commit);
    let pack = write_pack(&[(Kind::Commit, &commit), (Kind::Tree, &tree)]);
    let list: Vec<(&[u8], Oid)> = refs.iter().map(|name| (*name, commit_oid)).collect();
    (bundle::write(&list, &[], &pack).unwrap(), commit_oid)
}

/// An open bundle and a push go through their slots from start to end; fixed responses stand for
/// the server.
#[test]
fn push_handle_round_trip() {
    let (data, commit_oid) = small_bundle(&[b"refs/heads/main"]);

    let mut bundles: Slots<Bundle> = Slots::new("invalid bundle handle");
    let bundle_handle = bundles.insert(Bundle::parse(&data).ok().unwrap()) as i32;
    assert!(bundle_handle >= 0);
    let to = b"refs/heads/renamed";
    assert_eq!(
        publish::check_destination(None, Some(to)).unwrap_err(),
        "destination ref requires a source ref"
    );
    assert_eq!(
        PushSlot::new(bundles.get(bundle_handle).ok().unwrap(), None, Some(to))
            .err()
            .unwrap(),
        "destination ref requires a source ref"
    );
    let src = b"refs/heads/main";
    assert!(publish::check_destination(Some(src), Some(to)).is_ok());
    let mut pushes: Slots<PushSlot> = Slots::new("invalid push handle");
    let slot = PushSlot::new(bundles.get(bundle_handle).ok().unwrap(), Some(src), Some(to))
        .ok()
        .unwrap();
    let handle = pushes.insert(slot) as i32;
    assert!(handle >= 0);
    let slot = pushes.get_mut(handle).ok().unwrap();

    assert!(slot.is_sendable());
    assert_eq!(
        slot.next_json(),
        "{\"done\":false,\"method\":\"GET\",\"path\":\"info/refs?service=git-receive-pack\"}"
    );
    assert_eq!(slot.body(), b"");
    let mut adv = Vec::new();
    pkt::write_line(&mut adv, b"# service=git-receive-pack");
    pkt::write_flush(&mut adv);
    pkt::write_line(
        &mut adv,
        b"0000000000000000000000000000000000000000 capabilities^{}\0report-status",
    );
    pkt::write_flush(&mut adv);
    assert_eq!(slot.response(&adv), Ok(()));

    assert!(slot.is_sendable());
    let next = slot.next_json();
    assert!(next.contains("\"POST\""), "{next}");
    let body = slot.body().to_vec();
    let text = String::from_utf8_lossy(&body);
    assert!(
        text.contains(&format!(
            "0000000000000000000000000000000000000000 {} refs/heads/renamed",
            commit_oid.to_hex()
        )),
        "{text}"
    );
    assert!(text.contains("PACK"));

    let mut report = Vec::new();
    pkt::write_line(&mut report, b"unpack ok");
    pkt::write_line(&mut report, b"ok refs/heads/renamed");
    pkt::write_flush(&mut report);
    assert_eq!(slot.response(&report), Ok(()));
    assert_eq!(slot.next_json(), "{\"done\":true}");
    assert_eq!(
        slot.finish_json().unwrap(),
        "{\"up_to_date\":false,\"success\":true,\"results\":[{\"ref\":\"refs/heads/renamed\",\"error\":null}]}"
    );
    assert_eq!(slot.finish_json().unwrap_err(), "push already finished");
    assert_eq!(slot.response(&report).unwrap_err(), "push already finished");
    assert_eq!(slot.next_json(), "{\"done\":true}");
    pushes.close(handle);
    assert_eq!(pushes.get(handle).err().unwrap(), "invalid push handle");
    bundles.close(bundle_handle);
    assert_eq!(bundles.get(bundle_handle).err().unwrap(), "invalid bundle handle");
}

#[test]
fn slots_give_the_lowest_free_number() {
    let mut slots: Slots<u8> = Slots::new("nothing there");
    assert_eq!(slots.insert(10), 0);
    assert_eq!(slots.insert(11), 1);
    assert_eq!(slots.insert(12), 2);
    slots.close(1);
    assert_eq!(slots.get(1).unwrap_err(), "nothing there");
    assert_eq!(slots.insert(21), 1);
    assert_eq!(slots.insert(22), 3);
    assert_eq!(slots.get(0), Ok(&10));
    assert_eq!(slots.get(1), Ok(&21));
    assert_eq!(slots.get(2), Ok(&12));
    assert_eq!(slots.get(3), Ok(&22));
    *slots.get_mut(2).unwrap() = 5;
    assert_eq!(slots.get(2), Ok(&5));
    for handle in [-1, 4, i32::MIN, i32::MAX] {
        slots.close(handle);
        assert_eq!(slots.get(handle).unwrap_err(), "nothing there");
        assert_eq!(slots.get_mut(handle).unwrap_err(), "nothing there");
    }
}

#[test]
fn buffers_start_with_their_length() {
    assert_eq!(framed(b""), b"\0\0\0\0");
    assert_eq!(framed(b"abc"), b"\x03\0\0\0abc");
    assert_eq!(&framed(&[7; 0x10203])[..5], b"\x03\x02\x01\0\x07");
}

#[test]
fn escapes_leave_no_control_characters() {
    let mut s = String::from("<");
    json::push_escaped(&mut s, "\r\t\u{1f}\u{7f}é/\"");
    assert_eq!(s, "<\\r\\t\\u001f\u{7f}é/\\\"");
    let all: String = (0u8..128).map(|b| b as char).collect();
    let mut out = String::new();
    json::push_escaped(&mut out, &all);
    assert!(out.chars().all(|c| c >= ' '));
}

#[test]
fn refs_as_json() {
    let (data, oid) = small_bundle(&[b"HEAD", b"refs/heads/\"\xff"]);
    let bundle = Bundle::parse(&data).ok().unwrap();
    let hex = oid.to_hex();
    assert_eq!(
        json::refs_json(&bundle),
        format!(
            "[{{\"name\":\"HEAD\",\"oid\":\"{hex}\"}},{{\"name\":\"refs/heads/\\\"\u{fffd}\",\"oid\":\"{hex}\"}}]"
        )
    );
    let (data, _) = small_bundle(&[]);
    assert_eq!(json::refs_json(&Bundle::parse(&data).ok().unwrap()), "[]");
}

fn two_commits() -> (Vec<u8>, Oid, Oid) {
    let tree = tree(&[]).unwrap();
    let root = compute_oid(Kind::Tree, &tree);
    let first = commit(root, &[], &sig(5), &sig(-5), b"first\nbody\n").unwrap();
    let first_oid = compute_oid(Kind::Commit, &first);
    let second = commit(root, &[first_oid], &sig(7), &sig(9), b"\"se\xffcond\"").unwrap();
    let second_oid = compute_oid(Kind::Commit, &second);
    let pack = write_pack(&[(Kind::Commit, &first), (Kind::Commit, &second), (Kind::Tree, &tree)]);
    let refs: [(&[u8], Oid); 2] = [(b"refs/heads/main", second_oid), (b"refs/heads/old", first_oid)];
    (bundle::write(&refs, &[], &pack).unwrap(), first_oid, second_oid)
}

#[test]
fn history_as_json() {
    let (data, first, second) = two_commits();
    let bundle = Bundle::parse(&data).ok().unwrap();
    let one = format!(
        "{{\"oid\":\"{}\",\"time\":9,\"tz\":\"+0000\",\"author\":\"T\",\"subject\":\"\\\"se\u{fffd}cond\\\"\",\"parents\":[\"{}\"]}}",
        second.to_hex(),
        first.to_hex()
    );
    let two = format!(
        "{{\"oid\":\"{}\",\"time\":-5,\"tz\":\"+0000\",\"author\":\"T\",\"subject\":\"first\",\"parents\":[]}}",
        first.to_hex()
    );
    assert_eq!(json::log_json(&bundle, None, 10).unwrap(), format!("[{one},{two}]"));
    assert_eq!(json::log_json(&bundle, None, 1).unwrap(), format!("[{one}]"));
    assert_eq!(json::log_json(&bundle, None, 0).unwrap(), "[]");
    assert_eq!(
        json::log_json(&bundle, Some(b"refs/heads/old"), 10).unwrap(),
        format!("[{two}]")
    );
    assert_eq!(
        json::log_json(&bundle, Some(b"no\xff"), 10).unwrap_err(),
        "ref not found: no\u{fffd}"
    );
}

#[test]
fn history_as_json_with_a_ref_to_a_tree() {
    let tree = tree(&[]).unwrap();
    let root = compute_oid(Kind::Tree, &tree);
    let pack = write_pack(&[(Kind::Tree, &tree)]);
    let data = bundle::write(&[(b"refs/x", root)], &[], &pack).unwrap();
    let bundle = Bundle::parse(&data).ok().unwrap();
    assert_eq!(
        json::log_json(&bundle, None, 10).unwrap_err(),
        "corrupt data: start point is not a commit"
    );
}

#[test]
fn objects_by_hexadecimal_id() {
    let (data, first, _) = two_commits();
    let bundle = Bundle::parse(&data).ok().unwrap();
    let body = cat(&bundle, first.to_hex().as_bytes()).unwrap();
    assert_eq!(compute_oid(Kind::Commit, &body), first);
    assert_eq!(cat(&bundle, &[b'0'; 40]).unwrap_err(), "object not found");
    assert_eq!(cat(&bundle, b"0").unwrap_err(), "corrupt data: oid hex length");
    assert_eq!(cat(&bundle, &[b'x'; 40]).unwrap_err(), "corrupt data: oid hex digit");
}

fn clone_responses(oid: &Oid, pack: &[u8]) -> [Vec<u8>; 3] {
    let mut adv = Vec::new();
    pkt::write_line(&mut adv, b"# service=git-upload-pack");
    pkt::write_flush(&mut adv);
    pkt::write_line(&mut adv, b"version 2");
    pkt::write_line(&mut adv, b"ls-refs");
    pkt::write_line(&mut adv, b"fetch=shallow");
    pkt::write_flush(&mut adv);
    let mut refs = Vec::new();
    pkt::write_line(&mut refs, format!("{} refs/heads/main", oid.to_hex()).as_bytes());
    pkt::write_flush(&mut refs);
    let mut fetched = Vec::new();
    pkt::write_line(&mut fetched, b"packfile");
    let mut data = vec![1u8];
    data.extend_from_slice(pack);
    pkt::write_data(&mut fetched, &data);
    pkt::write_flush(&mut fetched);
    [adv, refs, fetched]
}

#[test]
fn clone_slot_makes_a_bundle() {
    let tree = tree(&[]).unwrap();
    let body = commit(compute_oid(Kind::Tree, &tree), &[], &sig(0), &sig(0), b"m\n").unwrap();
    let oid = compute_oid(Kind::Commit, &body);
    let pack = write_pack(&[(Kind::Commit, &body), (Kind::Tree, &tree)]);

    let mut slot = CloneSlot::new(0, b"");
    let responses = clone_responses(&oid, &pack);
    assert_eq!(
        slot.next_json(),
        "{\"done\":false,\"method\":\"GET\",\"path\":\"info/refs?service=git-upload-pack\"}"
    );
    assert_eq!(slot.body(), b"");
    assert_eq!(slot.response(b"junk").is_err(), true);
    for (i, response) in responses.iter().enumerate() {
        let next = slot.next_json();
        assert_eq!(next.contains("\"POST\""), i > 0);
        assert_eq!(slot.body().is_empty(), i == 0);
        assert_eq!(slot.response(response), Ok(()));
    }
    assert_eq!(slot.next_json(), "{\"done\":true}");
    assert_eq!(slot.body(), b"");
    assert_eq!(
        slot.response(b"").unwrap_err(),
        "corrupt data: response after completion"
    );
    let data = slot.finish_bundle().unwrap();
    assert_eq!(data, bundle::write(&[(b"refs/heads/main", oid)], &[], &pack).unwrap());
    assert_eq!(slot.finish_bundle().unwrap_err(), "clone already finished");
    assert_eq!(slot.response(b"").unwrap_err(), "clone already finished");
    assert_eq!(slot.next_json(), "{\"done\":true}");
}

#[test]
fn clone_slot_finished_too_early() {
    let mut slot = CloneSlot::new(3, b"refs/heads/main");
    assert_eq!(
        slot.finish_bundle().unwrap_err(),
        "corrupt data: clone not finished"
    );
    assert_eq!(slot.finish_bundle().unwrap_err(), "clone already finished");
}

#[test]
fn clone_slot_asks_for_a_depth() {
    let oid = Oid::from_bytes([7; 20]);
    let responses = clone_responses(&oid, b"");
    for (depth, asked) in [(0, false), (3, true)] {
        let mut slot = CloneSlot::new(depth, b"refs/heads/main");
        slot.response(&responses[0]).unwrap();
        slot.response(&responses[1]).unwrap();
        slot.next_json();
        let body = String::from_utf8_lossy(slot.body()).into_owned();
        assert_eq!(body.contains("deepen 3"), asked, "{body}");
    }
    let mut slot = CloneSlot::new(0, b"refs/heads/other");
    slot.response(&responses[0]).unwrap();
    assert_eq!(
        slot.response(&responses[1]).unwrap_err(),
        "corrupt data: no matching ref to fetch"
    );
}

#[test]
fn push_slot_without_updates() {
    let (data, _) = small_bundle(&[b"HEAD"]);
    let bundle = Bundle::parse(&data).ok().unwrap();
    assert_eq!(PushSlot::new(&bundle, None, None).err().unwrap(), "no refs to push");
    assert_eq!(
        PushSlot::new(&bundle, Some(b"refs/\xff"), None).err().unwrap(),
        "ref not found: refs/\u{fffd}"
    );
    let mut slot = PushSlot::new(&bundle, Some(b"HEAD"), None).ok().unwrap();
    assert_eq!(slot.finish_json().unwrap_err(), "corrupt data: push not finished");
}

#[test]
fn push_takes_refs_below_refs_and_all_objects() {
    let (data, oid) = small_bundle(&[b"HEAD", b"refs/heads/a", b"refs/tags/b", b"refsx"]);
    let bundle = Bundle::parse(&data).ok().unwrap();
    assert_eq!(
        publish::updates(&bundle, None, None).unwrap(),
        vec![(b"refs/heads/a".to_vec(), oid), (b"refs/tags/b".to_vec(), oid)]
    );
    assert_eq!(
        publish::updates(&bundle, Some(b"HEAD"), None).unwrap(),
        vec![(b"HEAD".to_vec(), oid)]
    );
    assert_eq!(
        publish::updates(&bundle, None, Some(b"x")).unwrap_err(),
        publish::NoUpdate::NoSource
    );
    let mut driver = publish::driver(&bundle, None, None).ok().unwrap();
    let mut adv = Vec::new();
    pkt::write_line(&mut adv, b"# service=git-receive-pack");
    pkt::write_flush(&mut adv);
    pkt::write_line(
        &mut adv,
        b"0000000000000000000000000000000000000000 capabilities^{}\0report-status",
    );
    pkt::write_flush(&mut adv);
    driver.on_response(&adv).unwrap();
    let Some(tig::push::Request::Post { body, .. }) = driver.next_request() else {
        panic!("no update");
    };
    let at = body.windows(4).position(|w| w == b"PACK").unwrap();
    let sent = Pack::parse(&body[at..]).ok().unwrap();
    assert_eq!(sent.oids(), bundle.pack.oids());
}

#[test]
fn push_results_as_json() {
    assert_eq!(json::report_json(None), "{\"up_to_date\":true}");
    let report = PushReport {
        unpack_ok: true,
        results: vec![
            (b"refs/a".to_vec(), None),
            (b"refs/b".to_vec(), Some(b"no \"way\"\xff".to_vec())),
        ],
    };
    assert_eq!(
        json::report_json(Some(&report)),
        "{\"up_to_date\":false,\"success\":false,\"results\":[{\"ref\":\"refs/a\",\"error\":null},{\"ref\":\"refs/b\",\"error\":\"no \\\"way\\\"\u{fffd}\"}]}"
    );
    let report = PushReport {
        unpack_ok: true,
        results: Vec::new(),
    };
    assert_eq!(
        json::report_json(Some(&report)),
        "{\"up_to_date\":false,\"success\":true,\"results\":[]}"
    );
}
