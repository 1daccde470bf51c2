//! What holds of the library as a whole, on chosen values.

use tig::build::{commit, tree, TreeEntry};
use tig::bundle::{self, Bundle};
use tig::checkout::{self, Cursor, EntryKind, TreeFile};
use tig::clone::{CloneOptions, Request as CloneRequest};
use tig::err::Error;
use tig::history::Walk;
use tig::object::{compute_oid, parse_commit, Kind, Sig, TreeIter};
use tig::oid::Oid;
use tig::pack::{write_pack, Pack};
use tig::pkt::{self, Pkt, PktReader};
use tig::push::Push;
use tig::sha1::{digest, Sha1};
use tig::zlib::{deflate_zlib, deflate_zlib_stored, inflate_zlib};

fn oid(n: u8) -> Oid {
    Oid::from_bytes([n; 20])
}

/// Bytes without a pattern.
fn noise(n: usize) -> Vec<u8> {
    let mut seed: u32 = 99;
    (0..n)
        .map(|_| {
            seed = seed.wrapping_mul(1_664_525).wrapping_add(1_013_904_223);
            (seed >> 24) as u8
        })
        .collect()
}

#[test]
fn ids_are_read_as_they_are_written() {
    for b in [0, 1, 0x0f, 0xf0, 0xff] {
        assert_eq!(Oid::from_hex(oid(b).to_hex().as_bytes()), Ok(oid(b)));
    }
    let upper = "0123456789ABCDEF0123456789ABCDEF01234567";
    let id = Oid::from_hex(upper.as_bytes()).unwrap();
    assert_eq!(id.to_hex(), upper.to_lowercase());
}

#[test]
fn compression_is_undone() {
    let texts = [
        Vec::new(),
        b"a".to_vec(),
        b"abcabcabcabc".to_vec(),
        vec![0; 100_000],
        noise(70_000),
        [noise(300), noise(300)].concat(),
    ];
    for text in &texts {
        for packed in [deflate_zlib(text), deflate_zlib_stored(text)] {
            let back = inflate_zlib(&packed, Some(text.len())).unwrap();
            assert_eq!(&back.data, text);
            assert_eq!(back.consumed, packed.len());
        }
        assert!(deflate_zlib(text).len() <= deflate_zlib_stored(text).len());
    }
    assert!(deflate_zlib(&texts[3]).len() < 1000);
    assert_eq!(deflate_zlib(&texts[4]), deflate_zlib_stored(&texts[4]));
}

/// A stream of one dynamic block.
const DYNAMIC: &[u8] = &[
    120, 218, 205, 206, 187, 21, 196, 64, 8, 3, 192, 90, 189, 32, 144, 248, 172, 251, 207, 238, 185,
    139, 203, 39, 152, 231, 40, 59, 10, 202, 235, 177, 85, 160, 19, 107, 62, 90, 77, 166, 247, 177,
    226, 124, 132, 47, 142, 162, 67, 80, 92, 199, 214, 5, 141, 24, 243, 214, 126, 196, 251, 177,
    202, 201, 138, 202, 23, 161, 168, 144, 43, 214, 49, 117, 69, 75, 204, 241, 230, 178, 179, 217,
    207, 169, 236, 44, 84, 94, 196, 126, 3, 103, 172, 97, 116, 53, 150, 62, 199, 154, 195, 142, 230,
    251, 252, 71, 242, 7, 159, 197, 121, 219,
];

fn dynamic_text() -> Vec<u8> {
    (0..300usize).map(|i| (97 + i * i * i % 11 + i / 3 % 5) as u8).collect()
}

/// Streams of stored, fixed and dynamic blocks.
fn streams() -> Vec<Vec<u8>> {
    vec![
        deflate_zlib_stored(&noise(300)),
        deflate_zlib(b"abcabcabcabc"),
        deflate_zlib(b""),
        DYNAMIC.to_vec(),
    ]
}

#[test]
fn what_follows_a_stream_is_ignored() {
    assert_eq!(inflate_zlib(DYNAMIC, None).unwrap().data, dynamic_text());
    for stream in streams() {
        let alone = inflate_zlib(&stream, None).unwrap();
        assert_eq!(alone.consumed, stream.len());
        for tail in [&b"\0"[..], b"garbage", &stream] {
            for hint in [None, Some(0), Some(7), Some(1 << 30)] {
                let more = inflate_zlib(&[&stream, tail].concat(), hint).unwrap();
                assert_eq!((&more.data, more.consumed), (&alone.data, alone.consumed));
            }
        }
    }
}

#[test]
fn streams_that_are_cut_off_end_early() {
    for stream in streams() {
        for k in 0..stream.len() {
            for hint in [None, Some(12)] {
                assert_eq!(inflate_zlib(&stream[..k], hint).err(), Some(Error::UnexpectedEof));
            }
        }
        // What is refused is refused the same way, or ends too early.
        let mut broken = stream.clone();
        let end = broken.len() - 1;
        broken[end] ^= 1;
        assert_eq!(inflate_zlib(&broken, None).err(), Some(Error::Checksum("zlib adler32")));
        assert_eq!(inflate_zlib(&broken[..end], None).err(), Some(Error::UnexpectedEof));
    }
}

#[test]
fn digests_do_not_depend_on_the_pieces() {
    let text = noise(1000);
    for cut in [0, 1, 55, 56, 63, 64, 65, 999, 1000] {
        let mut h = Sha1::default();
        h.update(&text[..cut]);
        h.update(&text[cut..]);
        assert_eq!(h.finalize(), digest(&text));
    }
}

#[test]
fn commits_are_read_as_they_are_built() {
    let author = Sig { name: b"", email: b"", time: i64::MAX, tz: b"" };
    let committer = Sig { name: b"A B", email: b"a b", time: i64::MIN + 1, tz: b"+0000 x" };
    let body = commit(oid(1), &[oid(2), oid(2)], &author, &committer, b"\n\nm").unwrap();
    let back = parse_commit(&body).unwrap();
    assert_eq!(back.tree, oid(1));
    assert_eq!(back.parents, vec![oid(2), oid(2)]);
    assert_eq!(back.author, author);
    assert_eq!(back.committer, committer);
    assert_eq!(back.message, b"\n\nm");
    // The least number of all is written and not read.
    let least = Sig { time: i64::MIN, ..author };
    let body = commit(oid(1), &[], &least, &least, b"").unwrap();
    assert_eq!(parse_commit(&body), Err(Error::Corrupt("signature timestamp")));
    for bad in [
        Sig { name: b"<", ..author },
        Sig { email: b">", ..author },
        Sig { tz: b"\n", ..author },
    ] {
        assert_eq!(
            commit(oid(1), &[], &author, &bad, b"").unwrap_err(),
            Error::Corrupt("signature field")
        );
    }
}

#[test]
fn trees_are_read_as_they_are_built() {
    let entries = [
        TreeEntry { mode: b"100644", name: b"b", oid: oid(1) },
        TreeEntry { mode: b"40000", name: b"a", oid: oid(2) },
        TreeEntry { mode: b"100644", name: b"a.c", oid: oid(3) },
        TreeEntry { mode: b"100644", name: b"a0", oid: oid(4) },
    ];
    let body = tree(&entries).unwrap();
    let mut iter = TreeIter::new(&body);
    let mut list = Vec::new();
    while let Some(entry) = iter.next() {
        let entry = entry.unwrap();
        list.push((entry.mode.to_vec(), entry.name.to_vec(), entry.oid));
    }
    let expected: Vec<(Vec<u8>, Vec<u8>, Oid)> = [2, 1, 3, 0]
        .iter()
        .map(|&i: &usize| (entries[i].mode.to_vec(), entries[i].name.to_vec(), entries[i].oid))
        .collect();
    assert_eq!(list, expected);
    for mode in [&b""[..], b"8", b"x"] {
        let bad = [TreeEntry { mode, name: b"a", oid: oid(1) }];
        assert_eq!(tree(&bad).unwrap_err(), Error::Corrupt("tree entry mode"));
    }
}

#[test]
fn packs_are_read_as_they_are_written() {
    let big = noise(5000);
    let objects: [(Kind, &[u8]); 5] = [
        (Kind::Blob, b""),
        (Kind::Blob, &big),
        (Kind::Tag, b"t"),
        (Kind::Tree, b"t"),
        (Kind::Commit, b"t"),
    ];
    let data = write_pack(&objects);
    let pack = Pack::parse(&data).ok().unwrap();
    assert_eq!(pack.len(), 5);
    for (kind, body) in objects {
        let id = compute_oid(kind, body);
        assert_eq!(pack.read_object(&id).unwrap(), Some((kind, body.to_vec())));
    }
    // Every object that is read has the id that it was asked for by.
    for id in pack.oids() {
        let (kind, body) = pack.read_object(&id).unwrap().unwrap();
        assert_eq!(compute_oid(kind, &body), id);
    }
}

#[test]
fn packs_of_no_objects_are_read_as_they_are_written() {
    let data = write_pack(&[]);
    assert_eq!(data.len(), 32);
    for cache in [0, 1, 65536] {
        let pack = Pack::parse_with_cache(&data, cache).ok().unwrap();
        assert_eq!((pack.len(), pack.is_empty()), (0, true));
        assert_eq!(pack.oids(), Vec::new());
        assert_eq!(pack.read_object(&oid(0)), Ok(None));
    }
}

#[test]
fn packs_list_their_ids_in_order() {
    let bodies: Vec<Vec<u8>> = (0..40u8).map(|n| vec![n % 30; 3]).collect();
    let objects: Vec<(Kind, &[u8])> = bodies.iter().map(|b| (Kind::Blob, b.as_slice())).collect();
    let data = write_pack(&objects);
    assert_eq!(data[8..12], [0, 0, 0, 40]);
    let pack = Pack::parse(&data).ok().unwrap();
    // What was written twice is listed twice.
    assert_eq!(pack.len(), 40);
    let ids = pack.oids();
    assert_eq!(ids.len(), 40);
    assert!(ids.windows(2).all(|w| w[0].as_bytes() <= w[1].as_bytes()));
    let mut expected: Vec<Oid> = objects.iter().map(|(kind, body)| compute_oid(*kind, body)).collect();
    expected.sort_by(|a, b| a.as_bytes().cmp(b.as_bytes()));
    assert_eq!(ids, expected);
    assert_eq!(pack.read_object(&oid(0)), Ok(None));
}

/// A pack with a delta on a base that comes later and a chain of deltas on that base, and what it
/// holds.
fn pack_with_chain(deltas: u32) -> (Vec<u8>, Vec<Vec<u8>>) {
    let base = b"hello world, hello world".to_vec();
    let mut bodies = vec![base.clone(), b"hello you".to_vec()];
    let mut data = b"PACK\0\0\0\x02".to_vec();
    data.extend_from_slice(&(deltas + 2).to_be_bytes());
    data.push(0x79);
    data.extend_from_slice(compute_oid(Kind::Blob, &base).as_bytes());
    data.extend_from_slice(&deflate_zlib(b"\x18\x09\x90\x05\x04 you"));
    let mut at = data.len();
    data.extend_from_slice(b"\xb8\x01");
    data.extend_from_slice(&deflate_zlib(&base));
    let mut len = base.len();
    for n in 0..deltas {
        // Five bytes of the base and three of its own.
        let own = [b'a' + (n / 26 / 26) as u8, b'a' + (n / 26 % 26) as u8, b'a' + (n % 26) as u8];
        let mut delta = vec![len as u8, 8, 0x90, 5, 3];
        delta.extend_from_slice(&own);
        let distance = data.len() - at;
        assert!(distance < 128);
        at = data.len();
        data.extend_from_slice(&[0x68, distance as u8]);
        data.extend_from_slice(&deflate_zlib(&delta));
        let mut body = b"hello".to_vec();
        body.extend_from_slice(&own);
        len = body.len();
        bodies.push(body);
    }
    let sum = digest(&data);
    data.extend_from_slice(&sum);
    (data, bodies)
}

#[test]
fn packs_do_not_depend_on_the_size_of_the_cache() {
    let (data, bodies) = pack_with_chain(300);
    let reference = Pack::parse(&data).ok().unwrap();
    assert_eq!(reference.len(), bodies.len());
    for cache in [0, 7, 8, 30, 1000, usize::MAX] {
        let pack = Pack::parse_with_cache(&data, cache).ok().unwrap();
        assert_eq!(pack.oids(), reference.oids());
        for body in &bodies {
            let id = compute_oid(Kind::Blob, body);
            assert_eq!(pack.read_object(&id), Ok(Some((Kind::Blob, body.clone()))));
            assert_eq!(pack.read_object(&id), reference.read_object(&id));
        }
        assert_eq!(pack.read_object(&oid(0)), Ok(None));
    }
    // A pack that is refused is refused with every cache.
    let mut damaged = data.clone();
    damaged[40] ^= 1;
    let content = damaged.len() - 20;
    let sum = digest(&damaged[..content]);
    damaged[content..].copy_from_slice(&sum);
    for cache in [0, 8, 65536] {
        assert!(Pack::parse_with_cache(&damaged, cache).is_err());
    }
}

#[test]
fn chains_that_are_too_deep() {
    // What is kept shortens a chain: with it every delta stands on one that was just restored.
    let (data, bodies) = pack_with_chain(4098);
    let pack = Pack::parse(&data).ok().unwrap();
    assert_eq!(pack.len(), 4100);
    let read = |n: usize| pack.read_object(&compute_oid(Kind::Blob, &bodies[n]));
    // Nothing is kept between reads.
    assert_eq!(read(4097), Ok(Some((Kind::Blob, bodies[4097].clone()))));
    assert_eq!(read(4098), Err(Error::Corrupt("delta chain too deep")));
}

/// A bundle of commits, each with the positions of its parents and its time.
fn history(list: &[(&[usize], i64)]) -> (Vec<u8>, Vec<Oid>) {
    let mut bodies: Vec<Vec<u8>> = Vec::new();
    let mut ids: Vec<Oid> = Vec::new();
    for (i, (parents, time)) in list.iter().enumerate() {
        let sig = Sig { name: b"n", email: b"e", time: *time, tz: b"+0000" };
        let parents: Vec<Oid> = parents.iter().map(|&p| ids[p]).collect();
        let body = commit(oid(1), &parents, &sig, &sig, format!("{i}").as_bytes()).unwrap();
        ids.push(compute_oid(Kind::Commit, &body));
        bodies.push(body);
    }
    let objects: Vec<(Kind, &[u8])> = bodies.iter().map(|b| (Kind::Commit, b.as_slice())).collect();
    let refs: Vec<(&[u8], Oid)> = ids.iter().map(|id| (&b"refs/x"[..], *id)).collect();
    (bundle::write(&refs, &[], &write_pack(&objects)).unwrap(), ids)
}

fn walked(bundle: &Bundle<'_>, tips: &[Oid]) -> Vec<Oid> {
    let mut walk = Walk::new(&bundle.pack);
    for tip in tips {
        walk.push(*tip).unwrap();
    }
    let mut out = Vec::new();
    while let Some(item) = walk.next() {
        out.push(item.ok().unwrap().oid);
    }
    assert!(walk.next().is_none());
    out
}

#[test]
fn walks_list_each_commit_once_after_its_children() {
    let list: [(&[usize], i64); 7] = [
        (&[], 50),
        (&[0], 10),
        (&[0], 60),
        (&[1, 2], 20),
        (&[2], 60),
        (&[3, 4], 5),
        (&[], 60),
    ];
    let (data, ids) = history(&list);
    let bundle = Bundle::parse(&data).ok().unwrap();
    let order = walked(&bundle, &ids);
    let mut back = ids.clone();
    back.reverse();
    assert_eq!(walked(&bundle, &back), order);
    assert_eq!(walked(&bundle, &[ids[5], ids[6]]), order);
    assert_eq!(order.len(), ids.len());
    let at = |id: &Oid| order.iter().position(|x| x == id).unwrap();
    for (i, (parents, _)) in list.iter().enumerate() {
        for &p in parents.iter() {
            assert!(at(&ids[i]) < at(&ids[p]));
        }
    }
    // The count of a device is that of the commits.
    assert_eq!(tig::mcu::commit_count(&data), 7);
    // A list with a limit is the start of the whole.
    let text = tig::cli::log(&bundle, None, 3, tig::cli::Format::Oid).unwrap();
    let expected: String = order[..3].iter().map(|id| format!("{}\n", id.to_hex())).collect();
    assert_eq!(text, expected);
}

#[test]
fn tags_around_tags() {
    let sig = Sig { name: b"n", email: b"e", time: 0, tz: b"+0000" };
    let body = commit(oid(1), &[], &sig, &sig, b"m").unwrap();
    let mut bodies = vec![(Kind::Commit, body)];
    let mut ids = vec![compute_oid(Kind::Commit, &bodies[0].1)];
    for i in 0..16 {
        let text = format!("object {}\ntype tag\ntag t{i}\n\n", ids[i].to_hex()).into_bytes();
        ids.push(compute_oid(Kind::Tag, &text));
        bodies.push((Kind::Tag, text));
    }
    let objects: Vec<(Kind, &[u8])> = bodies.iter().map(|(k, b)| (*k, b.as_slice())).collect();
    let data = write_pack(&objects);
    let pack = Pack::parse(&data).ok().unwrap();
    let mut walk = Walk::new(&pack);
    assert_eq!(walk.push(ids[15]), Ok(()));
    assert_eq!(walk.push(ids[16]), Err(Error::Corrupt("tag nesting too deep")));
    assert_eq!(walk.push(oid(9)), Err(Error::MissingBase));
    assert_eq!(walk.next().unwrap().ok().unwrap().oid, ids[0]);
    assert!(walk.next().is_none());
}

#[test]
fn frames_are_read_as_they_are_written() {
    let longest = noise(pkt::MAX_DATA_LEN);
    let mut out = Vec::new();
    pkt::write_data(&mut out, b"");
    pkt::write_data(&mut out, &longest);
    pkt::write_line(&mut out, b"line");
    pkt::write_delim(&mut out);
    pkt::write_flush(&mut out);
    let mut r = PktReader::new(&out);
    assert_eq!(r.next(), Some(Ok(Pkt::Data(b""))));
    assert_eq!(r.next(), Some(Ok(Pkt::Data(&longest))));
    let Some(Ok(Pkt::Data(line))) = r.next() else {
        panic!("no line");
    };
    assert_eq!(pkt::trim_line(line), b"line");
    assert_eq!(r.next(), Some(Ok(Pkt::Delim)));
    assert_eq!(r.next(), Some(Ok(Pkt::Flush)));
    assert_eq!(r.rest(), b"");
    assert!(r.next().is_none());
}

#[test]
fn clones_end_after_three_responses() {
    let mut adv = Vec::new();
    pkt::write_line(&mut adv, b"version 2");
    pkt::write_line(&mut adv, b"ls-refs=unborn");
    pkt::write_line(&mut adv, b"fetch=shallow wait-for-done");
    pkt::write_flush(&mut adv);
    let mut refs = Vec::new();
    for name in ["HEAD", "refs/heads/main"] {
        pkt::write_line(&mut refs, format!("{} {name}", oid(1).to_hex()).as_bytes());
    }
    pkt::write_flush(&mut refs);
    let mut fetched = Vec::new();
    pkt::write_line(&mut fetched, b"packfile");
    pkt::write_data(&mut fetched, b"\x01PACK");
    pkt::write_flush(&mut fetched);

    let mut clone = tig::clone::Clone::new(CloneOptions::default());
    for response in [&adv, &refs, &fetched] {
        // A response that is refused changes neither the state nor the request.
        let before = clone.next_request().unwrap();
        assert!(clone.on_response(b"00").is_err());
        assert_eq!(clone.next_request().unwrap(), before);
        assert!(!clone.is_done());
        assert_eq!(clone.on_response(response), Ok(()));
    }
    assert!(clone.is_done());
    assert!(clone.next_request().is_none());
    assert_eq!(
        clone.on_response(&adv),
        Err(Error::Corrupt("response after completion"))
    );
    let outcome = clone.finish().ok().unwrap();
    assert_eq!(outcome.refs.len(), 2);
    assert_eq!(outcome.pack, b"PACK");
}

#[test]
fn clones_ask_for_each_object_once() {
    let mut adv = Vec::new();
    pkt::write_line(&mut adv, b"version 2");
    pkt::write_line(&mut adv, b"ls-refs");
    pkt::write_line(&mut adv, b"fetch");
    pkt::write_flush(&mut adv);
    let mut refs = Vec::new();
    for name in ["a", "b"] {
        pkt::write_line(&mut refs, format!("{} {name}", oid(1).to_hex()).as_bytes());
    }
    pkt::write_flush(&mut refs);
    let mut clone = tig::clone::Clone::new(CloneOptions::default());
    clone.on_response(&adv).unwrap();
    clone.on_response(&refs).unwrap();
    let Some(CloneRequest::Post { body, .. }) = clone.next_request() else {
        panic!("no command");
    };
    let text = String::from_utf8_lossy(&body).into_owned();
    assert_eq!(text.matches("want ").count(), 1);
}

#[test]
fn clones_need_what_they_ask_for() {
    let mut adv = Vec::new();
    pkt::write_line(&mut adv, b"version 2");
    pkt::write_line(&mut adv, b"fetch");
    pkt::write_flush(&mut adv);
    let mut clone = tig::clone::Clone::new(CloneOptions::default());
    assert_eq!(
        clone.on_response(&adv),
        Err(Error::Unsupported("server without ls-refs/fetch"))
    );
    assert_eq!(clone.finish().err(), Some(Error::Corrupt("clone not finished")));
}

#[test]
fn pushes_send_what_differs() {
    let updates = vec![
        (b"refs/same".to_vec(), oid(1)),
        (b"refs/changed".to_vec(), oid(2)),
        (b"refs/new".to_vec(), oid(3)),
    ];
    let mut push = Push::new(updates, b"PACK".to_vec());
    let mut adv = Vec::new();
    pkt::write_line(
        &mut adv,
        format!("{} refs/same\0report-status", oid(1).to_hex()).as_bytes(),
    );
    pkt::write_line(&mut adv, format!("{} refs/changed", oid(9).to_hex()).as_bytes());
    pkt::write_flush(&mut adv);
    push.on_response(&adv).unwrap();
    assert!(push.is_sendable());
    let Some(tig::push::Request::Post { body, .. }) = push.next_request() else {
        panic!("no update");
    };
    let mut expected = Vec::new();
    pkt::write_line(
        &mut expected,
        format!(
            "{} {} refs/changed\0report-status agent=tig/0.1",
            oid(9).to_hex(),
            oid(2).to_hex()
        )
        .as_bytes(),
    );
    pkt::write_line(
        &mut expected,
        format!("{} {} refs/new", oid(0).to_hex(), oid(3).to_hex()).as_bytes(),
    );
    pkt::write_flush(&mut expected);
    expected.extend_from_slice(b"PACK");
    assert_eq!(body, expected);

    // A report on one of the two is refused and changes nothing.
    let mut half = Vec::new();
    pkt::write_line(&mut half, b"unpack ok");
    pkt::write_line(&mut half, b"ok refs/new");
    assert_eq!(
        push.on_response(&half),
        Err(Error::Corrupt("report-status missing ref result"))
    );
    assert!(!push.is_done());
    let mut whole = half.clone();
    pkt::write_line(&mut whole, b"ok refs/changed");
    assert_eq!(push.on_response(&whole), Ok(()));
    assert!(push.is_done() && push.next_request().is_none());
    let outcome = push.finish().ok().unwrap();
    assert!(!outcome.up_to_date);
    assert!(outcome.report.unwrap().is_success());
}

#[test]
fn pushes_need_reports() {
    let mut push = Push::new(vec![(b"r".to_vec(), oid(1))], Vec::new());
    let mut adv = Vec::new();
    pkt::write_line(&mut adv, format!("{} r\0side-band-64k", oid(2).to_hex()).as_bytes());
    pkt::write_flush(&mut adv);
    assert_eq!(
        push.on_response(&adv),
        Err(Error::Unsupported("server without report-status"))
    );
    assert_eq!(push.finish().err(), Some(Error::Corrupt("push not finished")));
}

#[test]
fn names_that_are_too_long_cannot_be_sent() {
    for (len, fits) in [(65_516 - 82 - 29, true), (65_516 - 82 - 28, false)] {
        let mut push = Push::new(vec![(vec![b'x'; len], oid(1))], Vec::new());
        assert!(push.is_sendable());
        let mut adv = Vec::new();
        pkt::write_line(&mut adv, format!("{} r\0report-status", oid(2).to_hex()).as_bytes());
        pkt::write_flush(&mut adv);
        push.on_response(&adv).unwrap();
        assert_eq!(push.is_sendable(), fits);
    }
}

#[test]
fn trees_are_written_out_by_their_paths() {
    let blob = b"text";
    let blob_id = compute_oid(Kind::Blob, blob);
    let inner = tree(&[
        TreeEntry { mode: b"100755", name: b"run", oid: blob_id },
        TreeEntry { mode: b"160000", name: b"sub", oid: oid(7) },
    ])
    .unwrap();
    let root = tree(&[
        TreeEntry { mode: b"40000", name: b"d", oid: compute_oid(Kind::Tree, &inner) },
        TreeEntry { mode: b"120000", name: b"l", oid: blob_id },
        TreeEntry { mode: b"100664", name: b"f", oid: blob_id },
    ])
    .unwrap();
    let root_id = compute_oid(Kind::Tree, &root);
    let data = write_pack(&[(Kind::Blob, blob), (Kind::Tree, &inner), (Kind::Tree, &root)]);
    let pack = Pack::parse(&data).ok().unwrap();
    let mut seen: Vec<(Vec<u8>, EntryKind, Vec<u8>)> = Vec::new();
    checkout::walk(&pack, root_id, &mut |path: &[u8], kind, content: &[u8]| {
        seen.push((path.to_vec(), kind, content.to_vec()));
        Ok(())
    })
    .unwrap();
    assert_eq!(
        seen,
        vec![
            (b"d/run".to_vec(), EntryKind::Executable, blob.to_vec()),
            (b"d/sub".to_vec(), EntryKind::Gitlink, vec![7; 20]),
            (b"f".to_vec(), EntryKind::File, blob.to_vec()),
            (b"l".to_vec(), EntryKind::Symlink, blob.to_vec()),
        ]
    );
    // The first error of the callback ends the walk.
    let mut calls = 0;
    let r = checkout::walk(&pack, root_id, &mut |_: &[u8], _, _: &[u8]| {
        calls += 1;
        if calls == 2 { Err(Error::UnexpectedEof) } else { Ok(()) }
    });
    assert_eq!((r, calls), (Err(Error::UnexpectedEof), 2));
}

#[test]
fn cursors_give_each_file_once() {
    let blob = b"text";
    let blob_id = compute_oid(Kind::Blob, blob);
    let empty = tree(&[]).unwrap();
    let inner = tree(&[
        TreeEntry { mode: b"100755", name: b"run", oid: blob_id },
        TreeEntry { mode: b"40000", name: b"none", oid: compute_oid(Kind::Tree, &empty) },
    ])
    .unwrap();
    let root = tree(&[
        TreeEntry { mode: b"100644", name: b"a", oid: blob_id },
        TreeEntry { mode: b"40000", name: b"d", oid: compute_oid(Kind::Tree, &inner) },
        TreeEntry { mode: b"160000", name: b"m", oid: oid(7) },
        TreeEntry { mode: b"100644", name: b"x", oid: oid(8) },
        TreeEntry { mode: b"100644", name: b"y", oid: blob_id },
    ])
    .unwrap();
    let data = write_pack(&[
        (Kind::Blob, blob),
        (Kind::Tree, &empty),
        (Kind::Tree, &inner),
        (Kind::Tree, &root),
    ]);
    let pack = Pack::parse(&data).ok().unwrap();
    let found = |path: &[u8], kind: EntryKind, content: &[u8]| {
        Some(Ok(TreeFile { path: path.to_vec(), kind, content: content.to_vec() }))
    };
    let mut cursor = Cursor::new(&pack, &compute_oid(Kind::Tree, &root));
    assert_eq!(cursor.next(), found(b"a", EntryKind::File, blob));
    assert_eq!(cursor.next(), found(b"d/run", EntryKind::Executable, blob));
    assert_eq!(cursor.next(), found(b"m", EntryKind::Gitlink, &[7; 20]));
    // The blob of the next one is missing. Nothing comes after that.
    assert_eq!(cursor.next(), Some(Err(Error::MissingBase)));
    assert_eq!(cursor.next(), None);
    assert_eq!(cursor.next(), None);

    let mut whole = Cursor::new(&pack, &compute_oid(Kind::Tree, &inner));
    assert_eq!(whole.next(), found(b"run", EntryKind::Executable, blob));
    assert_eq!(whole.next(), None);
    assert_eq!(Cursor::new(&pack, &compute_oid(Kind::Tree, &empty)).next(), None);

    let mut none = Cursor::new(&pack, &oid(9));
    assert_eq!(none.next(), Some(Err(Error::MissingBase)));
    assert_eq!(none.next(), None);
    let mut file = Cursor::new(&pack, &blob_id);
    assert_eq!(file.next(), Some(Err(Error::Corrupt("not a tree"))));
    assert_eq!(file.next(), None);
}

#[test]
fn trees_that_cannot_be_written_out() {
    let odd = tree(&[TreeEntry { mode: b"100600", name: b"f", oid: oid(1) }]).unwrap();
    let odd_id = compute_oid(Kind::Tree, &odd);
    let data = write_pack(&[(Kind::Tree, &odd), (Kind::Blob, b"x"), (Kind::Tree, b"40000 a")]);
    let pack = Pack::parse(&data).ok().unwrap();
    let walk = |id: Oid| checkout::walk(&pack, id, &mut |_: &[u8], _, _: &[u8]| Ok(()));
    assert_eq!(walk(odd_id), Err(Error::Corrupt("tree entry mode")));
    assert_eq!(walk(oid(9)), Err(Error::MissingBase));
    assert_eq!(walk(compute_oid(Kind::Blob, b"x")), Err(Error::Corrupt("not a tree")));
    assert_eq!(
        walk(compute_oid(Kind::Tree, b"40000 a")),
        Err(Error::Corrupt("tree entry name"))
    );
}

#[test]
fn trees_that_are_too_deep() {
    let mut bodies: Vec<Vec<u8>> = vec![Vec::new()];
    for i in 0..256 {
        let id = compute_oid(Kind::Tree, &bodies[i]);
        bodies.push(tree(&[TreeEntry { mode: b"40000", name: b"d", oid: id }]).unwrap());
    }
    let objects: Vec<(Kind, &[u8])> = bodies.iter().map(|b| (Kind::Tree, b.as_slice())).collect();
    let data = write_pack(&objects);
    let pack = Pack::parse(&data).ok().unwrap();
    let walk = |i: usize| {
        let id = compute_oid(Kind::Tree, &bodies[i]);
        checkout::walk(&pack, id, &mut |_: &[u8], _, _: &[u8]| Ok(()))
    };
    assert_eq!(walk(255), Ok(()));
    assert_eq!(walk(256), Err(Error::Corrupt("tree nesting too deep")));
}
