//! An input for every way in which the formats can be broken.

use tig::delta;
use tig::err::Error;
use tig::object::{parse_commit, parse_tag, Kind, TreeIter};
use tig::oid::Oid;
use tig::pack::{write_pack, Pack};
use tig::pkt::{self, Pkt, PktReader};
use tig::protov0::{parse_receive_advertisement, parse_report_status};
use tig::protov2::{parse_advertisement, parse_fetch_response, parse_ls_refs};
use tig::sha1;
use tig::zlib::{deflate_zlib, inflate_zlib};

#[test]
fn messages() {
    assert_eq!(Error::UnexpectedEof.message(), "unexpected end of input");
    assert_eq!(Error::Corrupt("x").message(), "corrupt data: x");
    assert_eq!(Error::Unsupported("x").message(), "unsupported: x");
    assert_eq!(Error::Checksum("x").message(), "checksum mismatch: x");
    assert_eq!(Error::MissingBase.message(), "delta base object not found");
}

// --- zlib -----------------------------------------------------------------------------------

/// Bits in the order in which a stream holds them.
struct Bits(Vec<u8>, u32);

impl Bits {
    fn new() -> Self {
        Bits(vec![0x78, 0x01], 0)
    }

    fn put(mut self, value: u32, n: u32) -> Self {
        for i in 0..n {
            if self.1 % 8 == 0 {
                self.0.push(0);
            }
            *self.0.last_mut().unwrap() |= (((value >> i) & 1) as u8) << (self.1 % 8);
            self.1 += 1;
        }
        self
    }

    /// A code, from its first bit on.
    fn code(mut self, code: u32, n: u32) -> Self {
        for i in (0..n).rev() {
            self = self.put((code >> i) & 1, 1);
        }
        self
    }

    fn fixed() -> Self {
        Bits::new().put(1, 1).put(1, 2)
    }

    /// A block with tables: how many literal, distance and length codes, and the lengths of the
    /// first length codes.
    fn dynamic(hlit: u32, hdist: u32, lengths: &[u32]) -> Self {
        let mut b = Bits::new().put(1, 1).put(2, 2).put(hlit, 5).put(hdist, 5);
        b = b.put(lengths.len() as u32 - 4, 4);
        for l in lengths {
            b = b.put(*l, 3);
        }
        b
    }

    fn error(self) -> Error {
        let mut data = self.0;
        data.extend_from_slice(&[0; 64]);
        inflate_zlib(&data, None).err().unwrap()
    }
}

fn zlib_error(data: &[u8]) -> Error {
    inflate_zlib(data, None).err().unwrap()
}

#[test]
fn zlib_headers() {
    assert_eq!(zlib_error(b"\x78"), Error::UnexpectedEof);
    assert_eq!(zlib_error(b"\x77\x01\x00"), Error::Unsupported("zlib compression method"));
    assert_eq!(zlib_error(b"\x78\x02\x00"), Error::Corrupt("zlib header check"));
    assert_eq!(zlib_error(b"\x78\x20\x00"), Error::Unsupported("zlib preset dictionary"));
    let mut data = deflate_zlib(b"abc");
    let n = data.len();
    assert_eq!(zlib_error(&data[..n - 1]), Error::UnexpectedEof);
    data[n - 1] ^= 1;
    assert_eq!(zlib_error(&data), Error::Checksum("zlib adler32"));
}

#[test]
fn zlib_blocks() {
    assert_eq!(Bits::new().put(1, 1).put(3, 2).error(), Error::Corrupt("deflate block type"));
    assert_eq!(
        zlib_error(b"\x78\x01\x01\x01\x00\x00\x00x"),
        Error::Corrupt("stored block length")
    );
    assert_eq!(zlib_error(b"\x78\x01\x01\x05\x00\xfa\xffx"), Error::UnexpectedEof);
    // Symbol 286 of the fixed table, and a distance that it has no code for.
    assert_eq!(Bits::fixed().code(0xc6, 8).error(), Error::Corrupt("literal/length symbol"));
    assert_eq!(
        Bits::fixed().code(0x30, 8).code(1, 7).code(30, 5).error(),
        Error::Corrupt("invalid huffman code")
    );
    assert_eq!(
        Bits::fixed().code(0x30, 8).code(1, 7).code(1, 5).error(),
        Error::Corrupt("distance beyond output")
    );
}

#[test]
fn zlib_tables() {
    // More than 286 literal codes.
    assert_eq!(Bits::dynamic(30, 0, &[0; 4]).error(), Error::Corrupt("dynamic table size"));
    // Three codes of one bit.
    assert_eq!(
        Bits::dynamic(0, 0, &[1, 1, 1, 0]).error(),
        Error::Corrupt("oversubscribed huffman table")
    );
    // No code at all.
    assert_eq!(Bits::dynamic(0, 0, &[0; 4]).error(), Error::Corrupt("invalid huffman code"));
    // Repeat the last length, before there is one.
    assert_eq!(
        Bits::dynamic(0, 0, &[1, 0, 0, 1]).put(1, 1).error(),
        Error::Corrupt("length repeat without previous")
    );
    // Eleven zeros and more, until there are too many.
    let mut b = Bits::dynamic(0, 0, &[0, 0, 1, 1]);
    for _ in 0..2 {
        b = b.put(1, 1).put(127, 7);
    }
    assert_eq!(b.error(), Error::Corrupt("length repeat overflow"));
    // All literal codes are absent.
    let b = Bits::dynamic(0, 0, &[0, 0, 1, 1]).put(1, 1).put(127, 7).put(1, 1).put(109, 7);
    assert_eq!(b.error(), Error::Corrupt("missing end-of-block code"));
}

// --- objects ----------------------------------------------------------------------------------

const HEX: &str = "0101010101010101010101010101010101010101";

fn commit_error(body: &str) -> Error {
    parse_commit(body.as_bytes()).err().unwrap()
}

#[test]
fn commits() {
    let sig = "n <e> 1 +0000";
    assert_eq!(commit_error("tree"), Error::Corrupt("unterminated header line"));
    assert_eq!(commit_error("\n"), Error::Corrupt("commit without tree"));
    let tree = format!("tree {HEX}\n");
    assert_eq!(commit_error(&format!("{tree}\n")), Error::Corrupt("commit without author"));
    assert_eq!(
        commit_error(&format!("{tree}author {sig}\n\n")),
        Error::Corrupt("commit without committer")
    );
    assert_eq!(commit_error("tree 00\n\n"), Error::Corrupt("oid hex length"));
    assert_eq!(commit_error("author x\n"), Error::Corrupt("signature email start"));
    assert_eq!(commit_error("author x <\n"), Error::Corrupt("signature email end"));
    assert_eq!(commit_error("author x <>\n"), Error::Corrupt("signature timestamp"));
    assert_eq!(commit_error("author x <> -\n"), Error::Corrupt("signature timestamp"));
    assert_eq!(
        commit_error("author x <> 9223372036854775808 z\n"),
        Error::Corrupt("signature timestamp")
    );
    let body = format!("{tree}author <e> -9223372036854775807\ncommitter {sig}\n\n");
    let commit = parse_commit(body.as_bytes()).unwrap();
    assert_eq!(commit.author.name, b"");
    assert_eq!(commit.author.time, -9223372036854775807);
    assert_eq!(commit.author.tz, b"");
}

fn tag_error(body: &str) -> Error {
    parse_tag(body.as_bytes()).err().unwrap()
}

#[test]
fn tags() {
    let object = format!("object {HEX}\n");
    assert_eq!(tag_error("\n"), Error::Corrupt("tag without object"));
    assert_eq!(tag_error(&format!("{object}\n")), Error::Corrupt("tag without type"));
    assert_eq!(
        tag_error(&format!("{object}type commit\n\n")),
        Error::Corrupt("tag without name")
    );
    assert_eq!(tag_error("type x\n"), Error::Corrupt("object type name"));
    assert_eq!(tag_error("x"), Error::Corrupt("unterminated header line"));
    let body = format!("{object}type tree\ntag v\n\nm");
    let tag = parse_tag(body.as_bytes()).unwrap();
    assert_eq!((tag.kind, tag.name, tag.tagger, tag.message), (Kind::Tree, &b"v"[..], None, &b"m"[..]));
}

#[test]
fn kinds() {
    for kind in [Kind::Commit, Kind::Tree, Kind::Blob, Kind::Tag] {
        assert_eq!(Kind::from_name(kind.as_str().as_bytes()), Ok(kind));
    }
    assert_eq!(Kind::from_name(b"Commit"), Err(Error::Corrupt("object type name")));
}

#[test]
fn trees() {
    let first = |body: &[u8]| TreeIter::new(body).next().unwrap().err().unwrap();
    assert!(TreeIter::new(b"").next().is_none());
    assert_eq!(first(b"100644"), Error::Corrupt("tree entry mode"));
    assert_eq!(first(b"100644 a"), Error::Corrupt("tree entry name"));
    assert_eq!(first(b"100644 a\x00123"), Error::UnexpectedEof);
}

// --- deltas and packs ---------------------------------------------------------------------------

fn delta_error(base: &[u8], delta: &[u8]) -> Error {
    delta::apply(base, delta).err().unwrap()
}

#[test]
fn deltas() {
    assert_eq!(delta_error(b"", b""), Error::UnexpectedEof);
    assert_eq!(delta_error(b"ab", b"\x01\x00"), Error::Corrupt("delta base size"));
    assert_eq!(delta_error(b"", b"\x00\x01\x00"), Error::Corrupt("delta opcode 0"));
    assert_eq!(delta_error(b"", b"\x00\x02\x01x"), Error::Corrupt("delta result size"));
    assert_eq!(delta_error(b"", b"\x00\x02\x02x"), Error::UnexpectedEof);
    assert_eq!(delta_error(b"ab", b"\x02\x01\x91\x02\x01"), Error::Corrupt("delta copy range"));
    assert_eq!(delta_error(b"ab", b"\x02\x01\x91"), Error::UnexpectedEof);
    assert_eq!(delta_error(b"", &[0x80; 11]), Error::Corrupt("varint overflow"));
    // Without a size 65536 bytes are copied.
    assert_eq!(delta_error(b"ab", b"\x02\x01\x80"), Error::Corrupt("delta copy range"));
    let base = vec![7u8; 0x10000];
    assert_eq!(delta::apply(&base, b"\x80\x80\x04\x80\x80\x04\x80").unwrap(), base);
}

fn sealed(mut content: Vec<u8>) -> Vec<u8> {
    let digest = sha1::digest(&content);
    content.extend_from_slice(&digest);
    content
}

fn pack_head(count: u8) -> Vec<u8> {
    let mut c = b"PACK\0\0\0\x02\0\0\0".to_vec();
    c.push(count);
    c
}

fn pack_error(content: Vec<u8>) -> Error {
    Pack::parse(&sealed(content)).err().unwrap()
}

fn with_entry(mut content: Vec<u8>, head: &[u8], body: &[u8]) -> Vec<u8> {
    content.extend_from_slice(head);
    content.extend_from_slice(&deflate_zlib(body));
    content
}

#[test]
fn packs() {
    assert_eq!(Pack::parse(b"PACK").err(), Some(Error::UnexpectedEof));
    assert_eq!(pack_error(b"KCAP\0\0\0\x02\0\0\0\0".to_vec()), Error::Corrupt("pack magic"));
    assert_eq!(
        pack_error(b"PACK\0\0\0\x03\0\0\0\0".to_vec()),
        Error::Unsupported("pack version")
    );
    let mut data = write_pack(&[]);
    data[31] ^= 1;
    assert_eq!(Pack::parse(&data).err(), Some(Error::Checksum("pack trailer")));
    assert_eq!(pack_error(pack_head(1)), Error::UnexpectedEof);
    let mut c = pack_head(0);
    c.push(0);
    assert_eq!(pack_error(c), Error::Corrupt("trailing bytes after entries"));
    assert_eq!(
        pack_error(with_entry(pack_head(1), b"\x32", b"abc")),
        Error::Corrupt("entry size")
    );
    assert_eq!(
        pack_error(with_entry(pack_head(1), b"\x53", b"abc")),
        Error::Corrupt("object type code")
    );
    assert_eq!(
        pack_error(with_entry(pack_head(1), &[0xb3; 12], b"abc")),
        Error::Corrupt("entry size varint")
    );
    assert_eq!(
        pack_error(with_entry(pack_head(1), b"\x63\x0c", b"abc")),
        Error::Corrupt("ofs delta base offset")
    );
    let mut head = vec![0x73];
    head.extend_from_slice(&[9; 20]);
    assert_eq!(pack_error(with_entry(pack_head(1), &head, b"abc")), Error::MissingBase);
}

#[test]
fn packs_with_deltas() {
    let base = b"hello world, hello world";
    let oid = tig::object::compute_oid(Kind::Blob, base);
    // "hello" out of the base and " you" with it: once by the id, once by the distance.
    let delta = b"\x18\x09\x90\x05\x04 you";
    let mut by_id = vec![0x79];
    by_id.extend_from_slice(oid.as_bytes());
    let mut c = with_entry(pack_head(3), &by_id, delta);
    let at = c.len();
    c = with_entry(c, b"\xb8\x01", base);
    let back = c.len() - at;
    c = with_entry(c, &[0x6a, back as u8], b"\x18\x0a\x90\x05\x05 you!");
    let data = sealed(c);
    for cache in [0, 5, 100] {
        let pack = Pack::parse_with_cache(&data, cache).ok().unwrap();
        assert_eq!(pack.len(), 3);
        for text in [&base[..], b"hello you", b"hello you!"] {
            let oid = tig::object::compute_oid(Kind::Blob, text);
            assert!(pack.contains(&oid));
            assert_eq!(pack.read_object(&oid).unwrap(), Some((Kind::Blob, text.to_vec())));
        }
        assert_eq!(pack.read_object(&Oid::from_bytes([0; 20])).unwrap(), None);
    }
}

/// An entry that is a delta on the object with the given id.
fn on_id(content: Vec<u8>, base: &[u8], delta: &[u8]) -> Vec<u8> {
    let mut head = vec![0x70 | delta.len() as u8];
    head.extend_from_slice(tig::object::compute_oid(Kind::Blob, base).as_bytes());
    with_entry(content, &head, delta)
}

fn blob_id(text: &[u8]) -> Oid {
    tig::object::compute_oid(Kind::Blob, text)
}

#[test]
fn deltas_stand_on_what_was_just_restored() {
    // The second delta stands on the first one and is broken, and so is the third. The first error
    // is that of the second.
    let base = b"hello world, hello world";
    let mut c = with_entry(pack_head(4), b"\xb8\x01", base);
    c = on_id(c, base, b"\x18\x09\x90\x05\x04 you");
    c = on_id(c, b"hello you", b"\x07\x01\x01x");
    c = on_id(c, base, b"\x18\x01\x00");
    let data = sealed(c);
    for cache in [0, 100] {
        assert_eq!(
            Pack::parse_with_cache(&data, cache).err(),
            Some(Error::Corrupt("delta base size"))
        );
    }
}

#[test]
fn deltas_wait_for_the_next_round() {
    // What was just restored comes behind the base though its id is less, and the search passes over
    // the base. The delta on it waits, and the error of the one after it comes first.
    let base = b"hello world, hello world";
    let last = (b'a'..=b'z').find(|&x| blob_id(&[b'h', x]) < blob_id(base)).unwrap();
    let mut c = with_entry(pack_head(4), b"\xb8\x01", base);
    c = on_id(c, base, &[0x18, 2, 0x90, 1, 1, last]);
    c = on_id(c, base, b"\x18\x01\x00");
    let mut alone = c.clone();
    let back = c.len() - 12;
    assert!(back < 128);
    c = with_entry(c, &[0x64, back as u8], b"\x07\x01\x01x");
    assert_eq!(pack_error(c), Error::Corrupt("delta base size"));
    // On its own it is found in the next round.
    alone[11] = 3;
    assert_eq!(pack_error(alone), Error::Corrupt("delta opcode 0"));
}

// --- frames and protocols -------------------------------------------------------------------------

#[test]
fn frames() {
    let first = |data: &[u8]| PktReader::new(data).expect_next().err().unwrap();
    assert_eq!(first(b""), Error::UnexpectedEof);
    assert_eq!(first(b"000"), Error::UnexpectedEof);
    assert_eq!(first(b"00x0"), Error::Corrupt("pkt-line length"));
    assert_eq!(first(b"0003"), Error::Corrupt("pkt-line length 0003"));
    assert_eq!(first(b"0006a"), Error::UnexpectedEof);
    assert_eq!(PktReader::new(b"0002").expect_next(), Ok(Pkt::ResponseEnd));
    assert_eq!(PktReader::new(b"0004").expect_next(), Ok(Pkt::Data(b"")));
    assert_eq!(PktReader::new(b"000Aabcdef").expect_next(), Ok(Pkt::Data(b"abcdef")));
}

/// Frames: a text for a line, `|` for a delimiter, `.` for a flush, `!` for the end of a response.
fn framed(parts: &[&str]) -> Vec<u8> {
    let mut out = Vec::new();
    for part in parts {
        match *part {
            "." => pkt::write_flush(&mut out),
            "|" => pkt::write_delim(&mut out),
            "!" => out.extend_from_slice(b"0002"),
            "" => out.extend_from_slice(b"0004"),
            line => pkt::write_line(&mut out, line.as_bytes()),
        }
    }
    out
}

#[test]
fn fetch_advertisements() {
    let error = |parts: &[&str]| parse_advertisement(&framed(parts)).err().unwrap();
    assert_eq!(error(&[]), Error::UnexpectedEof);
    assert_eq!(error(&["# service=x", "|"]), Error::Corrupt("service announcement"));
    assert_eq!(error(&["version 1"]), Error::Unsupported("protocol version (v2 required)"));
    assert_eq!(error(&["."]), Error::Unsupported("protocol version (v2 required)"));
    assert_eq!(error(&["version 2", "|"]), Error::Corrupt("capability advertisement"));
    assert_eq!(error(&["version 2"]), Error::UnexpectedEof);
}

#[test]
fn lists_of_refs() {
    let error = |parts: &[&str]| parse_ls_refs(&framed(parts)).err().unwrap();
    assert_eq!(error(&[HEX]), Error::Corrupt("ls-refs line"));
    assert_eq!(error(&["|"]), Error::Corrupt("ls-refs response"));
    assert_eq!(error(&["0 r"]), Error::Corrupt("oid hex length"));
    assert_eq!(error(&[]), Error::UnexpectedEof);
    assert!(parse_ls_refs(&framed(&["!"])).unwrap().is_empty());
}

#[test]
fn fetch_responses() {
    let error = |parts: &[&str]| parse_fetch_response(&framed(parts)).err().unwrap();
    assert_eq!(error(&["."]), Error::Corrupt("fetch response without packfile"));
    assert_eq!(error(&["|"]), Error::Corrupt("fetch response"));
    assert_eq!(error(&["other"]), Error::Unsupported("fetch response section"));
    assert_eq!(error(&["shallow-info", "."]), Error::Corrupt("shallow-info section"));
    assert_eq!(error(&["acknowledgments", "."]), Error::Corrupt("truncated section"));
    assert_eq!(error(&["packfile", "."]), Error::Corrupt("empty packfile section"));
    assert_eq!(error(&["packfile", "|"]), Error::Corrupt("packfile section"));
    assert_eq!(error(&["packfile", ""]), Error::Corrupt("sideband pkt"));
    assert_eq!(error(&["packfile", "\u{4}x"]), Error::Corrupt("sideband channel"));
    assert_eq!(error(&["packfile", "\u{3}x"]), Error::Corrupt("remote error (sideband 3)"));
    assert_eq!(error(&["packfile", "\u{1}x"]), Error::UnexpectedEof);
    let shallow = format!("shallow {HEX}");
    let body = framed(&["shallow-info", &shallow, "other", "|", "packfile", "\u{2}p", "\u{1}x", "."]);
    let response = parse_fetch_response(&body).unwrap();
    assert_eq!(response.shallow, vec![Oid::from_bytes([1; 20])]);
    assert_eq!(response.pack, b"x\n");
}

#[test]
fn push_advertisements() {
    let error = |parts: &[&str]| parse_receive_advertisement(&framed(parts)).err().unwrap();
    assert_eq!(error(&["# service=x", "|"]), Error::Corrupt("service announcement"));
    assert_eq!(error(&["."]), Error::Corrupt("receive-pack advertisement"));
    assert_eq!(error(&["x"]), Error::Corrupt("advertisement capabilities"));
    assert_eq!(error(&["x\0"]), Error::Corrupt("advertisement ref line"));
    assert_eq!(error(&["x y\0"]), Error::Corrupt("oid hex length"));
    let line = format!("{HEX} r\0report-status delete-refs");
    assert_eq!(error(&[&line, "|"]), Error::Corrupt("receive-pack advertisement"));
    assert_eq!(error(&[&line]), Error::UnexpectedEof);
    let adv = parse_receive_advertisement(&framed(&[&line, "."])).unwrap();
    assert_eq!(adv.refs, vec![(b"r".to_vec(), Oid::from_bytes([1; 20]))]);
    assert!(adv.report_status && adv.delete_refs && !adv.side_band_64k);
}

#[test]
fn push_reports() {
    let plain = |parts: &[&str]| parse_report_status(&framed(parts), false);
    let banded = |parts: &[&str]| parse_report_status(&framed(parts), true);
    assert_eq!(plain(&["|"]).err(), Some(Error::Corrupt("report-status")));
    assert_eq!(plain(&["!"]).err(), Some(Error::Corrupt("report-status")));
    assert_eq!(banded(&["|"]).err(), Some(Error::Corrupt("report-status")));
    assert_eq!(banded(&[""]).err(), Some(Error::Corrupt("sideband pkt")));
    assert_eq!(banded(&["\u{3}x"]).err(), Some(Error::Corrupt("remote error (sideband 3)")));
    assert_eq!(banded(&["\u{9}x"]).err(), Some(Error::Corrupt("sideband channel")));
    assert_eq!(parse_report_status(b"00", false).err(), Some(Error::UnexpectedEof));
    let report = plain(&["unpack bad", "ng a no way", "ng b", "ok c", "other", "."]).unwrap();
    assert!(!report.unpack_ok && !report.is_success());
    assert_eq!(
        report.results,
        vec![
            (b"a".to_vec(), Some(b"no way".to_vec())),
            (b"b".to_vec(), Some(b"".to_vec())),
            (b"c".to_vec(), None),
        ]
    );
    assert_eq!(plain(&[]).unwrap(), tig::protov0::PushReport::default());
}
