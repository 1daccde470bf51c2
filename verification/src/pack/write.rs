//! Writing packs.

use vstd::prelude::*;

use crate::object::Kind;
use crate::sha1::{digest, sha1};
use crate::zlib::deflate::{deflate_zlib, deflated};
use crate::zlib::inflate::{be32, be32_bytes};
use crate::bytes::{lit, text};

use super::entry::{OBJ_BLOB, OBJ_COMMIT, OBJ_TAG, OBJ_TREE};

verus! {

/// The type code of a kind.
pub open spec fn code_of(kind: Kind) -> u8 {
    match kind {
        Kind::Commit => OBJ_COMMIT,
        Kind::Tree => OBJ_TREE,
        Kind::Blob => OBJ_BLOB,
        Kind::Tag => OBJ_TAG,
    }
}

/// A number in bytes of seven bits, the least significant first.
pub open spec fn size_bytes(n: nat) -> Seq<u8>
    decreases n,
{
    if n < 128 {
        seq![n as u8]
    } else {
        seq![(128 + n % 128) as u8] + size_bytes(n / 128)
    }
}

/// The type code and the size of an entry.
pub open spec fn head_bytes(code: u8, len: nat) -> Seq<u8> {
    if len < 16 {
        seq![(16 * code + len) as u8]
    } else {
        seq![(128 + 16 * code + len % 16) as u8] + size_bytes(len / 16)
    }
}

/// An entry that is no delta.
pub open spec fn entry_bytes(kind: Kind, body: Seq<u8>) -> Seq<u8> {
    head_bytes(code_of(kind), body.len()) + deflated(body)
}

pub open spec fn entries_bytes(objects: Seq<(Kind, Seq<u8>)>) -> Seq<u8>
    decreases objects.len(),
{
    if objects.len() == 0 {
        Seq::empty()
    } else {
        entry_bytes(objects[0].0, objects[0].1) + entries_bytes(objects.skip(1))
    }
}

/// A pack up to its checksum.
pub open spec fn content_bytes(objects: Seq<(Kind, Seq<u8>)>) -> Seq<u8> {
    lit("PACK") + be32(2) + be32((objects.len() % 0x1_0000_0000) as u32) + entries_bytes(objects)
}

/// The pack of the given objects, without deltas.
pub open spec fn pack_bytes(objects: Seq<(Kind, Seq<u8>)>) -> Seq<u8> {
    content_bytes(objects) + sha1(content_bytes(objects))
}

pub open spec fn object_views(s: Seq<(Kind, &[u8])>) -> Seq<(Kind, Seq<u8>)> {
    Seq::new(s.len(), |i: int| (s[i].0, s[i].1@))
}

fn push_size(out: &mut Vec<u8>, n: usize)
    ensures
        final(out)@ == old(out)@ + size_bytes(n as nat),
    decreases n,
{
    if n < 128 {
        out.push(n as u8);
        assert(out@ =~= old(out)@ + size_bytes(n as nat));
    } else {
        out.push((128 + n % 128) as u8);
        push_size(out, n / 128);
        assert(out@ =~= old(out)@ + size_bytes(n as nat));
    }
}

fn push_head(out: &mut Vec<u8>, code: u8, len: usize)
    requires
        code <= 4,
    ensures
        final(out)@ == old(out)@ + head_bytes(code, len as nat),
{
    if len < 16 {
        out.push(16 * code + len as u8);
    } else {
        out.push(128 + 16 * code + (len % 16) as u8);
        push_size(out, len / 16);
    }
    assert(out@ =~= old(out)@ + head_bytes(code, len as nat));
}

/// The pack of the given objects, without deltas.
pub fn write_pack(objects: &[(Kind, &[u8])]) -> (r: Vec<u8>)
    ensures
        r@ == pack_bytes(object_views(objects@)),
{
    let ghost all = object_views(objects@);
    let mut out: Vec<u8> = Vec::new();
    out.extend_from_slice(text("PACK"));
    out.extend_from_slice(be32_bytes(2).as_slice());
    let count = (objects.len() as u64 % 0x1_0000_0000) as u32;
    out.extend_from_slice(be32_bytes(count).as_slice());
    let ghost head = out@;
    assert(head =~= lit("PACK") + be32(2) + be32(count));
    let mut i: usize = 0;
    assert(all.skip(0) =~= all);
    while i < objects.len()
        invariant
            i <= objects.len(),
            all == object_views(objects@),
            out@ + entries_bytes(all.skip(i as int)) == head + entries_bytes(all),
        decreases objects.len() - i,
    {
        let (kind, body) = objects[i];
        let ghost before = out@;
        assert(all.skip(i as int)[0] == (kind, body@));
        assert(all.skip(i as int).skip(1) =~= all.skip(i + 1));
        let code: u8 = match kind {
            Kind::Commit => OBJ_COMMIT,
            Kind::Tree => OBJ_TREE,
            Kind::Blob => OBJ_BLOB,
            Kind::Tag => OBJ_TAG,
        };
        push_head(&mut out, code, body.len());
        let stream = deflate_zlib(body);
        out.extend_from_slice(stream.as_slice());
        assert(out@ =~= before + entry_bytes(kind, body@));
        assert(out@ + entries_bytes(all.skip(i + 1)) =~= before + entries_bytes(all.skip(i as int)));
        i += 1;
    }
    assert(out@ =~= content_bytes(all));
    let sum = digest(out.as_slice());
    out.extend_from_slice(sum.as_slice());
    out
}

} // verus!
