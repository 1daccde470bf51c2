//! Parsing a pack that was written gives its objects back.

use vstd::arithmetic::power2::{lemma2_to64, lemma_pow2_adds, lemma_pow2_strictly_increases, pow2};
use vstd::prelude::*;

use crate::bytes::{lemma_lit, lit};
use crate::err::Error;
use crate::object::{object_id, Kind};
use crate::sha1::sha1;
use crate::sort::{lemma_sorted, lemma_sorted_contains, sorted};
use crate::zlib::deflate::deflated;
use crate::zlib::inflate::be32;
use crate::zlib::roundtrip::inflate_undoes_deflate;

use super::cache::CacheView;
use super::entry::{contents_at, entry_at, head_at, size_from, BaseView, EntryHead};
use super::index::{lemma_place_found, lemma_place_of, place_of, PlaceView};
use super::laws::index_is_in_order;
use super::write::{
    code_of, content_bytes, entries_bytes, entry_bytes, head_bytes, pack_bytes, size_bytes,
};
use super::{be32_at, object_in, parsed, restored, scanned, Scan};

verus! {

/// `data` goes on at `p` with `part`.
spec fn goes_on(data: Seq<u8>, p: int, part: Seq<u8>) -> bool {
    &&& 0 <= p
    &&& p + part.len() <= data.len()
    &&& forall|i: int| 0 <= i < part.len() ==> data[p + i] == #[trigger] part[i]
}

proof fn lemma_goes_on_split(data: Seq<u8>, p: int, a: Seq<u8>, b: Seq<u8>)
    requires
        goes_on(data, p, a + b),
    ensures
        goes_on(data, p, a),
        goes_on(data, p + a.len(), b),
{
    assert forall|i: int| 0 <= i < a.len() implies data[p + i] == #[trigger] a[i] by {
        assert((a + b)[i] == a[i]);
    }
    assert forall|i: int| 0 <= i < b.len() implies data[p + a.len() + i] == #[trigger] b[i] by {
        assert((a + b)[a.len() + i] == b[i]);
    }
}

/// A power of two that fits into a word has an exponent below the width of the word.
proof fn lemma_shift_fits(shift: nat)
    requires
        pow2(shift) <= usize::MAX,
    ensures
        shift < usize::BITS,
{
    lemma2_to64();
    vstd::arithmetic::power2::lemma2_to64_rest();
    if shift > 64 {
        lemma_pow2_strictly_increases(64, shift);
    }
    if shift > 32 {
        lemma_pow2_strictly_increases(32, shift);
    }
}

/// A size that was written is read.
proof fn lemma_size_read(data: Seq<u8>, p: int, end: int, shift: nat, low: nat, n: nat)
    requires
        goes_on(data, p, size_bytes(n)),
        p + size_bytes(n).len() <= end,
        n > 0,
        low + n * pow2(shift) <= usize::MAX,
    ensures
        size_from(data, p, end, shift, low) == Ok::<_, Error>(
            (low + n * pow2(shift), p + size_bytes(n).len()),
        ),
    decreases n,
{
    assert(pow2(shift) <= n * pow2(shift)) by (nonlinear_arith)
        requires
            n > 0,
    ;
    lemma_shift_fits(shift);
    assert(data[p + 0] == size_bytes(n)[0]);
    if n < 128 {
        assert((data[p] % 128) as nat == n);
        vstd::arithmetic::div_mod::lemma_small_mod(low + n * pow2(shift), (usize::MAX + 1) as nat);
    } else {
        assert((data[p] % 128) as nat == n % 128);
        let m = n / 128;
        let rest = size_bytes(m);
        let first = seq![(128 + n % 128) as u8];
        lemma_goes_on_split(data, p, first, rest);
        let next = low + (n % 128) * pow2(shift);
        lemma_pow2_adds(shift, 7);
        lemma2_to64();
        assert(n * pow2(shift) == (n % 128) * pow2(shift) + m * (pow2(shift) * 128)) by (nonlinear_arith)
            requires
                n == 128 * m + n % 128,
        ;
        assert(next <= usize::MAX) by (nonlinear_arith)
            requires
                next + m * (pow2(shift) * 128) <= usize::MAX,
        ;
        vstd::arithmetic::div_mod::lemma_small_mod(next, (usize::MAX + 1) as nat);
        lemma_size_read(data, p + 1, end, shift + 7, next, m);
    }
}

/// The head of an entry that was written is read.
proof fn lemma_head_read(data: Seq<u8>, p: int, end: int, code: u8, len: nat)
    requires
        code < 8,
        len <= usize::MAX,
        goes_on(data, p, head_bytes(code, len)),
        p + head_bytes(code, len).len() <= end,
    ensures
        head_at(data, p, end) == Ok::<_, Error>((code, len, p + head_bytes(code, len).len())),
{
    lemma2_to64();
    assert(data[p + 0] == head_bytes(code, len)[0]);
    if len >= 16 {
        let first = seq![(128 + 16 * code + len % 16) as u8];
        lemma_goes_on_split(data, p, first, size_bytes(len / 16));
        lemma_size_read(data, p + 1, end, 4, len % 16, len / 16);
    }
}

/// An entry that was written is read.
proof fn lemma_entry_read(data: Seq<u8>, p: int, end: int, kind: Kind, body: Seq<u8>)
    requires
        body.len() <= usize::MAX,
        goes_on(data, p, entry_bytes(kind, body)),
        p + entry_bytes(kind, body).len() <= end <= data.len(),
    ensures
        ({
            let start = p + head_bytes(code_of(kind), body.len()).len();
            &&& entry_at(data, p, end) == Ok::<_, Error>(
                EntryHead { code: code_of(kind), size: body.len(), base: BaseView::Whole, start },
            )
            &&& contents_at(data, start, end, body.len()) == Ok::<_, Error>(
                (body, deflated(body).len() as int),
            )
        }),
{
    reveal(entry_at);
    reveal(contents_at);
    let head = head_bytes(code_of(kind), body.len());
    let start = p + head.len();
    lemma_goes_on_split(data, p, head, deflated(body));
    lemma_head_read(data, p, end, code_of(kind), body.len());
    let tail = data.subrange(start + deflated(body).len(), end);
    assert(data.subrange(start, end) =~= deflated(body) + tail);
    inflate_undoes_deflate(body, tail);
}

/// The places of objects that are written from `offset` on.
spec fn placed(objects: Seq<(Kind, Seq<u8>)>, offset: int) -> Seq<PlaceView>
    decreases objects.len(),
{
    if objects.len() == 0 {
        Seq::empty()
    } else {
        let (kind, body) = objects[0];
        seq![PlaceView { oid: object_id(kind, body), offset }] + placed(
            objects.skip(1),
            offset + entry_bytes(kind, body).len(),
        )
    }
}

spec fn sizes_fit(objects: Seq<(Kind, Seq<u8>)>) -> bool {
    forall|i: int| 0 <= i < objects.len() ==> (#[trigger] objects[i]).1.len() <= usize::MAX
}

/// Entries that were written are found.
proof fn lemma_scan_written(data: Seq<u8>, end: int, objects: Seq<(Kind, Seq<u8>)>, s: Scan)
    requires
        goes_on(data, s.offset, entries_bytes(objects)),
        end == s.offset + entries_bytes(objects).len(),
        sizes_fit(objects),
    ensures
        scanned(data, end, objects.len(), s) == Ok::<_, Error>(
            Scan { places: s.places + placed(objects, s.offset), pending: s.pending, offset: end },
        ),
    decreases objects.len(),
{
    if objects.len() == 0 {
        assert(s.places + placed(objects, s.offset) =~= s.places);
    } else {
        let (kind, body) = objects[0];
        let rest = objects.skip(1);
        let entry = entry_bytes(kind, body);
        lemma_goes_on_split(data, s.offset, entry, entries_bytes(rest));
        assert(objects[0].1.len() <= usize::MAX);
        lemma_entry_read(data, s.offset, end, kind, body);
        let p = PlaceView { oid: object_id(kind, body), offset: s.offset };
        let t = Scan { places: s.places.push(p), pending: s.pending, offset: s.offset + entry.len() };
        assert(super::scan_step(data, end, s) == Ok::<_, Error>(t));
        assert(sizes_fit(rest)) by {
            assert forall|i: int| 0 <= i < rest.len() implies (#[trigger] rest[i]).1.len() <= usize::MAX by {
                assert(rest[i] == objects[i + 1]);
            }
        }
        lemma_scan_written(data, end, rest, t);
        assert(t.places + placed(rest, t.offset) =~= s.places + placed(objects, s.offset));
    }
}

/// Each place is that of the object with its number.
proof fn lemma_placed(data: Seq<u8>, objects: Seq<(Kind, Seq<u8>)>, offset: int, j: int)
    requires
        goes_on(data, offset, entries_bytes(objects)),
        0 <= j < objects.len(),
    ensures
        placed(objects, offset).len() == objects.len(),
        placed(objects, offset)[j].oid == object_id(objects[j].0, objects[j].1),
        goes_on(data, placed(objects, offset)[j].offset, entry_bytes(objects[j].0, objects[j].1)),
        placed(objects, offset)[j].offset + entry_bytes(objects[j].0, objects[j].1).len() <= offset
            + entries_bytes(objects).len(),
    decreases objects.len(),
{
    let (kind, body) = objects[0];
    let entry = entry_bytes(kind, body);
    let rest = objects.skip(1);
    lemma_goes_on_split(data, offset, entry, entries_bytes(rest));
    if j > 0 {
        lemma_placed(data, rest, offset + entry.len(), j - 1);
        assert(rest[j - 1] == objects[j]);
    }
    lemma_placed_len(objects, offset);
}

proof fn lemma_placed_len(objects: Seq<(Kind, Seq<u8>)>, offset: int)
    ensures
        placed(objects, offset).len() == objects.len(),
        entries_bytes(objects).len() >= objects.len(),
    decreases objects.len(),
{
    if objects.len() > 0 {
        let (kind, body) = objects[0];
        lemma_placed_len(objects.skip(1), offset + entry_bytes(kind, body).len());
    }
}

/// The head of a pack that was written.
proof fn lemma_written(objects: Seq<(Kind, Seq<u8>)>)
    requires
        pack_bytes(objects).len() <= u32::MAX,
    ensures
        ({
            let data = pack_bytes(objects);
            let end = data.len() - 20;
            &&& data.len() >= 32
            &&& data.take(4) == lit("PACK")
            &&& be32_at(data, 4) == 2
            &&& be32_at(data, 8) == objects.len()
            &&& sha1(data.take(end)) == data.skip(end)
            &&& goes_on(data, 12, entries_bytes(objects))
            &&& end == 12 + entries_bytes(objects).len()
        }),
{
    let data = pack_bytes(objects);
    let content = content_bytes(objects);
    let end = data.len() - 20;
    crate::sha1::lemma_digest_len(content);
    reveal_strlit("PACK");
    lemma_lit("PACK");
    assert(content.len() == end);
    assert(data.take(end) =~= content);
    assert(data.skip(end) =~= sha1(content));
    assert(data.take(4) =~= lit("PACK"));
    lemma_placed_len(objects, 12);
    let n = (objects.len() % 0x1_0000_0000) as u32;
    assert(n == objects.len());
    assert(forall|i: int| 0 <= i < 4 ==> data[4 + i] == #[trigger] be32(2)[i]);
    assert(forall|i: int| 0 <= i < 4 ==> data[8 + i] == #[trigger] be32(n)[i]);
    assert(data[4] == be32(2)[0] && data[5] == be32(2)[1] && data[6] == be32(2)[2] && data[7] == be32(2)[3]);
    assert(data[8] == be32(n)[0] && data[9] == be32(n)[1] && data[10] == be32(n)[2] && data[11] == be32(
        n,
    )[3]);
    assert(n == 16777216 * (n / 16777216) + 65536 * (n / 65536 % 256) + 256 * (n / 256 % 256) + n % 256);
    let entries = entries_bytes(objects);
    assert forall|i: int| 0 <= i < entries.len() implies data[12 + i] == #[trigger] entries[i] by {
        assert(content[12 + i] == entries[i]);
    }
}

/// A pack that was written is parsed, with one place for each object.
proof fn lemma_parse_written(objects: Seq<(Kind, Seq<u8>)>, cache_bytes: nat)
    requires
        pack_bytes(objects).len() <= u32::MAX,
        sizes_fit(objects),
    ensures
        parsed(pack_bytes(objects), cache_bytes) == Ok::<_, Error>(sorted(placed(objects, 12))),
{
    let data = pack_bytes(objects);
    let end = data.len() - 20;
    lemma_written(objects);
    let start = Scan { places: Seq::empty(), pending: Seq::empty(), offset: 12 };
    lemma_scan_written(data, end, objects, start);
    assert(start.places + placed(objects, 12) =~= placed(objects, 12));
}

/// Reading the id of `object` gives an object with that id that was written: `object` itself where
/// the id names no other.
pub open spec fn given_back(
    objects: Seq<(Kind, Seq<u8>)>,
    index: Seq<PlaceView>,
    object: (Kind, Seq<u8>),
) -> bool {
    let oid = object_id(object.0, object.1);
    let read = object_in(pack_bytes(objects), index, oid);
    &&& read matches Ok(Some(found)) && objects.contains(found) && object_id(found.0, found.1) == oid
    &&& (forall|k: int|
        0 <= k < objects.len() && object_id((#[trigger] objects[k]).0, objects[k].1) == oid ==> objects[k]
            == object) ==> read == Ok::<_, Error>(Some(object))
}

proof fn lemma_given_back(objects: Seq<(Kind, Seq<u8>)>, i: int)
    requires
        pack_bytes(objects).len() <= u32::MAX,
        sizes_fit(objects),
        0 <= i < objects.len(),
    ensures
        given_back(objects, sorted(placed(objects, 12)), objects[i]),
{
    let data = pack_bytes(objects);
    let end = data.len() - 20;
    let places = placed(objects, 12);
    let index = sorted(places);
    let oid = object_id(objects[i].0, objects[i].1);
    lemma_written(objects);
    lemma_placed(data, objects, 12, i);
    lemma_sorted_contains(places, places[i]);
    assert(places.contains(places[i]));
    let at = choose|at: int| 0 <= at < index.len() && index[at] == places[i];
    assert(index[at].oid == oid);
    lemma_parse_written(objects, 0);
    index_is_in_order(data, 0);
    lemma_place_of(index, oid);
    lemma_place_found(index, oid);
    let offset = place_of(index, oid)->0;
    let m = choose|m: int|
        0 <= m < index.len() && (#[trigger] index[m]).oid == oid && index[m].offset == offset;
    assert(index.contains(index[m]));
    lemma_sorted_contains(places, index[m]);
    let j = choose|j: int| 0 <= j < places.len() && places[j] == index[m];
    lemma_placed(data, objects, 12, j);
    let (kind, body) = objects[j];
    assert(objects[j].1.len() <= usize::MAX);
    lemma_entry_read(data, offset, end, kind, body);
    reveal(restored);
    assert(CacheView::absent().get(offset) is None);
    assert(object_in(data, index, oid) == Ok::<_, Error>(Some((kind, body))));
    assert(objects.contains(objects[j]));
}

/// What was not written is not found.
proof fn lemma_not_written(objects: Seq<(Kind, Seq<u8>)>, oid: Seq<u8>)
    requires
        pack_bytes(objects).len() <= u32::MAX,
        forall|k: int|
            0 <= k < objects.len() ==> object_id((#[trigger] objects[k]).0, objects[k].1) != oid,
    ensures
        place_of(sorted(placed(objects, 12)), oid) is None,
{
    let places = placed(objects, 12);
    let index = sorted(places);
    lemma_written(objects);
    lemma_place_found(index, oid);
    if place_of(index, oid) is Some {
        let m = choose|m: int| 0 <= m < index.len() && (#[trigger] index[m]).oid == oid;
        assert(index.contains(index[m]));
        lemma_sorted_contains(places, index[m]);
        let j = choose|j: int| 0 <= j < places.len() && places[j] == index[m];
        lemma_placed_len(objects, 12);
        lemma_placed(pack_bytes(objects), objects, 12, j);
        assert(object_id(objects[j].0, objects[j].1) == oid);
    }
}

/// A pack that was written is parsed, with one place for each object; a pack of no objects too. Every
/// object is given back, and an id that none of them has is not found.
pub proof fn pack_round_trip(objects: Seq<(Kind, Seq<u8>)>, cache_bytes: nat)
    requires
        pack_bytes(objects).len() <= u32::MAX,
        forall|k: int| 0 <= k < objects.len() ==> (#[trigger] objects[k]).1.len() <= usize::MAX,
    ensures
        parsed(pack_bytes(objects), cache_bytes) matches Ok(index) && {
            &&& index.len() == objects.len()
            &&& forall|i: int| 0 <= i < objects.len() ==> given_back(objects, index, #[trigger] objects[i])
            &&& forall|oid: Seq<u8>|
                (forall|k: int|
                    0 <= k < objects.len() ==> object_id((#[trigger] objects[k]).0, objects[k].1) != oid)
                    ==> #[trigger] object_in(pack_bytes(objects), index, oid) == Ok::<
                    Option<(Kind, Seq<u8>)>,
                    Error,
                >(None)
        },
{
    let places = placed(objects, 12);
    let index = sorted(places);
    lemma_parse_written(objects, cache_bytes);
    lemma_placed_len(objects, 12);
    lemma_sorted(places);
    assert forall|i: int| 0 <= i < objects.len() implies given_back(objects, index, #[trigger] objects[i]) by {
        lemma_given_back(objects, i);
    }
    assert forall|oid: Seq<u8>|
        (forall|k: int|
            0 <= k < objects.len() ==> object_id((#[trigger] objects[k]).0, objects[k].1) != oid) implies #[trigger] object_in(
        pack_bytes(objects),
        index,
        oid,
    ) == Ok::<Option<(Kind, Seq<u8>)>, Error>(None) by {
        lemma_not_written(objects, oid);
    }
}

} // verus!
