//! Packs (version 2).
//!
//! A pack is a header, entries and a SHA-1 checksum. The compressed length of an entry is not
//! recorded, so the entries are found by decompressing them one after the other. Parsing restores
//! every object once to learn its id and keeps an index in the order of the ids; the contents are
//! restored again each time they are read.

pub mod cache;
pub mod entry;
pub mod index;
pub mod laws;
pub mod roundtrip;
pub mod write;

use vstd::prelude::*;

use crate::bytes::{lit, same, text};
use crate::delta::{applied, apply};
use crate::err::{Error, Result};
use crate::object::{compute_oid, object_id, oid_views, Kind};
use crate::oid::Oid;
use crate::sha1::{digest, sha1};
use crate::sort::{in_order, lemma_sorted, lemma_sorted_map, sort, sorted};
use crate::Odb;

use cache::{BaseCache, CacheView};
use entry::{
    contents_at, entry_at, kind_coded, kind_of, lemma_entry_at, read_contents, read_entry, BaseRef,
    BaseView,
};
use index::{
    has_id, lemma_ids_in_order, lemma_place_of, lookup, place_of, place_views, Place, PlaceView,
};

pub use write::write_pack;

verus! {

/// How many deltas may stand on top of each other. A cycle of deltas ends here too.
pub const MAX_DELTA_DEPTH: usize = 4096;

/// How many bytes [`Pack::parse`] may keep while it restores deltas.
pub const DEFAULT_BASE_CACHE_BYTES: usize = 65536;

// --- restoring objects -----------------------------------------------------------------------------

/// An object that was restored, or why it was not, and the cache after that.
pub type Restored = (Result<(Kind, Seq<u8>)>, CacheView);

/// The delta of the entry at `offset`, whose contents start at `start`, applied to its base.
pub open spec fn patched(
    data: Seq<u8>,
    end: int,
    offset: int,
    start: int,
    size: nat,
    base: Restored,
) -> Restored {
    match base.0 {
        Err(e) => base,
        Ok((kind, body)) => match contents_at(data, start, end, size) {
            Err(e) => (Err(e), base.1),
            Ok((delta, _)) => match applied(body, delta) {
                Err(e) => (Err(e), base.1),
                Ok(out) => (Ok((kind, out)), base.1.insert(offset, kind, out)),
            },
        },
    }
}

/// The object of the entry at `offset`, which is the base of `depth` deltas on top of each other.
#[verifier::opaque]
pub open spec fn restored(
    data: Seq<u8>,
    end: int,
    index: Seq<PlaceView>,
    cache: CacheView,
    offset: int,
    depth: nat,
) -> Restored
    decreases MAX_DELTA_DEPTH + 1 - depth,
{
    if depth > MAX_DELTA_DEPTH {
        (Err(Error::Corrupt("delta chain too deep")), cache)
    } else {
        match cache.get(offset) {
            Some(object) => (Ok(object), cache),
            None => match entry_at(data, offset, end) {
                Err(e) => (Err(e), cache),
                Ok(h) => match h.base {
                    BaseView::Whole => match contents_at(data, h.start, end, h.size) {
                        Err(e) => (Err(e), cache),
                        Ok((body, _)) => (
                            Ok((kind_coded(h.code), body)),
                            cache.insert(offset, kind_coded(h.code), body),
                        ),
                    },
                    BaseView::Offset(base) => patched(
                        data,
                        end,
                        offset,
                        h.start,
                        h.size,
                        restored(data, end, index, cache, base, depth + 1),
                    ),
                    BaseView::Id(oid) => match place_of(index, oid) {
                        None => (Err(Error::MissingBase), cache),
                        Some(base) => patched(
                            data,
                            end,
                            offset,
                            h.start,
                            h.size,
                            restored(data, end, index, cache, base, depth + 1),
                        ),
                    },
                },
            },
        }
    }
}

/// A chain of deltas, the outermost first, applied to the base of the last one.
spec fn unwound(data: Seq<u8>, end: int, chain: Seq<(usize, usize, usize)>, base: Restored) -> Restored
    decreases chain.len(),
{
    if chain.len() == 0 {
        base
    } else {
        let (offset, start, size) = chain.last();
        unwound(
            data,
            end,
            chain.drop_last(),
            patched(data, end, offset as int, start as int, size as nat, base),
        )
    }
}

proof fn lemma_unwound_err(data: Seq<u8>, end: int, chain: Seq<(usize, usize, usize)>, base: Restored)
    requires
        base.0 is Err,
    ensures
        unwound(data, end, chain, base) == base,
    decreases chain.len(),
{
    if chain.len() > 0 {
        lemma_unwound_err(data, end, chain.drop_last(), base);
    }
}

/// Restores the object of the entry at `offset`. The chain of deltas is kept in a list, not on the
/// call stack.
fn materialize(data: &[u8], end: usize, index: &[Place], offset: usize, cache: &mut BaseCache) -> (r: Result<
    (Kind, Vec<u8>),
>)
    requires
        end <= data@.len(),
        offset <= u32::MAX,
        old(cache).wf(),
    ensures
        final(cache).wf(),
        ({
            let want = restored(data@, end as int, place_views(index@), old(cache)@, offset as int, 0);
            &&& final(cache)@ == want.1
            &&& match r {
                Ok((kind, body)) => want.0 == Ok::<_, Error>((kind, body@)),
                Err(e) => want.0 == Err::<(Kind, Seq<u8>), _>(e),
            }
        }),
{
    let ghost d = data@;
    let ghost e = end as int;
    let ghost idx = place_views(index@);
    let ghost c0 = cache@;
    let ghost want = restored(d, e, idx, c0, offset as int, 0);
    // The entries of the deltas: position, start of the contents and their size.
    let mut chain: Vec<(usize, usize, usize)> = Vec::new();
    let mut cur: usize = offset;
    let mut kind = Kind::Blob;
    let mut body: Vec<u8> = Vec::new();
    loop
        invariant_except_break
            cache@ == c0,
            want == unwound(d, e, chain@, restored(d, e, idx, c0, cur as int, chain@.len())),
        invariant
            d == data@,
            e == end,
            idx == place_views(index@),
            c0 == old(cache)@,
            end <= data@.len(),
            cur <= u32::MAX,
            cache.wf(),
            chain@.len() <= MAX_DELTA_DEPTH + 1,
            forall|i: int| 0 <= i < chain@.len() ==> (#[trigger] chain@[i]).0 <= u32::MAX && chain@[i].1 <= end,
            want == restored(d, e, idx, c0, offset as int, 0),
        ensures
            want == unwound(d, e, chain@, (Ok((kind, body@)), cache@)),
        decreases MAX_DELTA_DEPTH + 1 - chain@.len(),
    {
        proof {
            reveal(restored);
        }
        if chain.len() > MAX_DELTA_DEPTH {
            proof {
                lemma_unwound_err(d, e, chain@, restored(d, e, idx, c0, cur as int, chain@.len()));
            }
            return Err(Error::Corrupt("delta chain too deep"));
        }
        if let Some((k, b)) = cache.get(cur) {
            kind = k;
            body = crate::bytes::owned(b);
            break;
        }
        let ghost inner = restored(d, e, idx, c0, cur as int, chain@.len());
        proof {
            lemma_entry_at(d, cur as int, e);
            if inner.0 is Err {
                lemma_unwound_err(d, e, chain@, inner);
            }
        }
        let entry = read_entry(data, cur, end)?;
        let base: usize = match entry.base {
            BaseRef::Whole => {
                let (contents, _) = read_contents(data, entry.start, end, entry.size)?;
                kind = kind_of(entry.code);
                cache.insert(cur, kind, contents.as_slice());
                body = contents;
                break;
            },
            BaseRef::Offset(base) => base,
            BaseRef::Oid(oid) => match lookup(index, &oid) {
                Some(base) => base as usize,
                None => {
                    return Err(Error::MissingBase);
                },
            },
        };
        let ghost before = chain@;
        chain.push((cur, entry.start, entry.size));
        assert(chain@.drop_last() =~= before);
        cur = base;
    }
    let mut i: usize = chain.len();
    assert(chain@.take(i as int) =~= chain@);
    while i > 0
        invariant
            i <= chain@.len(),
            d == data@,
            e == end,
            c0 == old(cache)@,
            end <= data@.len(),
            cache.wf(),
            forall|i: int| 0 <= i < chain@.len() ==> (#[trigger] chain@[i]).0 <= u32::MAX && chain@[i].1 <= end,
            want == restored(d, e, place_views(index@), c0, offset as int, 0),
            want == unwound(d, e, chain@.take(i as int), (Ok((kind, body@)), cache@)),
        decreases i,
    {
        i -= 1;
        let (entry_offset, start, size) = chain[i];
        let ghost rest = chain@.take(i as int);
        let ghost base: Restored = (Ok((kind, body@)), cache@);
        proof {
            let now = chain@.take(i + 1);
            assert(now.last() == chain@[i as int]);
            assert(now.drop_last() =~= rest);
            let next = patched(d, e, entry_offset as int, start as int, size as nat, base);
            if next.0 is Err {
                lemma_unwound_err(d, e, rest, next);
            }
        }
        let (delta, _) = read_contents(data, start, end, size)?;
        body = apply(body.as_slice(), delta.as_slice())?;
        cache.insert(entry_offset, kind, body.as_slice());
    }
    assert(chain@.take(0) =~= Seq::<(usize, usize, usize)>::empty());
    Ok((kind, body))
}

// --- parsing -----------------------------------------------------------------------------------

/// How far the entries have been looked through: the places of objects that are no deltas, the
/// entries of deltas, and the position of the next entry.
pub struct Scan {
    pub places: Seq<PlaceView>,
    pub pending: Seq<int>,
    pub offset: int,
}

/// One more entry.
pub open spec fn scan_step(data: Seq<u8>, end: int, s: Scan) -> Result<Scan> {
    match entry_at(data, s.offset, end) {
        Err(e) => Err(e),
        Ok(h) => match contents_at(data, h.start, end, h.size) {
            Err(e) => Err(e),
            Ok((body, consumed)) => if h.base is Whole {
                Ok(
                    Scan {
                        places: s.places.push(
                            PlaceView { oid: object_id(kind_coded(h.code), body), offset: s.offset },
                        ),
                        offset: h.start + consumed,
                        ..s
                    },
                )
            } else {
                Ok(Scan { pending: s.pending.push(s.offset), offset: h.start + consumed, ..s })
            },
        },
    }
}

/// `n` more entries.
pub open spec fn scanned(data: Seq<u8>, end: int, n: nat, s: Scan) -> Result<Scan>
    decreases n,
{
    if n == 0 {
        Ok(s)
    } else {
        match scan_step(data, end, s) {
            Err(e) => Err(e),
            Ok(t) => scanned(data, end, (n - 1) as nat, t),
        }
    }
}

/// How far a round over the deltas has come: the places of the objects it restored, the deltas
/// whose base is not known yet, and the cache.
pub struct Round {
    pub places: Seq<PlaceView>,
    pub left: Seq<int>,
    pub cache: CacheView,
}

/// One round over the deltas in `pending`. What it restores is put behind the places of the index,
/// and the next delta may stand on it. The places are out of order until the round is over: a search
/// that passes over an id leaves the delta for the next round.
#[verifier::opaque]
pub open spec fn rounded(
    data: Seq<u8>,
    end: int,
    index: Seq<PlaceView>,
    pending: Seq<int>,
    r: Round,
) -> Result<Round>
    decreases pending.len(),
{
    if pending.len() == 0 {
        Ok(r)
    } else {
        let offset = pending[0];
        let (object, cache) = restored(data, end, index + r.places, r.cache, offset, 0);
        match object {
            Ok((kind, body)) => rounded(
                data,
                end,
                index,
                pending.skip(1),
                Round {
                    places: r.places.push(PlaceView { oid: object_id(kind, body), offset }),
                    cache,
                    ..r
                },
            ),
            Err(Error::MissingBase) => rounded(
                data,
                end,
                index,
                pending.skip(1),
                Round { left: r.left.push(offset), cache, ..r },
            ),
            Err(e) => Err(e),
        }
    }
}

/// A round deals with each delta once.
pub proof fn lemma_rounded_len(
    data: Seq<u8>,
    end: int,
    index: Seq<PlaceView>,
    pending: Seq<int>,
    r: Round,
)
    ensures
        rounded(data, end, index, pending, r) matches Ok(t) ==> t.places.len() + t.left.len()
            == r.places.len() + r.left.len() + pending.len(),
    decreases pending.len(),
{
    reveal(rounded);
    if pending.len() > 0 {
        let offset = pending[0];
        let (object, cache) = restored(data, end, index + r.places, r.cache, offset, 0);
        match object {
            Ok((kind, body)) => {
                let p = PlaceView { oid: object_id(kind, body), offset };
                let next = Round { places: r.places.push(p), cache, ..r };
                lemma_rounded_len(data, end, index, pending.skip(1), next);
            },
            Err(_) => {
                let next = Round { left: r.left.push(offset), cache, ..r };
                lemma_rounded_len(data, end, index, pending.skip(1), next);
            },
        }
    }
}

/// The index with the objects of all deltas: there are rounds as long as each restores some.
pub open spec fn resolved(
    data: Seq<u8>,
    end: int,
    index: Seq<PlaceView>,
    pending: Seq<int>,
    cache: CacheView,
) -> Result<Seq<PlaceView>>
    decreases pending.len(),
{
    let start = Round { places: Seq::empty(), left: Seq::empty(), cache };
    proof {
        lemma_rounded_len(data, end, index, pending, start);
    }
    if pending.len() == 0 {
        Ok(index)
    } else {
        match rounded(data, end, index, pending, start) {
            Err(e) => Err(e),
            Ok(r) => if r.places.len() == 0 {
                Err(Error::MissingBase)
            } else {
                resolved(data, end, sorted(index + r.places), r.left, r.cache)
            },
        }
    }
}

/// The number in the four bytes at `p`, most significant first.
pub open spec fn be32_at(data: Seq<u8>, p: int) -> int {
    data[p] * 16777216 + data[p + 1] * 65536 + data[p + 2] * 256 + data[p + 3]
}

/// The index of a pack, built with a cache of the given size.
pub open spec fn parsed(data: Seq<u8>, cache_bytes: nat) -> Result<Seq<PlaceView>> {
    let end = data.len() - 20;
    if data.len() < 32 {
        Err(Error::UnexpectedEof)
    } else if data.take(4) != lit("PACK") {
        Err(Error::Corrupt("pack magic"))
    } else if be32_at(data, 4) != 2 {
        Err(Error::Unsupported("pack version"))
    } else if data.len() > u32::MAX {
        Err(Error::Unsupported("pack larger than 4 GiB"))
    } else if sha1(data.take(end)) != data.skip(end) {
        Err(Error::Checksum("pack trailer"))
    } else {
        let start = Scan { places: Seq::empty(), pending: Seq::empty(), offset: 12 };
        match scanned(data, end, be32_at(data, 8) as nat, start) {
            Err(e) => Err(e),
            Ok(s) => if s.offset != end {
                Err(Error::Corrupt("trailing bytes after entries"))
            } else {
                resolved(data, end, sorted(s.places), s.pending, CacheView::empty(cache_bytes))
            },
        }
    }
}

/// The object with the given id in a pack with the given index.
pub open spec fn object_in(data: Seq<u8>, index: Seq<PlaceView>, oid: Seq<u8>) -> Result<
    Option<(Kind, Seq<u8>)>,
> {
    match place_of(index, oid) {
        None => Ok(None),
        Some(offset) => match restored(data, data.len() - 20, index, CacheView::absent(), offset, 0).0 {
            Ok(object) => Ok(Some(object)),
            Err(e) => Err(e),
        },
    }
}

/// A parsed pack.
pub struct Pack<'a> {
    data: &'a [u8],
    /// Where the checksum starts.
    content_end: usize,
    index: Vec<Place>,
}

spec fn offsets(s: Seq<u32>) -> Seq<int> {
    Seq::new(s.len(), |i: int| s[i] as int)
}

/// Looks through the entries.
fn scan(data: &[u8], end: usize, count: u32) -> (r: Result<(Vec<Place>, Vec<u32>, usize)>)
    requires
        end <= data@.len() <= u32::MAX,
        12 <= end,
    ensures
        ({
            let want = scanned(
                data@,
                end as int,
                count as nat,
                Scan { places: Seq::empty(), pending: Seq::empty(), offset: 12 },
            );
            match r {
                Ok((places, pending, offset)) => want == Ok::<_, Error>(
                    Scan { places: place_views(places@), pending: offsets(pending@), offset: offset as int },
                ),
                Err(e) => want == Err::<Scan, _>(e),
            }
        }),
{
    let ghost d = data@;
    let ghost e = end as int;
    let ghost start = Scan { places: Seq::empty(), pending: Seq::empty(), offset: 12 };
    let mut places: Vec<Place> = Vec::new();
    let mut pending: Vec<u32> = Vec::new();
    let mut offset: usize = 12;
    let mut n: u32 = 0;
    assert(place_views(places@) =~= Seq::<PlaceView>::empty());
    assert(offsets(pending@) =~= Seq::<int>::empty());
    while n < count
        invariant
            n <= count,
            d == data@,
            e == end,
            end <= data@.len() <= u32::MAX,
            12 <= offset <= end,
            start == (Scan { places: Seq::empty(), pending: Seq::empty(), offset: 12 }),
            scanned(d, e, count as nat, start) == scanned(
                d,
                e,
                (count - n) as nat,
                (Scan { places: place_views(places@), pending: offsets(pending@), offset: offset as int }),
            ),
        decreases count - n,
    {
        proof {
            lemma_entry_at(d, offset as int, e);
        }
        let entry = read_entry(data, offset, end)?;
        let (body, consumed) = read_contents(data, entry.start, end, entry.size)?;
        let ghost (places0, pending0) = (places@, pending@);
        match entry.base {
            BaseRef::Whole => {
                let oid = compute_oid(kind_of(entry.code), body.as_slice());
                places.push(Place { oid, offset: offset as u32 });
                assert(place_views(places@) =~= place_views(places0).push(
                    PlaceView { oid: oid@, offset: offset as int },
                ));
            },
            _ => {
                pending.push(offset as u32);
                assert(offsets(pending@) =~= offsets(pending0).push(offset as int));
            },
        }
        offset = entry.start + consumed;
        n += 1;
    }
    Ok((places, pending, offset))
}

/// One round over the deltas in `pending`. The places it finds come behind those of `index`.
fn resolve_round(
    data: &[u8],
    end: usize,
    index: Vec<Place>,
    pending: &[u32],
    cache: &mut BaseCache,
) -> (r: Result<(Vec<Place>, Vec<u32>)>)
    requires
        end <= data@.len(),
        old(cache).wf(),
    ensures
        final(cache).wf(),
        ({
            let want = rounded(
                data@,
                end as int,
                place_views(index@),
                offsets(pending@),
                Round { places: Seq::empty(), left: Seq::empty(), cache: old(cache)@ },
            );
            match r {
                Ok((all, left)) => want matches Ok(t) && place_views(all@) == place_views(index@) + t.places
                    && offsets(left@) == t.left && final(cache)@ == t.cache,
                Err(e) => want == Err::<Round, _>(e),
            }
        }),
{
    let ghost deltas = offsets(pending@);
    let ghost idx = place_views(index@);
    let ghost start = Round { places: Seq::empty(), left: Seq::empty(), cache: cache@ };
    let ghost mut places: Seq<PlaceView> = Seq::empty();
    let mut all: Vec<Place> = index;
    let mut left: Vec<u32> = Vec::new();
    let mut i: usize = 0;
    assert(place_views(all@) =~= idx + places);
    assert(offsets(left@) =~= Seq::<int>::empty());
    assert(deltas.skip(0) =~= deltas);
    while i < pending.len()
        invariant
            i <= pending@.len(),
            end <= data@.len(),
            cache.wf(),
            deltas == offsets(pending@),
            idx == place_views(index@),
            place_views(all@) == idx + places,
            start == (Round { places: Seq::empty(), left: Seq::empty(), cache: old(cache)@ }),
            rounded(data@, end as int, idx, deltas, start) == rounded(
                data@,
                end as int,
                idx,
                deltas.skip(i as int),
                (Round { places, left: offsets(left@), cache: cache@ }),
            ),
        decreases pending.len() - i,
    {
        proof {
            reveal(rounded);
        }
        let offset = pending[i];
        let ghost (all0, left0) = (all@, left@);
        assert(deltas.skip(i as int)[0] == offset as int);
        assert(deltas.skip(i as int).skip(1) =~= deltas.skip(i + 1));
        match materialize(data, end, all.as_slice(), offset as usize, cache) {
            Ok((kind, body)) => {
                let oid = compute_oid(kind, body.as_slice());
                all.push(Place { oid, offset });
                proof {
                    let p = PlaceView { oid: oid@, offset: offset as int };
                    assert(place_views(all@) =~= place_views(all0).push(p));
                    assert((idx + places).push(p) =~= idx + places.push(p));
                    places = places.push(p);
                }
            },
            Err(Error::MissingBase) => {
                left.push(offset);
                assert(offsets(left@) =~= offsets(left0).push(offset as int));
            },
            Err(e) => {
                return Err(e);
            },
        }
        i += 1;
    }
    proof {
        reveal(rounded);
        assert(deltas.skip(i as int) =~= Seq::<int>::empty());
    }
    Ok((all, left))
}

/// The places in order.
fn sorted_places(places: &[Place]) -> (r: Vec<Place>)
    ensures
        place_views(r@) == sorted(place_views(places@)),
        in_order(r@),
{
    proof {
        lemma_sorted(places@);
        lemma_sorted_map(places@, |p: Place| p@);
    }
    sort(places)
}

/// Restores the objects of all deltas.
fn resolve(data: &[u8], end: usize, first: Vec<Place>, deltas: Vec<u32>, cache_bytes: usize) -> (r: Result<
    Vec<Place>,
>)
    requires
        end <= data@.len(),
        in_order(first@),
    ensures
        ({
            let want = resolved(
                data@,
                end as int,
                place_views(first@),
                offsets(deltas@),
                CacheView::empty(cache_bytes as nat),
            );
            match r {
                Ok(index) => want == Ok::<_, Error>(place_views(index@)) && in_order(index@),
                Err(e) => want == Err::<Seq<PlaceView>, _>(e),
            }
        }),
{
    let ghost want = resolved(
        data@,
        end as int,
        place_views(first@),
        offsets(deltas@),
        CacheView::empty(cache_bytes as nat),
    );
    let mut index = first;
    let mut pending = deltas;
    let mut cache = BaseCache::new(cache_bytes);
    while pending.len() > 0
        invariant
            end <= data@.len(),
            in_order(index@),
            cache.wf(),
            want == resolved(
                data@,
                end as int,
                place_views(first@),
                offsets(deltas@),
                CacheView::empty(cache_bytes as nat),
            ),
            want == resolved(
                data@,
                end as int,
                place_views(index@),
                offsets(pending@),
                cache@,
            ),
        decreases pending@.len(),
    {
        proof {
            lemma_rounded_len(
                data@,
                end as int,
                place_views(index@),
                offsets(pending@),
                Round { places: Seq::empty(), left: Seq::empty(), cache: cache@ },
            );
        }
        let known: usize = index.len();
        let (all, left) = resolve_round(data, end, index, pending.as_slice(), &mut cache)?;
        if all.len() == known {
            return Err(Error::MissingBase);
        }
        index = sorted_places(all.as_slice());
        pending = left;
    }
    Ok(index)
}

fn read_be32(data: &[u8], p: usize) -> (r: u32)
    requires
        p + 4 <= data@.len(),
    ensures
        r == be32_at(data@, p as int),
{
    data[p] as u32 * 16777216 + data[p + 1] as u32 * 65536 + data[p + 2] as u32 * 256 + data[p
        + 3] as u32
}

impl<'a> Pack<'a> {
    #[verifier::type_invariant]
    spec fn inv(self) -> bool {
        self.content_end + 20 == self.data@.len() && self.data@.len() <= u32::MAX && in_order(
            self.index@,
        )
    }

    /// The whole pack.
    pub closed spec fn data(&self) -> Seq<u8> {
        self.data@
    }

    /// The places of the objects, in the order of their ids.
    pub closed spec fn index(&self) -> Seq<PlaceView> {
        place_views(self.index@)
    }

    /// Parses a pack with a cache of the usual size.
    pub fn parse(data: &'a [u8]) -> (r: Result<Self>)
        ensures
            match r {
                Ok(pack) => pack.data() == data@ && parsed(data@, DEFAULT_BASE_CACHE_BYTES as nat) == Ok::<
                    _,
                    Error,
                >(pack.index()),
                Err(e) => parsed(data@, DEFAULT_BASE_CACHE_BYTES as nat) == Err::<Seq<PlaceView>, _>(e),
            },
    {
        Self::parse_with_cache(data, DEFAULT_BASE_CACHE_BYTES)
    }

    /// Parses a pack. `cache_bytes` bounds what is kept while deltas are restored.
    pub fn parse_with_cache(data: &'a [u8], cache_bytes: usize) -> (r: Result<Self>)
        ensures
            match r {
                Ok(pack) => pack.data() == data@ && parsed(data@, cache_bytes as nat) == Ok::<_, Error>(
                    pack.index(),
                ),
                Err(e) => parsed(data@, cache_bytes as nat) == Err::<Seq<PlaceView>, _>(e),
            },
    {
        if data.len() < 32 {
            return Err(Error::UnexpectedEof);
        }
        let magic = &data[0..4];
        assert(magic@ =~= data@.take(4));
        if !same(magic, text("PACK")) {
            return Err(Error::Corrupt("pack magic"));
        }
        if read_be32(data, 4) != 2 {
            return Err(Error::Unsupported("pack version"));
        }
        if data.len() as u64 > u32::MAX as u64 {
            return Err(Error::Unsupported("pack larger than 4 GiB"));
        }
        let count = read_be32(data, 8);
        let content_end = data.len() - 20;
        let sum = digest(crate::bytes::up_to(data, content_end));
        if !same(sum.as_slice(), crate::bytes::from_index(data, content_end)) {
            return Err(Error::Checksum("pack trailer"));
        }
        let (places, pending, offset) = scan(data, content_end, count)?;
        if offset != content_end {
            return Err(Error::Corrupt("trailing bytes after entries"));
        }
        let first = sorted_places(places.as_slice());
        let index = resolve(data, content_end, first, pending, cache_bytes)?;
        Ok(Pack { data, content_end, index })
    }

    /// How many objects there are.
    pub fn len(&self) -> (r: usize)
        ensures
            r == self.index().len(),
    {
        self.index.len()
    }

    pub fn is_empty(&self) -> (r: bool)
        ensures
            r == (self.index().len() == 0),
    {
        self.index.len() == 0
    }

    pub fn contains(&self, oid: &Oid) -> (r: bool)
        ensures
            r == has_id(self.index(), oid@),
    {
        proof {
            use_type_invariant(self);
            lemma_ids_in_order(self.index@);
            lemma_place_of(self.index(), oid@);
        }
        lookup(self.index.as_slice(), oid).is_some()
    }

    /// The ids of all objects, in order.
    pub fn oids(&self) -> (r: Vec<Oid>)
        ensures
            oid_views(r@) == self.index().map_values(|p: PlaceView| p.oid),
    {
        let mut out: Vec<Oid> = Vec::new();
        let mut i: usize = 0;
        while i < self.index.len()
            invariant
                i <= self.index@.len(),
                out@.len() == i,
                forall|k: int| 0 <= k < i ==> #[trigger] out@[k] == self.index@[k].oid,
            decreases self.index.len() - i,
        {
            out.push(self.index[i].oid);
            i += 1;
        }
        assert(oid_views(out@) =~= self.index().map_values(|p: PlaceView| p.oid));
        out
    }

    /// Reads an object.
    pub fn read_object(&self, oid: &Oid) -> (r: Result<Option<(Kind, Vec<u8>)>>)
        ensures
            match r {
                Ok(Some((kind, body))) => object_in(self.data(), self.index(), oid@) == Ok::<_, Error>(
                    Some((kind, body@)),
                ),
                Ok(None) => object_in(self.data(), self.index(), oid@) == Ok::<
                    Option<(Kind, Seq<u8>)>,
                    Error,
                >(None),
                Err(e) => object_in(self.data(), self.index(), oid@) == Err::<
                    Option<(Kind, Seq<u8>)>,
                    _,
                >(e),
            },
    {
        proof {
            use_type_invariant(self);
        }
        match lookup(self.index.as_slice(), oid) {
            None => Ok(None),
            Some(offset) => {
                let mut cache = BaseCache::none();
                let object = materialize(
                    self.data,
                    self.content_end,
                    self.index.as_slice(),
                    offset as usize,
                    &mut cache,
                )?;
                Ok(Some(object))
            },
        }
    }
}

impl<'a> Odb for Pack<'a> {
    open spec fn lookup(&self, oid: Seq<u8>) -> Option<(Kind, Seq<u8>)> {
        match object_in(self.data(), self.index(), oid) {
            Ok(object) => object,
            Err(_) => None,
        }
    }

    fn read(&self, oid: &Oid) -> (r: Option<(Kind, Vec<u8>)>) {
        match self.read_object(oid) {
            Ok(object) => object,
            Err(_) => None,
        }
    }
}

} // verus!
