//! The entries of a pack: type and size, the base of a delta, the compressed contents.

use vstd::arithmetic::power2::{lemma2_to64, lemma2_to64_rest, lemma_pow2_adds, lemma_pow2_strictly_increases, pow2};
use vstd::prelude::*;

use crate::err::{Error, Result};
use crate::object::Kind;
use crate::oid::Oid;
use crate::zlib::inflate::{inflate_zlib, inflated};

verus! {

pub const OBJ_COMMIT: u8 = 1;

pub const OBJ_TREE: u8 = 2;

pub const OBJ_BLOB: u8 = 3;

pub const OBJ_TAG: u8 = 4;

pub const OBJ_OFS_DELTA: u8 = 6;

pub const OBJ_REF_DELTA: u8 = 7;

// --- what an entry means -----------------------------------------------------------------------

/// A size that goes on at `p`, where the bytes so far give `low` for the bits below `shift`.
pub open spec fn size_from(data: Seq<u8>, p: int, end: int, shift: nat, low: nat) -> Result<(nat, int)>
    decreases end - p,
{
    if p >= end {
        Err(Error::UnexpectedEof)
    } else if shift >= usize::BITS {
        Err(Error::Corrupt("entry size varint"))
    } else {
        let v = (low + (data[p] % 128) as nat * pow2(shift)) % (usize::MAX + 1) as nat;
        if data[p] < 128 {
            Ok((v, p + 1))
        } else {
            size_from(data, p + 1, end, shift + 7, v)
        }
    }
}

/// The type code and the size of the entry at `offset`, and the position after them.
pub open spec fn head_at(data: Seq<u8>, offset: int, end: int) -> Result<(u8, nat, int)> {
    if offset >= end {
        Err(Error::UnexpectedEof)
    } else {
        let b = data[offset];
        let code = (b / 16 % 8) as u8;
        if b < 128 {
            Ok((code, (b % 16) as nat, offset + 1))
        } else {
            match size_from(data, offset + 1, end, 4, (b % 16) as nat) {
                Ok((size, p)) => Ok((code, size, p)),
                Err(e) => Err(e),
            }
        }
    }
}

/// The base of an entry.
pub enum BaseView {
    /// The entry is no delta.
    Whole,
    /// The entry at this position.
    Offset(int),
    /// The object with this id.
    Id(Seq<u8>),
}

/// A distance that goes on at `p` after a byte that gives `value` so far.
pub open spec fn distance_from(data: Seq<u8>, p: int, end: int, value: nat) -> Result<(nat, int)>
    decreases end - p,
{
    if p >= end {
        Err(Error::UnexpectedEof)
    } else if value + 1 > u64::MAX {
        Err(Error::Corrupt("ofs delta varint"))
    } else {
        let v = ((value + 1) * 128) % 0x1_0000_0000_0000_0000 + (data[p] % 128) as nat;
        if data[p] < 128 {
            Ok((v, p + 1))
        } else {
            distance_from(data, p + 1, end, v)
        }
    }
}

/// The distance at `p`, most significant bits first, and the position after it.
pub open spec fn distance_at(data: Seq<u8>, p: int, end: int) -> Result<(nat, int)> {
    if p >= end {
        Err(Error::UnexpectedEof)
    } else if data[p] < 128 {
        Ok((data[p] as nat, p + 1))
    } else {
        distance_from(data, p + 1, end, (data[p] % 128) as nat)
    }
}

/// The base of the entry at `offset`, which is given at `p`, and the position after it. Nothing
/// is read from `end` on: what stands there is the checksum.
pub open spec fn base_at(data: Seq<u8>, code: u8, p: int, offset: int, end: int) -> Result<
    (BaseView, int),
> {
    if 1 <= code <= 4 {
        Ok((BaseView::Whole, p))
    } else if code == OBJ_OFS_DELTA {
        match distance_at(data, p, end) {
            Err(e) => Err(e),
            Ok((distance, q)) => if offset - distance < 12 {
                Err(Error::Corrupt("ofs delta base offset"))
            } else {
                Ok((BaseView::Offset(offset - distance), q))
            },
        }
    } else if code == OBJ_REF_DELTA {
        if p + 20 > end {
            Err(Error::UnexpectedEof)
        } else {
            Ok((BaseView::Id(data.subrange(p, p + 20)), p + 20))
        }
    } else {
        Err(Error::Corrupt("object type code"))
    }
}

/// An entry without its contents.
pub struct EntryHead {
    pub code: u8,
    pub size: nat,
    pub base: BaseView,
    /// Where the compressed contents start.
    pub start: int,
}

/// The entry at `offset` without its contents.
#[verifier::opaque]
pub open spec fn entry_at(data: Seq<u8>, offset: int, end: int) -> Result<EntryHead> {
    match head_at(data, offset, end) {
        Err(e) => Err(e),
        Ok((code, size, p)) => match base_at(data, code, p, offset, end) {
            Err(e) => Err(e),
            Ok((base, start)) => Ok(EntryHead { code, size, base, start }),
        },
    }
}

/// The contents that start at `start`, and how many bytes they take up.
#[verifier::opaque]
pub open spec fn contents_at(data: Seq<u8>, start: int, end: int, size: nat) -> Result<(Seq<u8>, int)> {
    match inflated(data.subrange(start, end)) {
        Err(e) => Err(e),
        Ok((body, consumed)) => if body.len() != size {
            Err(Error::Corrupt("entry size"))
        } else {
            Ok((body, consumed))
        },
    }
}

/// The kind that a type code stands for.
pub open spec fn kind_coded(code: u8) -> Kind {
    if code == OBJ_COMMIT {
        Kind::Commit
    } else if code == OBJ_TREE {
        Kind::Tree
    } else if code == OBJ_BLOB {
        Kind::Blob
    } else {
        Kind::Tag
    }
}

proof fn lemma_size_from(data: Seq<u8>, p: int, end: int, shift: nat, low: nat)
    ensures
        size_from(data, p, end, shift, low) matches Ok((v, q)) ==> p < q <= end && v <= usize::MAX,
    decreases end - p,
{
    if p < end && shift < usize::BITS {
        let v = (low + (data[p] % 128) as nat * pow2(shift)) % (usize::MAX + 1) as nat;
        lemma_size_from(data, p + 1, end, shift + 7, v);
    }
}

proof fn lemma_distance_from(data: Seq<u8>, p: int, end: int, value: nat)
    ensures
        distance_from(data, p, end, value) matches Ok((v, q)) ==> p < q <= end,
    decreases end - p,
{
    if p < end && value + 1 <= u64::MAX {
        let v = ((value + 1) * 128) % 0x1_0000_0000_0000_0000 + (data[p] % 128) as nat;
        lemma_distance_from(data, p + 1, end, v);
    }
}

/// The parts of an entry lie between its start and the end.
pub proof fn lemma_entry_at(data: Seq<u8>, offset: int, end: int)
    requires
        0 <= offset,
        end <= data.len(),
    ensures
        entry_at(data, offset, end) matches Ok(h) ==> {
            &&& offset < h.start <= end
            &&& h.size <= usize::MAX
            &&& h.base is Whole <==> 1 <= h.code <= 4
            &&& h.base matches BaseView::Offset(b) ==> 12 <= b <= offset
            &&& h.base matches BaseView::Id(id) ==> id.len() == 20
        },
{
    reveal(entry_at);
    if offset < end {
        let b = data[offset];
        lemma_size_from(data, offset + 1, end, 4, (b % 16) as nat);
        if let Ok((code, size, p)) = head_at(data, offset, end) {
            if p < end {
                lemma_distance_from(data, p + 1, end, (data[p] % 128) as nat);
            }
        }
    }
}

// --- reading entries -----------------------------------------------------------------------------

/// The base of an entry.
pub enum BaseRef {
    Whole,
    Offset(usize),
    Oid(Oid),
}

impl View for BaseRef {
    type V = BaseView;

    open spec fn view(&self) -> BaseView {
        match self {
            BaseRef::Whole => BaseView::Whole,
            BaseRef::Offset(b) => BaseView::Offset(*b as int),
            BaseRef::Oid(oid) => BaseView::Id(oid@),
        }
    }
}

/// Type code, size and the position after them.
fn entry_header(data: &[u8], offset: usize, end: usize) -> (r: Result<(u8, usize, usize)>)
    requires
        end <= data@.len(),
    ensures
        match r {
            Ok((code, size, p)) => head_at(data@, offset as int, end as int) == Ok::<_, Error>(
                (code, size as nat, p as int),
            ) && offset < p <= end,
            Err(e) => head_at(data@, offset as int, end as int) == Err::<(u8, nat, int), _>(e),
        },
{
    if offset >= end {
        return Err(Error::UnexpectedEof);
    }
    let first = data[offset];
    let code = first / 16 % 8;
    let mut size: usize = (first % 16) as usize;
    let mut pos: usize = offset + 1;
    let mut shift: u32 = 4;
    let mut scale: u128 = 16;
    let mut more = first >= 128;
    proof {
        lemma2_to64();
    }
    while more
        invariant
            end <= data@.len(),
            offset < pos <= end,
            shift <= 64 + 7,
            shift < 64 ==> scale == pow2(shift as nat),
            more ==> head_at(data@, offset as int, end as int) == (match size_from(
                data@,
                pos as int,
                end as int,
                shift as nat,
                size as nat,
            ) {
                Ok((size, p)) => Ok((code, size, p)),
                Err(e) => Err(e),
            }),
            !more ==> head_at(data@, offset as int, end as int) == Ok::<_, Error>(
                (code, size as nat, pos as int),
            ),
        decreases end - pos + if more { 1int } else { 0 },
    {
        if pos >= end {
            return Err(Error::UnexpectedEof);
        }
        let b = data[pos];
        if shift >= usize::BITS {
            return Err(Error::Corrupt("entry size varint"));
        }
        proof {
            lemma2_to64();
            lemma2_to64_rest();
            lemma_pow2_strictly_increases(shift as nat, 64);
            lemma_pow2_adds(shift as nat, 7);
        }
        assert((b % 128) as u128 * scale <= 127 * scale) by (nonlinear_arith)
            requires
                b % 128 <= 127,
        ;
        size = ((size as u128 + (b % 128) as u128 * scale) % (usize::MAX as u128 + 1)) as usize;
        pos += 1;
        shift += 7;
        scale = scale * 128;
        more = b >= 128;
    }
    Ok((code, size, pos))
}

/// The distance to the base of a delta.
fn read_distance(data: &[u8], start: usize, end: usize) -> (r: Result<(u64, usize)>)
    requires
        end <= data@.len(),
    ensures
        match r {
            Ok((v, p)) => distance_at(data@, start as int, end as int) == Ok::<_, Error>(
                (v as nat, p as int),
            ) && start < p <= end,
            Err(e) => distance_at(data@, start as int, end as int) == Err::<(nat, int), _>(e),
        },
{
    if start >= end {
        return Err(Error::UnexpectedEof);
    }
    let mut pos: usize = start + 1;
    let mut value: u64 = (data[start] % 128) as u64;
    let mut more = data[start] >= 128;
    while more
        invariant
            end <= data@.len(),
            start < pos <= end,
            more ==> distance_at(data@, start as int, end as int) == distance_from(
                data@,
                pos as int,
                end as int,
                value as nat,
            ),
            !more ==> distance_at(data@, start as int, end as int) == Ok::<_, Error>(
                (value as nat, pos as int),
            ),
        decreases end - pos + if more { 1int } else { 0 },
    {
        if pos >= end {
            return Err(Error::UnexpectedEof);
        }
        let b = data[pos];
        if value == u64::MAX {
            return Err(Error::Corrupt("ofs delta varint"));
        }
        let shifted: u64 = (((value as u128 + 1) * 128) % 0x1_0000_0000_0000_0000u128) as u64;
        assert(shifted % 128 == 0);
        value = shifted + (b % 128) as u64;
        pos += 1;
        more = b >= 128;
    }
    Ok((value, pos))
}

/// The base of the entry at `offset`, which is given at `pos`, and the position after it.
fn base_ref(data: &[u8], code: u8, pos: usize, offset: usize, end: usize) -> (r: Result<
    (BaseRef, usize),
>)
    requires
        end <= data@.len(),
        pos <= end,
    ensures
        match r {
            Ok((base, p)) => base_at(data@, code, pos as int, offset as int, end as int) == Ok::<_, Error>(
                (base@, p as int),
            ) && pos <= p <= end,
            Err(e) => base_at(data@, code, pos as int, offset as int, end as int) == Err::<
                (BaseView, int),
                _,
            >(e),
        },
{
    if 1 <= code && code <= 4 {
        Ok((BaseRef::Whole, pos))
    } else if code == OBJ_OFS_DELTA {
        let (distance, p) = read_distance(data, pos, end)?;
        if (offset as u64) < distance || offset as u64 - distance < 12 {
            return Err(Error::Corrupt("ofs delta base offset"));
        }
        Ok((BaseRef::Offset((offset as u64 - distance) as usize), p))
    } else if code == OBJ_REF_DELTA {
        if end - pos < 20 {
            return Err(Error::UnexpectedEof);
        }
        Ok((BaseRef::Oid(Oid::from_slice(&data[pos..pos + 20])), pos + 20))
    } else {
        Err(Error::Corrupt("object type code"))
    }
}

/// An entry without its contents.
pub struct Entry {
    pub code: u8,
    pub size: usize,
    pub base: BaseRef,
    pub start: usize,
}

impl View for Entry {
    type V = EntryHead;

    open spec fn view(&self) -> EntryHead {
        EntryHead {
            code: self.code,
            size: self.size as nat,
            base: self.base@,
            start: self.start as int,
        }
    }
}

/// The entry at `offset` without its contents.
pub fn read_entry(data: &[u8], offset: usize, end: usize) -> (r: Result<Entry>)
    requires
        end <= data@.len(),
    ensures
        crate::err::agrees(r, entry_at(data@, offset as int, end as int)),
{
    proof {
        reveal(entry_at);
    }
    let (code, size, pos) = entry_header(data, offset, end)?;
    let (base, start) = base_ref(data, code, pos, offset, end)?;
    Ok(Entry { code, size, base, start })
}

/// The contents that start at `start`, and how many bytes they take up.
pub fn read_contents(data: &[u8], start: usize, end: usize, size: usize) -> (r: Result<(Vec<u8>, usize)>)
    requires
        start <= end <= data@.len(),
    ensures
        match r {
            Ok((body, n)) => contents_at(data@, start as int, end as int, size as nat) == Ok::<_, Error>(
                (body@, n as int),
            ) && n <= end - start,
            Err(e) => contents_at(data@, start as int, end as int, size as nat) == Err::<
                (Seq<u8>, int),
                _,
            >(e),
        },
{
    proof {
        reveal(contents_at);
    }
    let stream = &data[start..end];
    let inflated = inflate_zlib(stream, Some(size))?;
    if inflated.data.len() != size {
        return Err(Error::Corrupt("entry size"));
    }
    Ok((inflated.data, inflated.consumed))
}

/// The kind that a type code stands for.
pub fn kind_of(code: u8) -> (r: Kind)
    requires
        1 <= code <= 4,
    ensures
        r == kind_coded(code),
{
    if code == OBJ_COMMIT {
        Kind::Commit
    } else if code == OBJ_TREE {
        Kind::Tree
    } else if code == OBJ_BLOB {
        Kind::Blob
    } else {
        Kind::Tag
    }
}

} // verus!
