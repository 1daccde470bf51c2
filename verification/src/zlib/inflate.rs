//! Decompression.

use vstd::arithmetic::power2::pow2;
use vstd::prelude::*;

use super::adler::{adler, adler32};
use super::bits::{number, read, BitReader};
use super::huffman::{code_error, decode, end_code, lemma_decode_advances, with_len, Huffman};
use crate::err::{agrees, Error, Result};

verus! {

/// The least match length of each length symbol.
pub const LEN_BASE: [u16; 29] = [
    3, 4, 5, 6, 7, 8, 9, 10, 11, 13, 15, 17, 19, 23, 27, 31, 35, 43, 51, 59, 67, 83, 99, 115, 131, 163,
    195, 227, 258,
];

/// The number of extra bits of each length symbol.
pub const LEN_EXTRA: [u8; 29] = [
    0, 0, 0, 0, 0, 0, 0, 0, 1, 1, 1, 1, 2, 2, 2, 2, 3, 3, 3, 3, 4, 4, 4, 4, 5, 5, 5, 5, 0,
];

/// The least distance of each distance symbol.
pub const DIST_BASE: [u16; 30] = [
    1, 2, 3, 4, 5, 7, 9, 13, 17, 25, 33, 49, 65, 97, 129, 193, 257, 385, 513, 769, 1025, 1537, 2049,
    3073, 4097, 6145, 8193, 12289, 16385, 24577,
];

/// The number of extra bits of each distance symbol.
pub const DIST_EXTRA: [u8; 30] = [
    0, 0, 0, 0, 1, 1, 2, 2, 3, 3, 4, 4, 5, 5, 6, 6, 7, 7, 8, 8, 9, 9, 10, 10, 11, 11, 12, 12, 13, 13,
];

/// The order in which the lengths of the code length code are given.
pub const CLEN_ORDER: [usize; 19] = [16, 17, 18, 0, 8, 7, 9, 6, 10, 5, 11, 4, 12, 3, 13, 2, 14, 1, 15];

// --- what a stream means -------------------------------------------------------

/// The code lengths of the fixed literal and length code.
pub open spec fn fixed_lit() -> Seq<u8> {
    Seq::new(
        288,
        |i: int|
            if i < 144 {
                8u8
            } else if i < 256 {
                9u8
            } else if i < 280 {
                7u8
            } else {
                8u8
            },
    )
}

/// The code lengths of the fixed distance code.
pub open spec fn fixed_dist() -> Seq<u8> {
    Seq::new(30, |i: int| 5u8)
}

/// `out` followed by `n` bytes, each a copy of the byte `distance` before it.
pub open spec fn copy_back(out: Seq<u8>, distance: int, n: nat) -> Seq<u8>
    decreases n,
{
    if n == 0 {
        out
    } else {
        copy_back(out.push(out[out.len() - distance]), distance, (n - 1) as nat)
    }
}

/// The rest of a match after its length symbol: length, distance and the position after it.
pub open spec fn read_match(data: Seq<u8>, p: int, dist: Seq<u8>, sym: int) -> Result<(nat, nat, int)> {
    match read(data, p, LEN_EXTRA[sym - 257] as nat) {
        Err(e) => Err(e),
        Ok((extra, q)) => match decode(dist, data, q) {
            Err(e) => Err(e),
            Ok((dsym, q2)) => if dsym >= 30 {
                Err(Error::Corrupt("distance symbol"))
            } else {
                match read(data, q2, DIST_EXTRA[dsym] as nat) {
                    Err(e) => Err(e),
                    Ok((dextra, q3)) => Ok(
                        (LEN_BASE[sym - 257] as nat + extra, DIST_BASE[dsym] as nat + dextra, q3),
                    ),
                }
            },
        },
    }
}

/// A match takes up bits that are there.
pub proof fn lemma_read_match_advances(data: Seq<u8>, p: int, dist: Seq<u8>, sym: int)
    requires
        257 <= sym <= 285,
    ensures
        read_match(data, p, dist, sym) matches Ok((len, distance, q)) ==> p < q <= 8 * data.len(),
{
    if let Ok((extra, q)) = read(data, p, LEN_EXTRA[sym - 257] as nat) {
        lemma_decode_advances(dist, data, q, 1, 0);
    }
}

/// What a block of symbols adds to `out`, and the position after its end symbol.
pub open spec fn block(data: Seq<u8>, p: int, lit: Seq<u8>, dist: Seq<u8>, out: Seq<u8>) -> Result<
    (Seq<u8>, int),
>
    decreases 8 * data.len() - p,
{
    proof {
        lemma_decode_advances(lit, data, p, 1, 0);
        if let Ok((sym, q)) = decode(lit, data, p) {
            if 257 <= sym <= 285 {
                lemma_read_match_advances(data, q, dist, sym);
            }
        }
    }
    match decode(lit, data, p) {
        Err(e) => Err(e),
        Ok((sym, q)) => if sym < 256 {
            block(data, q, lit, dist, out.push(sym as u8))
        } else if sym == 256 {
            Ok((out, q))
        } else if sym <= 285 {
            match read_match(data, q, dist, sym) {
                Err(e) => Err(e),
                Ok((len, distance, q2)) => if distance > out.len() {
                    Err(Error::Corrupt("distance beyond output"))
                } else {
                    block(data, q2, lit, dist, copy_back(out, distance as int, len))
                },
            }
        } else {
            Err(Error::Corrupt("literal/length symbol"))
        },
    }
}

/// What a stored block adds to `out`, and the position after it.
pub open spec fn stored(data: Seq<u8>, p: int, out: Seq<u8>) -> Result<(Seq<u8>, int)> {
    let a = (p + 7) / 8;
    if a + 4 > data.len() {
        Err(Error::UnexpectedEof)
    } else {
        let len = data[a] + 256 * data[a + 1];
        let complement = data[a + 2] + 256 * data[a + 3];
        if len + complement != 65535 {
            Err(Error::Corrupt("stored block length"))
        } else if a + 4 + len > data.len() {
            Err(Error::UnexpectedEof)
        } else {
            Ok((out + data.subrange(a + 4, a + 4 + len), 8 * (a + 4 + len)))
        }
    }
}

/// The lengths of the code length code, `n` of which are given from `p` on.
pub open spec fn clen_lengths(data: Seq<u8>, p: int, n: nat) -> Seq<u8>
    decreases n,
{
    if n == 0 {
        Seq::new(19, |i: int| 0u8)
    } else {
        clen_lengths(data, p, (n - 1) as nat).update(
            CLEN_ORDER[n - 1] as int,
            number(data, p + 3 * (n - 1), 3) as u8,
        )
    }
}

/// A run of `n` times the length `value` after `acc`.
pub open spec fn repeated(acc: Seq<u8>, total: int, value: u8, n: nat) -> Result<Seq<u8>> {
    if acc.len() + n > total {
        Err(Error::Corrupt("length repeat overflow"))
    } else {
        Ok(acc + Seq::new(n, |i: int| value))
    }
}

/// One step of reading code lengths: the lengths so far with the next symbol taken in.
pub open spec fn lengths_step(data: Seq<u8>, p: int, clen: Seq<u8>, total: int, acc: Seq<u8>) -> Result<
    (Seq<u8>, int),
> {
    match decode(clen, data, p) {
        Err(e) => Err(e),
        Ok((sym, q)) => if sym <= 15 {
            Ok((acc.push(sym as u8), q))
        } else if sym == 16 && acc.len() == 0 {
            Err(Error::Corrupt("length repeat without previous"))
        } else if sym <= 18 {
            let (bits, base, value) = if sym == 16 {
                (2nat, 3nat, acc.last())
            } else if sym == 17 {
                (3nat, 3nat, 0u8)
            } else {
                (7nat, 11nat, 0u8)
            };
            match read(data, q, bits) {
                Err(e) => Err(e),
                Ok((extra, q2)) => match repeated(acc, total, value, base + extra) {
                    Err(e) => Err(e),
                    Ok(next) => Ok((next, q2)),
                },
            }
        } else {
            Err(Error::Corrupt("code length symbol"))
        },
    }
}

/// The `total` code lengths, of which `acc` is known and the others follow at `p`.
pub open spec fn code_lengths(data: Seq<u8>, p: int, clen: Seq<u8>, total: int, acc: Seq<u8>) -> Result<
    (Seq<u8>, int),
>
    decreases 8 * data.len() - p,
{
    proof {
        lemma_decode_advances(clen, data, p, 1, 0);
    }
    if acc.len() >= total {
        Ok((acc, p))
    } else {
        match lengths_step(data, p, clen, total, acc) {
            Err(e) => Err(e),
            Ok((next, q)) => code_lengths(data, q, clen, total, next),
        }
    }
}

/// The two codes that a dynamic block starts with, as code lengths.
pub open spec fn dynamic(data: Seq<u8>, p: int) -> Result<(Seq<u8>, Seq<u8>, int)> {
    if p + 14 > 8 * data.len() {
        Err(Error::UnexpectedEof)
    } else {
        let hlit = number(data, p, 5) + 257;
        let hdist = number(data, p + 5, 5) + 1;
        let hclen = number(data, p + 10, 4) + 4;
        if hlit > 286 || hdist > 30 {
            Err(Error::Corrupt("dynamic table size"))
        } else if p + 14 + 3 * hclen > 8 * data.len() {
            Err(Error::UnexpectedEof)
        } else {
            let clen = clen_lengths(data, p + 14, hclen);
            match code_error(clen) {
                Some(e) => Err(e),
                None => match code_lengths(
                    data,
                    p + 14 + 3 * hclen,
                    clen,
                    (hlit + hdist) as int,
                    Seq::empty(),
                ) {
                    Err(e) => Err(e),
                    Ok((all, q)) => {
                        let lit = all.take(hlit as int);
                        let dist = all.subrange(hlit as int, (hlit + hdist) as int);
                        if all[256] == 0 {
                            Err(Error::Corrupt("missing end-of-block code"))
                        } else if code_error(lit) is Some {
                            Err(code_error(lit)->0)
                        } else if code_error(dist) is Some {
                            Err(code_error(dist)->0)
                        } else {
                            Ok((lit, dist, q))
                        }
                    },
                },
            }
        }
    }
}

/// What one DEFLATE block of the given type adds to `out`, and the position after it.
pub open spec fn typed_block(data: Seq<u8>, p: int, kind: nat, out: Seq<u8>) -> Result<(Seq<u8>, int)> {
    if kind == 0 {
        stored(data, p, out)
    } else if kind == 1 {
        block(data, p, fixed_lit(), fixed_dist(), out)
    } else if kind == 2 {
        match dynamic(data, p) {
            Err(e) => Err(e),
            Ok((lit, dist, q)) => block(data, q, lit, dist, out),
        }
    } else {
        Err(Error::Corrupt("deflate block type"))
    }
}

/// The bytes that the DEFLATE blocks from `p` on add to `out`, and the position after the last.
pub open spec fn blocks(data: Seq<u8>, p: int, out: Seq<u8>) -> Result<(Seq<u8>, int)>
    decreases 8 * data.len() - p,
{
    proof {
        lemma_typed_block_advances(data, p + 3, number(data, p + 1, 2), out);
    }
    if p + 3 > 8 * data.len() {
        Err(Error::UnexpectedEof)
    } else {
        match typed_block(data, p + 3, number(data, p + 1, 2), out) {
            Err(e) => Err(e),
            Ok((next, q)) => if number(data, p, 1) == 1 {
                Ok((next, q))
            } else {
                blocks(data, q, next)
            },
        }
    }
}

/// The four bytes of a number, most significant first.
pub open spec fn be32(x: u32) -> Seq<u8> {
    seq![
        (x / 16777216) as u8,
        (x / 65536 % 256) as u8,
        (x / 256 % 256) as u8,
        (x % 256) as u8,
    ]
}

/// What a zlib stream holds, and how many bytes of `input` it takes up.
#[verifier::opaque]
pub open spec fn inflated(input: Seq<u8>) -> Result<(Seq<u8>, int)> {
    if input.len() < 2 {
        Err(Error::UnexpectedEof)
    } else if input[0] % 16 != 8 {
        Err(Error::Unsupported("zlib compression method"))
    } else if (input[0] * 256 + input[1]) % 31 != 0 {
        Err(Error::Corrupt("zlib header check"))
    } else if (input[1] / 32) % 2 != 0 {
        Err(Error::Unsupported("zlib preset dictionary"))
    } else {
        match blocks(input.skip(2), 0, Seq::empty()) {
            Err(e) => Err(e),
            Ok((out, p)) => {
                let end = 2 + (p + 7) / 8;
                if end + 4 > input.len() {
                    Err(Error::UnexpectedEof)
                } else if input.subrange(end, end + 4) != be32(adler(out)) {
                    Err(Error::Checksum("zlib adler32"))
                } else {
                    Ok((out, end + 4))
                }
            },
        }
    }
}

// --- progress --------------------------------------------------------------------

pub proof fn lemma_block_advances(data: Seq<u8>, p: int, lit: Seq<u8>, dist: Seq<u8>, out: Seq<u8>)
    ensures
        block(data, p, lit, dist, out) matches Ok((o, q)) ==> p < q <= 8 * data.len(),
    decreases 8 * data.len() - p,
{
    lemma_decode_advances(lit, data, p, 1, 0);
    if let Ok((sym, q)) = decode(lit, data, p) {
        if sym < 256 {
            lemma_block_advances(data, q, lit, dist, out.push(sym as u8));
        } else if 257 <= sym <= 285 {
            lemma_read_match_advances(data, q, dist, sym);
            if let Ok((len, distance, q2)) = read_match(data, q, dist, sym) {
                if distance <= out.len() {
                    lemma_block_advances(data, q2, lit, dist, copy_back(out, distance as int, len));
                }
            }
        }
    }
}

pub proof fn lemma_code_lengths(data: Seq<u8>, p: int, clen: Seq<u8>, total: int, acc: Seq<u8>)
    requires
        acc.len() <= total,
    ensures
        code_lengths(data, p, clen, total, acc) matches Ok((all, q)) ==> p <= q && all.len() == total,
    decreases 8 * data.len() - p,
{
    lemma_decode_advances(clen, data, p, 1, 0);
    if acc.len() < total {
        if let Ok((next, q)) = lengths_step(data, p, clen, total, acc) {
            lemma_code_lengths(data, q, clen, total, next);
        }
    }
}

pub proof fn lemma_typed_block_advances(data: Seq<u8>, p: int, kind: nat, out: Seq<u8>)
    ensures
        typed_block(data, p, kind, out) matches Ok((o, q)) ==> p <= q <= 8 * data.len(),
{
    if kind == 1 {
        lemma_block_advances(data, p, fixed_lit(), fixed_dist(), out);
    } else if kind == 2 {
        if let Ok((lit, dist, q)) = dynamic(data, p) {
            let hlit = number(data, p, 5) + 257;
            let hdist = number(data, p + 5, 5) + 1;
            let hclen = number(data, p + 10, 4) + 4;
            lemma_code_lengths(
                data,
                p + 14 + 3 * hclen,
                clen_lengths(data, p + 14, hclen),
                (hlit + hdist) as int,
                Seq::empty(),
            );
            lemma_block_advances(data, q, lit, dist, out);
        }
    }
}

// --- the fixed codes ---------------------------------------------------------------

/// The symbols of the fixed literal code among the first `n`, by length.
proof fn lemma_fixed_prefix(n: int)
    requires
        0 <= n <= 288,
    ensures
        with_len(fixed_lit().take(n), 7) == Seq::new(
            (if n <= 256 { 0 } else if n <= 280 { n - 256 } else { 24 }) as nat,
            |k: int| 256 + k,
        ),
        with_len(fixed_lit().take(n), 8) == Seq::new(
            (if n <= 144 { n } else if n <= 280 { 144 } else { n - 136 }) as nat,
            |k: int| if k < 144 { k } else { 136 + k },
        ),
        with_len(fixed_lit().take(n), 9) == Seq::new(
            (if n <= 144 { 0 } else if n <= 256 { n - 144 } else { 112 }) as nat,
            |k: int| 144 + k,
        ),
        forall|l: int| l < 7 || l > 9 ==> #[trigger] with_len(fixed_lit().take(n), l) == Seq::<int>::empty(),
    decreases n,
{
    let cur = fixed_lit().take(n);
    if n > 0 {
        lemma_fixed_prefix(n - 1);
        assert(cur.drop_last() =~= fixed_lit().take(n - 1));
        assert(cur.last() == fixed_lit()[n - 1]);
    }
    assert forall|l: int| l < 7 || l > 9 implies #[trigger] with_len(cur, l) == Seq::<int>::empty() by {
        if n > 0 {
            assert(with_len(fixed_lit().take(n - 1), l) == Seq::<int>::empty());
        }
    }
    assert(with_len(cur, 7) =~= Seq::new(
        (if n <= 256 { 0 } else if n <= 280 { n - 256 } else { 24 }) as nat,
        |k: int| 256 + k,
    ));
    assert(with_len(cur, 8) =~= Seq::new(
        (if n <= 144 { n } else if n <= 280 { 144 } else { n - 136 }) as nat,
        |k: int| if k < 144 { k } else { 136 + k },
    ));
    assert(with_len(cur, 9) =~= Seq::new(
        (if n <= 144 { 0 } else if n <= 256 { n - 144 } else { 112 }) as nat,
        |k: int| 144 + k,
    ));
}

/// The codes of the fixed literal code.
pub proof fn lemma_fixed_lit()
    ensures
        with_len(fixed_lit(), 7) == Seq::new(24, |k: int| 256 + k),
        with_len(fixed_lit(), 8) == Seq::new(152, |k: int| if k < 144 { k } else { 136 + k }),
        with_len(fixed_lit(), 9) == Seq::new(112, |k: int| 144 + k),
        forall|l: nat| l < 7 ==> #[trigger] end_code(fixed_lit(), l) == 0,
        end_code(fixed_lit(), 7) == 24,
        end_code(fixed_lit(), 8) == 200,
        end_code(fixed_lit(), 9) == 512,
        code_error(fixed_lit()) is None,
{
    lemma_fixed_prefix(288);
    assert(fixed_lit().take(288) =~= fixed_lit());
    reveal_with_fuel(end_code, 16);
    vstd::arithmetic::power2::lemma2_to64();
    assert(end_code(fixed_lit(), 15) == 32768);
    assert forall|l: nat| 1 <= l <= 15 implies #[trigger] end_code(fixed_lit(), l) <= pow2(l) by {
        assert(l == 1 || l == 2 || l == 3 || l == 4 || l == 5 || l == 6 || l == 7 || l == 8 || l == 9
            || l == 10 || l == 11 || l == 12 || l == 13 || l == 14 || l == 15);
    }
}

/// The symbols of the fixed distance code among the first `n`.
proof fn lemma_fixed_dist_prefix(n: int)
    requires
        0 <= n <= 30,
    ensures
        with_len(fixed_dist().take(n), 5) == Seq::new(n as nat, |k: int| k),
        forall|l: int| l != 5 ==> #[trigger] with_len(fixed_dist().take(n), l) == Seq::<int>::empty(),
    decreases n,
{
    let cur = fixed_dist().take(n);
    if n > 0 {
        lemma_fixed_dist_prefix(n - 1);
        assert(cur.drop_last() =~= fixed_dist().take(n - 1));
    }
    assert forall|l: int| l != 5 implies #[trigger] with_len(cur, l) == Seq::<int>::empty() by {
        if n > 0 {
            assert(with_len(fixed_dist().take(n - 1), l) == Seq::<int>::empty());
        }
    }
    assert(with_len(cur, 5) =~= Seq::new(n as nat, |k: int| k));
}

/// The codes of the fixed distance code.
pub proof fn lemma_fixed_dist()
    ensures
        with_len(fixed_dist(), 5) == Seq::new(30, |k: int| k),
        forall|l: nat| l < 5 ==> #[trigger] end_code(fixed_dist(), l) == 0,
        end_code(fixed_dist(), 5) == 30,
        code_error(fixed_dist()) is None,
{
    lemma_fixed_dist_prefix(30);
    assert(fixed_dist().take(30) =~= fixed_dist());
    reveal_with_fuel(end_code, 16);
    vstd::arithmetic::power2::lemma2_to64();
    assert forall|l: nat| 1 <= l <= 15 implies #[trigger] end_code(fixed_dist(), l) <= pow2(l) by {
        assert(l == 1 || l == 2 || l == 3 || l == 4 || l == 5 || l == 6 || l == 7 || l == 8 || l == 9
            || l == 10 || l == 11 || l == 12 || l == 13 || l == 14 || l == 15);
    }
}

// --- decompressing -------------------------------------------------------------------

/// A decompressed zlib stream.
#[derive(Debug)]
pub struct Inflated {
    pub data: Vec<u8>,
    /// How many bytes of the input the stream takes up, its checksum included.
    pub consumed: usize,
}

impl View for Inflated {
    type V = (Seq<u8>, int);

    open spec fn view(&self) -> (Seq<u8>, int) {
        (self.data@, self.consumed as int)
    }
}

/// Decompresses the zlib stream at the start of `input`. `size_hint` is the size of the content
/// where it is known; it only guides the allocation.
pub fn inflate_zlib(input: &[u8], size_hint: Option<usize>) -> (r: Result<Inflated>)
    ensures
        agrees(r, inflated(input@)),
        r matches Ok(i) ==> i.consumed <= input@.len(),
{
    proof {
        reveal(inflated);
    }
    if input.len() < 2 {
        return Err(Error::UnexpectedEof);
    }
    let cmf = input[0];
    let flg = input[1];
    assert(cmf & 0x0f == cmf % 16) by (bit_vector);
    if cmf & 0x0f != 8 {
        return Err(Error::Unsupported("zlib compression method"));
    }
    if (cmf as u16 * 256 + flg as u16) % 31 != 0 {
        return Err(Error::Corrupt("zlib header check"));
    }
    assert((flg & 0x20 != 0) == ((flg / 32) % 2 != 0)) by (bit_vector);
    if flg & 0x20 != 0 {
        return Err(Error::Unsupported("zlib preset dictionary"));
    }
    let body = crate::bytes::from_index(input, 2);
    let mut br = BitReader::new(body);
    let data = inflate_raw(&mut br, size_hint)?;
    br.align_to_byte();
    proof {
        lemma_blocks_advances(body@, 0, Seq::empty());
    }
    let pos = 2 + br.pos;
    if input.len() - pos < 4 {
        return Err(Error::UnexpectedEof);
    }
    let sum = adler32(data.as_slice());
    let given = &input[pos..pos + 4];
    let expected = be32_bytes(sum);
    if !crate::bytes::same(given, expected.as_slice()) {
        return Err(Error::Checksum("zlib adler32"));
    }
    Ok(Inflated { data, consumed: pos + 4 })
}

/// The four bytes of a number, most significant first.
pub fn be32_bytes(x: u32) -> (r: [u8; 4])
    ensures
        r@ == be32(x),
{
    let r = [(x / 16777216) as u8, (x / 65536 % 256) as u8, (x / 256 % 256) as u8, (x % 256) as u8];
    assert(r@ =~= be32(x));
    r
}

pub proof fn lemma_blocks_advances(data: Seq<u8>, p: int, out: Seq<u8>)
    ensures
        blocks(data, p, out) matches Ok((o, q)) ==> p < q <= 8 * data.len(),
    decreases 8 * data.len() - p,
{
    lemma_typed_block_advances(data, p + 3, number(data, p + 1, 2), out);
    if p + 3 <= 8 * data.len() {
        if let Ok((next, q)) = typed_block(data, p + 3, number(data, p + 1, 2), out) {
            lemma_blocks_advances(data, q, next);
        }
    }
}

fn inflate_raw(br: &mut BitReader<'_>, size_hint: Option<usize>) -> (r: Result<Vec<u8>>)
    requires
        old(br).wf(),
    ensures
        final(br).data@ == old(br).data@,
        match blocks(old(br).data@, old(br).at(), Seq::empty()) {
            Ok((o, q)) => r matches Ok(v) && v@ == o && final(br).wf() && final(br).at() == q,
            Err(e) => r == Err::<Vec<u8>, Error>(e),
        },
{
    let hint: usize = match size_hint {
        Some(n) => if n < 1048576 {
            n
        } else {
            1048576
        },
        None => 0,
    };
    let mut out: Vec<u8> = Vec::with_capacity(hint);
    let ghost data = br.data@;
    let ghost start = br.at();
    loop
        invariant
            data == old(br).data@,
            start == old(br).at(),
            br.wf(),
            br.data@ == data,
            blocks(data, start, Seq::empty()) == blocks(data, br.at(), out@),
        decreases 8 * data.len() - br.at(),
    {
        let ghost p = br.at();
        let last = br.bits(1)?;
        let kind = br.bits(2)?;
        let ghost before = out@;
        proof {
            lemma_typed_block_advances(data, p + 3, kind as nat, before);
        }
        match kind {
            0 => inflate_stored(br, &mut out)?,
            1 => {
                let (lit, dist) = fixed_tables();
                inflate_block(br, &lit, &dist, &mut out, Ghost(fixed_lit()), Ghost(fixed_dist()))?;
            },
            2 => {
                let (lit, dist, lengths, hlit) = dynamic_tables(br)?;
                inflate_block(
                    br,
                    &lit,
                    &dist,
                    &mut out,
                    Ghost(lengths@.take(hlit as int)),
                    Ghost(lengths@.skip(hlit as int)),
                )?;
            },
            _ => return Err(Error::Corrupt("deflate block type")),
        }
        if last == 1 {
            return Ok(out);
        }
    }
}

fn inflate_stored(br: &mut BitReader<'_>, out: &mut Vec<u8>) -> (r: Result<()>)
    requires
        old(br).wf(),
    ensures
        final(br).data@ == old(br).data@,
        match stored(old(br).data@, old(br).at(), old(out)@) {
            Ok((o, q)) => r == Ok::<(), Error>(()) && final(out)@ == o && final(br).wf() && final(br).at() == q,
            Err(e) => r == Err::<(), Error>(e),
        },
{
    br.align_to_byte();
    let pos = br.pos;
    if br.data.len() - pos < 4 {
        return Err(Error::UnexpectedEof);
    }
    let len: usize = br.data[pos] as usize + 256 * br.data[pos + 1] as usize;
    let complement: usize = br.data[pos + 2] as usize + 256 * br.data[pos + 3] as usize;
    if len + complement != 65535 {
        return Err(Error::Corrupt("stored block length"));
    }
    if br.data.len() - pos - 4 < len {
        return Err(Error::UnexpectedEof);
    }
    let end = pos + 4 + len;
    let src = &br.data[pos + 4..end];
    let ghost before = out@;
    out.extend_from_slice(src);
    assert(out@ =~= before + src@);
    br.pos = end;
    Ok(())
}

fn fixed_tables() -> (r: (Huffman, Huffman))
    ensures
        r.0.decodes(fixed_lit()),
        r.1.decodes(fixed_dist()),
{
    let mut lit: Vec<u8> = Vec::new();
    let mut i: usize = 0;
    while i < 288
        invariant
            i <= 288,
            lit@ == fixed_lit().take(i as int),
        decreases 288 - i,
    {
        let len: u8 = if i < 144 {
            8
        } else if i < 256 {
            9
        } else if i < 280 {
            7
        } else {
            8
        };
        lit.push(len);
        assert(lit@ =~= fixed_lit().take(i + 1));
        i += 1;
    }
    let dist = [5u8; 30];
    proof {
        assert(lit@ =~= fixed_lit());
        assert(dist@ =~= fixed_dist());
        lemma_fixed_lit();
        lemma_fixed_dist();
    }
    match (Huffman::new(lit.as_slice()), Huffman::new(dist.as_slice())) {
        (Ok(a), Ok(b)) => (a, b),
        _ => {
            assert(false);
            unreached()
        },
    }
}

fn dynamic_tables(br: &mut BitReader<'_>) -> (r: Result<(Huffman, Huffman, Vec<u8>, usize)>)
    requires
        old(br).wf(),
    ensures
        final(br).data@ == old(br).data@,
        match dynamic(old(br).data@, old(br).at()) {
            Ok((lit, dist, q)) => r matches Ok((a, b, lengths, hlit)) && a.decodes(lit) && b.decodes(dist)
                && hlit <= lengths@.len() && lit == lengths@.take(hlit as int) && dist == lengths@.skip(
                hlit as int,
            ) && final(br).wf() && final(br).at() == q,
            Err(e) => r matches Err(f) && f == e,
        },
{
    let ghost data = br.data@;
    let ghost p = br.at();
    let hlit = br.bits(5)? as usize + 257;
    let hdist = br.bits(5)? as usize + 1;
    let hclen = br.bits(4)? as usize + 4;
    proof {
        vstd::arithmetic::power2::lemma2_to64();
        super::bits::lemma_number_bound(data, p, 5);
        super::bits::lemma_number_bound(data, p + 5, 5);
        super::bits::lemma_number_bound(data, p + 10, 4);
    }
    if hlit > 286 || hdist > 30 {
        return Err(Error::Corrupt("dynamic table size"));
    }
    let mut clen_arr = [0u8; 19];
    let mut j: usize = 0;
    assert(clen_arr@ =~= clen_lengths(data, p + 14, 0));
    while j < hclen
        invariant
            j <= hclen <= 19,
            data == old(br).data@,
            p == old(br).at(),
            br.wf(),
            br.data@ == data,
            br.at() == p + 14 + 3 * j,
            clen_arr@ == clen_lengths(data, p + 14, j as nat),
            hclen == number(data, p + 10, 4) + 4,
            hlit == number(data, p, 5) + 257,
            hdist == number(data, p + 5, 5) + 1,
            hlit <= 286,
            hdist <= 30,
            p + 14 <= 8 * data.len(),
        decreases hclen - j,
    {
        let v = br.bits(3)?;
        let idx = CLEN_ORDER[j];
        proof {
            vstd::arithmetic::power2::lemma2_to64();
            assert(idx < 19);
            assert(((j + 1) as nat - 1) as nat == j as nat);
        }
        clen_arr[idx] = v as u8;
        assert(clen_arr@ =~= clen_lengths(data, p + 14, (j + 1) as nat));
        j += 1;
    }
    let ghost clen_seq = clen_lengths(data, p + 14, hclen as nat);
    let clen = Huffman::new(clen_arr.as_slice())?;

    // The lengths of both codes follow each other.
    let total = hlit + hdist;
    let mut lengths: Vec<u8> = Vec::new();
    let ghost q0 = br.at();
    while lengths.len() < total
        invariant
            data == old(br).data@,
            br.wf(),
            br.data@ == data,
            clen.decodes(clen_seq),
            clen_seq.len() == 19,
            total <= 316,
            lengths@.len() <= total,
            code_lengths(data, q0, clen_seq, total as int, Seq::empty()) == code_lengths(
                data,
                br.at(),
                clen_seq,
                total as int,
                lengths@,
            ),
            dynamic(old(br).data@, old(br).at()) == after_lengths(
                code_lengths(data, q0, clen_seq, total as int, Seq::empty()),
                hlit as int,
                total as int,
            ),
        decreases 8 * data.len() - br.at(),
    {
        let ghost a = br.at();
        let ghost before = lengths@;
        proof {
            lemma_decode_advances(clen_seq, data, a, 1, 0);
        }
        let sym = clen.decode(br, Ghost(clen_seq))?;
        if sym <= 15 {
            lengths.push(sym as u8);
        } else {
            if sym == 16 && lengths.len() == 0 {
                return Err(Error::Corrupt("length repeat without previous"));
            }
            if sym > 18 {
                return Err(Error::Corrupt("code length symbol"));
            }
            let (bits, base, value): (u32, usize, u8) = if sym == 16 {
                (2, 3, lengths[lengths.len() - 1])
            } else if sym == 17 {
                (3, 3, 0)
            } else {
                (7, 11, 0)
            };
            let n = br.bits(bits)? as usize + base;
            repeat(&mut lengths, total, value, n)?;
        }
    }
    proof {
        lemma_code_lengths(data, q0, clen_seq, total as int, Seq::empty());
    }
    if lengths[256] == 0 {
        return Err(Error::Corrupt("missing end-of-block code"));
    }
    let lit_lengths = crate::bytes::up_to(lengths.as_slice(), hlit);
    let dist_lengths = crate::bytes::from_index(lengths.as_slice(), hlit);
    assert(dist_lengths@ =~= lengths@.subrange(hlit as int, total as int));
    let lit = Huffman::new(lit_lengths)?;
    let dist = Huffman::new(dist_lengths)?;
    Ok((lit, dist, lengths, hlit))
}

/// What becomes of the code lengths of a dynamic block.
spec fn after_lengths(all: Result<(Seq<u8>, int)>, hlit: int, total: int) -> Result<(Seq<u8>, Seq<u8>, int)> {
    match all {
        Err(e) => Err(e),
        Ok((all, q)) => {
            let lit = all.take(hlit);
            let dist = all.subrange(hlit, total);
            if all[256] == 0 {
                Err(Error::Corrupt("missing end-of-block code"))
            } else if code_error(lit) is Some {
                Err(code_error(lit)->0)
            } else if code_error(dist) is Some {
                Err(code_error(dist)->0)
            } else {
                Ok((lit, dist, q))
            }
        },
    }
}

fn repeat(lengths: &mut Vec<u8>, limit: usize, value: u8, n: usize) -> (r: Result<()>)
    requires
        old(lengths)@.len() <= limit,
    ensures
        match repeated(old(lengths)@, limit as int, value, n as nat) {
            Ok(next) => r == Ok::<(), Error>(()) && final(lengths)@ == next,
            Err(e) => r == Err::<(), Error>(e),
        },
{
    if n > limit - lengths.len() {
        return Err(Error::Corrupt("length repeat overflow"));
    }
    let ghost before = lengths@;
    let mut k: usize = 0;
    while k < n
        invariant
            k <= n,
            lengths@ == before + Seq::new(k as nat, |i: int| value),
        decreases n - k,
    {
        lengths.push(value);
        assert(lengths@ =~= before + Seq::new((k + 1) as nat, |i: int| value));
        k += 1;
    }
    Ok(())
}

fn inflate_block(
    br: &mut BitReader<'_>,
    lit: &Huffman,
    dist: &Huffman,
    out: &mut Vec<u8>,
    Ghost(lit_lengths): Ghost<Seq<u8>>,
    Ghost(dist_lengths): Ghost<Seq<u8>>,
) -> (r: Result<()>)
    requires
        old(br).wf(),
        lit.decodes(lit_lengths),
        dist.decodes(dist_lengths),
    ensures
        final(br).data@ == old(br).data@,
        match block(old(br).data@, old(br).at(), lit_lengths, dist_lengths, old(out)@) {
            Ok((o, q)) => r == Ok::<(), Error>(()) && final(out)@ == o && final(br).wf() && final(br).at() == q,
            Err(e) => r == Err::<(), Error>(e),
        },
{
    let ghost data = br.data@;
    let ghost start = br.at();
    let ghost prior = out@;
    loop
        invariant
            data == old(br).data@,
            start == old(br).at(),
            prior == old(out)@,
            br.wf(),
            br.data@ == data,
            lit.decodes(lit_lengths),
            dist.decodes(dist_lengths),
            block(data, start, lit_lengths, dist_lengths, prior) == block(
                data,
                br.at(),
                lit_lengths,
                dist_lengths,
                out@,
            ),
        decreases 8 * data.len() - br.at(),
    {
        let ghost a = br.at();
        proof {
            lemma_decode_advances(lit_lengths, data, a, 1, 0);
        }
        let sym = lit.decode(br, Ghost(lit_lengths))?;
        let ghost q = br.at();
        if sym < 256 {
            out.push(sym as u8);
        } else if sym == 256 {
            return Ok(());
        } else if sym <= 285 {
            proof {
                lemma_read_match_advances(data, q, dist_lengths, sym as int);
            }
            let idx = sym as usize - 257;
            assert(LEN_EXTRA[idx as int] <= 5);
            let len = LEN_BASE[idx] as usize + br.bits(LEN_EXTRA[idx] as u32)? as usize;
            let dsym = dist.decode(br, Ghost(dist_lengths))? as usize;
            if dsym >= 30 {
                return Err(Error::Corrupt("distance symbol"));
            }
            assert(DIST_EXTRA[dsym as int] <= 13);
            let distance = DIST_BASE[dsym] as usize + br.bits(DIST_EXTRA[dsym] as u32)? as usize;
            if distance > out.len() {
                return Err(Error::Corrupt("distance beyond output"));
            }
            assert(DIST_BASE[dsym as int] >= 1);
            // A copy may overlap what it writes, so it goes byte by byte.
            let ghost before = out@;
            let mut k: usize = 0;
            while k < len
                invariant
                    k <= len,
                    1 <= distance <= out@.len(),
                    copy_back(before, distance as int, len as nat) == copy_back(
                        out@,
                        distance as int,
                        (len - k) as nat,
                    ),
                decreases len - k,
            {
                let byte = out[out.len() - distance];
                out.push(byte);
                k += 1;
            }
        } else {
            return Err(Error::Corrupt("literal/length symbol"));
        }
    }
}

} // verus!
