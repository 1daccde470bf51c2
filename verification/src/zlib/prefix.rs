//! The start of a stream gives what the whole gives, or ends too early.

use vstd::prelude::*;

use super::bits::{bit, number, read};
use super::huffman::{decode, decode_from, lemma_decode_advances};
use super::inflate::{
    block, blocks, clen_lengths, code_lengths, copy_back, dynamic, fixed_dist, fixed_lit, inflated,
    lemma_blocks_advances, lemma_read_match_advances, lemma_typed_block_advances, lengths_step, read_match,
    stored, typed_block, DIST_EXTRA, LEN_EXTRA,
};
use crate::err::{Error, Result};

verus! {

/// What the first bytes give: the same as all of them, unless they end too early.
pub open spec fn same_or_short<T>(short: Result<T>, whole: Result<T>) -> bool {
    short == whole || short == Err::<T, _>(Error::UnexpectedEof)
}

proof fn lemma_number(data: Seq<u8>, k: int, p: int, n: nat)
    requires
        0 <= k <= data.len(),
        0 <= p,
        p + n <= 8 * k,
    ensures
        number(data.take(k), p, n) == number(data, p, n),
    decreases n,
{
    if n > 0 {
        assert(data.take(k)[p / 8] == data[p / 8]);
        lemma_number(data, k, p + 1, (n - 1) as nat);
    }
}

proof fn lemma_read(data: Seq<u8>, k: int, p: int, n: nat)
    requires
        0 <= k <= data.len(),
        0 <= p,
    ensures
        same_or_short(read(data.take(k), p, n), read(data, p, n)),
{
    if p + n <= 8 * k {
        lemma_number(data, k, p, n);
    }
}

proof fn lemma_decode_from(lengths: Seq<u8>, data: Seq<u8>, k: int, p: int, l: nat, code: nat)
    requires
        0 <= k <= data.len(),
        0 <= p,
    ensures
        same_or_short(
            decode_from(lengths, data.take(k), p, l, code),
            decode_from(lengths, data, p, l, code),
        ),
    decreases 16 - l,
{
    if l <= 15 && p < 8 * k {
        assert(data.take(k)[p / 8] == data[p / 8]);
        lemma_decode_from(lengths, data, k, p + 1, l + 1, 2 * code + bit(data, p));
    }
}

proof fn lemma_decode(lengths: Seq<u8>, data: Seq<u8>, k: int, p: int)
    requires
        0 <= k <= data.len(),
        0 <= p,
    ensures
        same_or_short(decode(lengths, data.take(k), p), decode(lengths, data, p)),
        decode(lengths, data, p) matches Ok((s, q)) ==> p < q,
{
    lemma_decode_from(lengths, data, k, p, 1, 0);
    lemma_decode_advances(lengths, data, p, 1, 0);
}

proof fn lemma_read_match(data: Seq<u8>, k: int, p: int, dist: Seq<u8>, sym: int)
    requires
        0 <= k <= data.len(),
        0 <= p,
        257 <= sym <= 285,
    ensures
        same_or_short(read_match(data.take(k), p, dist, sym), read_match(data, p, dist, sym)),
{
    lemma_read(data, k, p, LEN_EXTRA[sym - 257] as nat);
    if let Ok((extra, q)) = read(data, p, LEN_EXTRA[sym - 257] as nat) {
        lemma_decode(dist, data, k, q);
        if let Ok((dsym, q2)) = decode(dist, data, q) {
            lemma_read(data, k, q2, DIST_EXTRA[dsym] as nat);
        }
    }
}

proof fn lemma_block(data: Seq<u8>, k: int, p: int, lit: Seq<u8>, dist: Seq<u8>, out: Seq<u8>)
    requires
        0 <= k <= data.len(),
        0 <= p,
    ensures
        same_or_short(block(data.take(k), p, lit, dist, out), block(data, p, lit, dist, out)),
    decreases 8 * data.len() - p,
{
    lemma_decode(lit, data, k, p);
    lemma_decode_advances(lit, data, p, 1, 0);
    if let Ok((sym, q)) = decode(lit, data, p) {
        if sym < 256 {
            lemma_block(data, k, q, lit, dist, out.push(sym as u8));
        } else if 257 <= sym <= 285 {
            lemma_read_match(data, k, q, dist, sym);
            lemma_read_match_advances(data, q, dist, sym);
            if let Ok((len, distance, q2)) = read_match(data, q, dist, sym) {
                if distance <= out.len() {
                    lemma_block(data, k, q2, lit, dist, copy_back(out, distance as int, len));
                }
            }
        }
    }
}

proof fn lemma_stored(data: Seq<u8>, k: int, p: int, out: Seq<u8>)
    requires
        0 <= k <= data.len(),
        0 <= p,
    ensures
        same_or_short(stored(data.take(k), p, out), stored(data, p, out)),
{
    let a = (p + 7) / 8;
    let short = data.take(k);
    if a + 4 <= k {
        assert(forall|i: int| 0 <= i < k ==> short[i] == data[i]);
        let len = data[a] + 256 * data[a + 1];
        if a + 4 + len <= k {
            assert(short.subrange(a + 4, a + 4 + len) =~= data.subrange(a + 4, a + 4 + len));
        }
    }
}

proof fn lemma_clen_lengths(data: Seq<u8>, k: int, p: int, n: nat)
    requires
        0 <= k <= data.len(),
        0 <= p,
        p + 3 * n <= 8 * k,
    ensures
        clen_lengths(data.take(k), p, n) == clen_lengths(data, p, n),
    decreases n,
{
    if n > 0 {
        lemma_clen_lengths(data, k, p, (n - 1) as nat);
        lemma_number(data, k, p + 3 * (n - 1), 3);
    }
}

proof fn lemma_lengths_step(data: Seq<u8>, k: int, p: int, clen: Seq<u8>, total: int, acc: Seq<u8>)
    requires
        0 <= k <= data.len(),
        0 <= p,
    ensures
        same_or_short(
            lengths_step(data.take(k), p, clen, total, acc),
            lengths_step(data, p, clen, total, acc),
        ),
        lengths_step(data, p, clen, total, acc) matches Ok((next, q)) ==> p < q <= 8 * data.len(),
{
    lemma_decode(clen, data, k, p);
    lemma_decode_advances(clen, data, p, 1, 0);
    if let Ok((sym, q)) = decode(clen, data, p) {
        lemma_read(data, k, q, 2);
        lemma_read(data, k, q, 3);
        lemma_read(data, k, q, 7);
    }
}

proof fn lemma_code_lengths(data: Seq<u8>, k: int, p: int, clen: Seq<u8>, total: int, acc: Seq<u8>)
    requires
        0 <= k <= data.len(),
        0 <= p,
    ensures
        same_or_short(
            code_lengths(data.take(k), p, clen, total, acc),
            code_lengths(data, p, clen, total, acc),
        ),
        code_lengths(data, p, clen, total, acc) matches Ok((all, q)) ==> p <= q,
    decreases 8 * data.len() - p,
{
    if acc.len() < total {
        lemma_lengths_step(data, k, p, clen, total, acc);
        if let Ok((next, q)) = lengths_step(data, p, clen, total, acc) {
            lemma_code_lengths(data, k, q, clen, total, next);
        }
    }
}

proof fn lemma_dynamic(data: Seq<u8>, k: int, p: int)
    requires
        0 <= k <= data.len(),
        0 <= p,
    ensures
        same_or_short(dynamic(data.take(k), p), dynamic(data, p)),
        dynamic(data, p) matches Ok((lit, dist, q)) ==> p <= q,
{
    let hlit = number(data, p, 5) + 257;
    let hdist = number(data, p + 5, 5) + 1;
    let hclen = number(data, p + 10, 4) + 4;
    let q = p + 14 + 3 * hclen;
    let clen = clen_lengths(data, p + 14, hclen);
    lemma_code_lengths(data, k, q, clen, (hlit + hdist) as int, Seq::empty());
    if p + 14 <= 8 * k {
        lemma_number(data, k, p, 5);
        lemma_number(data, k, p + 5, 5);
        lemma_number(data, k, p + 10, 4);
        if q <= 8 * k {
            lemma_clen_lengths(data, k, p + 14, hclen);
        }
    }
}

proof fn lemma_typed_block(data: Seq<u8>, k: int, p: int, kind: nat, out: Seq<u8>)
    requires
        0 <= k <= data.len(),
        0 <= p,
    ensures
        same_or_short(typed_block(data.take(k), p, kind, out), typed_block(data, p, kind, out)),
{
    if kind == 0 {
        lemma_stored(data, k, p, out);
    } else if kind == 1 {
        lemma_block(data, k, p, fixed_lit(), fixed_dist(), out);
    } else if kind == 2 {
        lemma_dynamic(data, k, p);
        if let Ok((lit, dist, q)) = dynamic(data, p) {
            lemma_block(data, k, q, lit, dist, out);
        }
    }
}

proof fn lemma_blocks(data: Seq<u8>, k: int, p: int, out: Seq<u8>)
    requires
        0 <= k <= data.len(),
        0 <= p,
    ensures
        same_or_short(blocks(data.take(k), p, out), blocks(data, p, out)),
    decreases 8 * data.len() - p,
{
    if p + 3 <= 8 * k {
        lemma_number(data, k, p, 1);
        lemma_number(data, k, p + 1, 2);
        let kind = number(data, p + 1, 2);
        lemma_typed_block(data, k, p + 3, kind, out);
        lemma_typed_block_advances(data, p + 3, kind, out);
        if let Ok((next, q)) = typed_block(data, p + 3, kind, out) {
            lemma_blocks(data, k, q, next);
        }
    }
}

/// A stream takes up no more bytes than there are.
pub proof fn lemma_inflated_len(input: Seq<u8>)
    ensures
        inflated(input) matches Ok((data, n)) ==> 6 <= n <= input.len(),
{
    reveal(inflated);
    lemma_blocks_advances(input.skip(2), 0, Seq::empty());
}

/// The first `k` bytes of an input are decompressed as the whole input is, with the same error where
/// there is one, or they end too early.
pub proof fn prefix_is_the_same_or_ends_early(input: Seq<u8>, k: int)
    requires
        0 <= k <= input.len(),
    ensures
        same_or_short(inflated(input.take(k)), inflated(input)),
{
    reveal(inflated);
    let short = input.take(k);
    if k >= 2 {
        assert(short[0] == input[0] && short[1] == input[1]);
        assert(short.skip(2) =~= input.skip(2).take(k - 2));
        lemma_blocks(input.skip(2), k - 2, 0, Seq::empty());
        lemma_blocks_advances(input.skip(2), 0, Seq::empty());
        if let Ok((out, p)) = blocks(input.skip(2), 0, Seq::empty()) {
            let end = 2 + (p + 7) / 8;
            if end + 4 <= k {
                assert(short.subrange(end, end + 4) =~= input.subrange(end, end + 4));
            }
        }
    }
}

/// What follows a stream changes neither its data nor how many bytes it takes up.
pub proof fn trailing_bytes_are_ignored(input: Seq<u8>, tail: Seq<u8>)
    requires
        inflated(input) is Ok,
    ensures
        inflated(input + tail) == inflated(input),
        inflated(input) matches Ok((data, n)) && n <= input.len(),
{
    prefix_is_the_same_or_ends_early(input + tail, input.len() as int);
    assert((input + tail).take(input.len() as int) =~= input);
    lemma_inflated_len(input);
}

/// A stream that was cut off anywhere ends too early.
pub proof fn truncated_streams_end_early(input: Seq<u8>, k: int)
    requires
        inflated(input) matches Ok((data, n)) && 0 <= k < n,
    ensures
        inflated(input.take(k)) == Err::<(Seq<u8>, int), _>(Error::UnexpectedEof),
{
    lemma_inflated_len(input);
    prefix_is_the_same_or_ends_early(input, k);
    lemma_inflated_len(input.take(k));
}

} // verus!
