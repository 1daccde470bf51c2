//! Decompressing what was compressed gives the data back.

use vstd::arithmetic::power2::{lemma2_to64, lemma_pow2_pos, lemma_pow2_unfold, pow2};
use vstd::prelude::*;

use super::adler::adler;
use super::bits::{bit, number, read};
use super::deflate::{
    code_bits, deflated, dist_index, fixed_stream, fixed_zlib, lemma_code_bits_len, lemma_dist_index,
    lemma_len_index, lemma_low_bits_len, lemma_match_at, len_index, lit_bits, low_bits, match_at,
    match_bits, packed, stored_blocks, stored_head, stored_zlib, symbols_from, value,
};
use super::huffman::{decode, decode_from, end_code, first_code, with_len};
use super::inflate::{
    be32, block, blocks, copy_back, fixed_dist, fixed_lit, inflated, lemma_fixed_dist, lemma_fixed_lit,
    read_match, DIST_BASE, DIST_EXTRA, LEN_BASE, LEN_EXTRA,
};

verus! {

/// The bits of `data` from `p` on start with `bits`.
pub open spec fn holds(data: Seq<u8>, p: int, bits: Seq<nat>) -> bool {
    &&& 0 <= p
    &&& p + bits.len() <= 8 * data.len()
    &&& forall|i: int| 0 <= i < bits.len() ==> bit(data, p + i) == #[trigger] bits[i]
}

pub proof fn lemma_holds_split(data: Seq<u8>, p: int, a: Seq<nat>, b: Seq<nat>)
    requires
        holds(data, p, a + b),
    ensures
        holds(data, p, a),
        holds(data, p + a.len(), b),
{
    assert forall|i: int| 0 <= i < a.len() implies bit(data, p + i) == #[trigger] a[i] by {
        assert((a + b)[i] == a[i]);
    }
    assert forall|i: int| 0 <= i < b.len() implies bit(data, p + a.len() + i) == #[trigger] b[i] by {
        assert((a + b)[a.len() + i] == b[i]);
    }
}

// --- numbers and codes -----------------------------------------------------------------

/// A number that was written is read.
pub proof fn lemma_read_low(data: Seq<u8>, p: int, x: nat, n: nat)
    requires
        holds(data, p, low_bits(x, n)),
        x < pow2(n),
    ensures
        read(data, p, n) == Ok::<_, crate::err::Error>((x, p + n)),
    decreases n,
{
    lemma2_to64();
    lemma_low_bits_len(x, n);
    if n > 0 {
        let rest = low_bits(x / 2, (n - 1) as nat);
        assert(low_bits(x, n) =~= seq![x % 2] + rest);
        lemma_holds_split(data, p, seq![x % 2], rest);
        lemma_pow2_unfold(n);
        assert(seq![x % 2][0] == x % 2);
        assert(bit(data, p + 0) == x % 2);
        lemma_read_low(data, p + 1, x / 2, (n - 1) as nat);
    }
}

/// No prefix of a code is a code.
proof fn lemma_prefix(lengths: Seq<u8>, x: nat, l: nat, m: nat)
    requires
        m < l,
        x >= first_code(lengths, l),
    ensures
        x / pow2((l - m) as nat) >= end_code(lengths, m),
    decreases l - m,
{
    lemma2_to64();
    if m + 1 < l {
        lemma_prefix(lengths, x, l, m + 1);
        let k = (l - m - 1) as nat;
        lemma_pow2_pos(k);
        lemma_pow2_unfold((l - m) as nat);
        vstd::arithmetic::div_mod::lemma_div_denominator(x as int, pow2(k) as int, 2);
        assert(pow2(k) * 2 == pow2((l - m) as nat));
        let y = x / pow2(k);
        assert(x / pow2((l - m) as nat) == y / 2);
        assert(end_code(lengths, m + 1) >= 2 * end_code(lengths, m));
    } else {
        assert((l - m) as nat == 1);
        assert(m == (l - 1) as nat);
    }
}

/// A code that was written is decoded.
pub proof fn lemma_decode_code(lengths: Seq<u8>, data: Seq<u8>, p: int, x: nat, total: nat, l: nat)
    requires
        1 <= l <= total <= 15,
        holds(data, p, code_bits(x, (total - l + 1) as nat)),
        first_code(lengths, total) <= x < end_code(lengths, total),
    ensures
        decode_from(lengths, data, p, l, x / pow2((total - l + 1) as nat)) == Ok::<
            _,
            crate::err::Error,
        >((with_len(lengths, total as int)[x - first_code(lengths, total)], p + (total - l + 1))),
    decreases total - l,
{
    lemma2_to64();
    let n = (total - l + 1) as nat;
    let h = (total - l) as nat;
    lemma_code_bits_len(x, n);
    let top = (x / pow2(h)) % 2;
    let rest = code_bits(x, h);
    assert(code_bits(x, n) =~= seq![top] + rest);
    lemma_holds_split(data, p, seq![top], rest);
    assert(seq![top][0] == top);
    assert(bit(data, p + 0) == top);
    lemma_pow2_pos(h);
    lemma_pow2_unfold(n);
    vstd::arithmetic::div_mod::lemma_div_denominator(x as int, pow2(h) as int, 2);
    assert(pow2(h) * 2 == pow2(n));
    let v = 2 * (x / pow2(n)) + bit(data, p);
    assert(v == x / pow2(h));
    if l == total {
        assert(x / 1 == x);
    } else {
        lemma_prefix(lengths, x, total, l);
        lemma_decode_code(lengths, data, p + 1, x, total, l + 1);
    }
}

/// A literal or length symbol that was written is decoded.
proof fn lemma_decode_lit(data: Seq<u8>, p: int, sym: int)
    requires
        0 <= sym <= 287,
        holds(data, p, lit_bits(sym)),
    ensures
        decode(fixed_lit(), data, p) == Ok::<_, crate::err::Error>((sym, p + lit_bits(sym).len())),
{
    lemma_fixed_lit();
    lemma2_to64();
    let lengths = fixed_lit();
    assert(end_code(lengths, 6) == 0);
    let (x, l): (int, int) = if sym <= 143 {
        (0x30 + sym, 8)
    } else if sym <= 255 {
        (0x190 + sym - 144, 9)
    } else if sym <= 279 {
        (sym - 256, 7)
    } else {
        (0xc0 + sym - 280, 8)
    };
    lemma_code_bits_len(x as nat, l as nat);
    assert(pow2(7) == 128 && pow2(8) == 256 && pow2(9) == 512);
    if l == 7 {
        assert(x / 128 == 0);
    } else if l == 8 {
        assert(x / 256 == 0);
    } else {
        assert(x / 512 == 0);
    }
    lemma_decode_code(lengths, data, p, x as nat, l as nat, 1);
}

/// A distance symbol that was written is decoded.
proof fn lemma_decode_dist(data: Seq<u8>, p: int, sym: int)
    requires
        0 <= sym < 30,
        holds(data, p, code_bits(sym as nat, 5)),
    ensures
        decode(fixed_dist(), data, p) == Ok::<_, crate::err::Error>((sym, p + 5)),
{
    lemma_fixed_dist();
    lemma2_to64();
    lemma_code_bits_len(sym as nat, 5);
    assert(end_code(fixed_dist(), 4) == 0);
    assert(sym / pow2(5) as int == 0);
    lemma_decode_code(fixed_dist(), data, p, sym as nat, 5, 1);
}

/// A match that was written is read.
proof fn lemma_match(data: Seq<u8>, p: int, len: nat, dist: nat)
    requires
        3 <= len <= 258,
        1 <= dist <= 32768,
        holds(data, p, match_bits(len, dist)),
    ensures
        decode(fixed_lit(), data, p) matches Ok((sym, q)) && 257 <= sym <= 285 && read_match(
            data,
            q,
            fixed_dist(),
            sym,
        ) == Ok::<_, crate::err::Error>((len, dist, p + match_bits(len, dist).len())),
{
    lemma_len_index(len);
    lemma_dist_index(dist);
    let li = len_index(len, 28);
    let di = dist_index(dist, 29);
    let a = lit_bits(257 + li);
    let b = low_bits((len - LEN_BASE[li]) as nat, LEN_EXTRA[li] as nat);
    let c = code_bits(di as nat, 5);
    let d = low_bits((dist - DIST_BASE[di]) as nat, DIST_EXTRA[di] as nat);
    lemma_low_bits_len((len - LEN_BASE[li]) as nat, LEN_EXTRA[li] as nat);
    lemma_low_bits_len((dist - DIST_BASE[di]) as nat, DIST_EXTRA[di] as nat);
    lemma_code_bits_len(di as nat, 5);
    lemma_holds_split(data, p, a + b + c, d);
    lemma_holds_split(data, p, a + b, c);
    lemma_holds_split(data, p, a, b);
    lemma_decode_lit(data, p, 257 + li);
    let q = p + a.len();
    lemma_read_low(data, q, (len - LEN_BASE[li]) as nat, LEN_EXTRA[li] as nat);
    lemma_decode_dist(data, q + b.len(), di);
    lemma_read_low(data, q + b.len() + 5, (dist - DIST_BASE[di]) as nat, DIST_EXTRA[di] as nat);
}

/// Copying back over equal data goes on with that data.
pub proof fn lemma_copy_back(d: Seq<u8>, pos: int, dist: int, n: nat)
    requires
        1 <= dist <= pos,
        pos + n <= d.len(),
        forall|k: int| 0 <= k < n ==> #[trigger] d[pos + k] == d[pos - dist + k],
    ensures
        copy_back(d.take(pos), dist, n) == d.take(pos + n),
    decreases n,
{
    if n > 0 {
        assert(d[pos + 0] == d[pos - dist + 0]);
        assert(d.take(pos).push(d.take(pos)[pos - dist]) =~= d.take(pos + 1));
        assert forall|k: int| 0 <= k < n - 1 implies #[trigger] d[pos + 1 + k] == d[pos + 1 - dist + k] by {
            assert(d[pos + (k + 1)] == d[pos - dist + (k + 1)]);
        }
        lemma_copy_back(d, pos + 1, dist, (n - 1) as nat);
    }
}

/// The symbols of the data decode to it.
proof fn lemma_block(data: Seq<u8>, p: int, d: Seq<u8>, pos: int)
    requires
        0 <= pos <= d.len(),
        holds(data, p, symbols_from(d, pos) + lit_bits(256)),
    ensures
        block(data, p, fixed_lit(), fixed_dist(), d.take(pos)) == Ok::<_, crate::err::Error>(
            (d, p + symbols_from(d, pos).len() + lit_bits(256).len()),
        ),
    decreases d.len() - pos,
{
    let end = lit_bits(256);
    if pos == d.len() {
        assert(symbols_from(d, pos) + end =~= end);
        lemma_decode_lit(data, p, 256);
        assert(d.take(pos) =~= d);
    } else {
        lemma_match_at(d, pos);
        match match_at(d, pos) {
            None => {
                let a = lit_bits(d[pos] as int);
                let rest = symbols_from(d, pos + 1);
                assert(symbols_from(d, pos) + end =~= a + (rest + end));
                lemma_holds_split(data, p, a, rest + end);
                lemma_decode_lit(data, p, d[pos] as int);
                lemma_block(data, p + a.len(), d, pos + 1);
                assert(d.take(pos).push(d[pos]) =~= d.take(pos + 1));
            },
            Some((len, dist)) => {
                let a = match_bits(len, dist);
                let rest = symbols_from(d, pos + len);
                assert(symbols_from(d, pos) + end =~= a + (rest + end));
                lemma_holds_split(data, p, a, rest + end);
                lemma_match(data, p, len, dist);
                lemma_copy_back(d, pos, dist as int, len);
                lemma_block(data, p + a.len(), d, pos + len);
            },
        }
    }
}

// --- packing -------------------------------------------------------------------------

/// The digits of the value of a run of bits are those bits.
proof fn lemma_value_digit(bits: Seq<nat>, p: int, n: nat, k: nat)
    requires
        k < n,
        0 <= p,
        digits(bits),
    ensures
        value(bits, p, n) < pow2(n),
        (value(bits, p, n) / pow2(k)) % 2 == (if p + k < bits.len() {
            bits[p + k]
        } else {
            0
        }),
    decreases n,
{
    lemma2_to64();
    lemma_pow2_unfold(n);
    let low = if p < bits.len() {
        bits[p]
    } else {
        0
    };
    let v = value(bits, p, n);
    let rest = value(bits, p + 1, (n - 1) as nat);
    assert(v == low + 2 * rest);
    if n > 1 {
        lemma_value_digit(bits, p + 1, (n - 1) as nat, if k > 0 {
            (k - 1) as nat
        } else {
            0
        });
    }
    if k > 0 {
        lemma_pow2_unfold(k);
        lemma_pow2_pos((k - 1) as nat);
        vstd::arithmetic::div_mod::lemma_div_denominator(v as int, 2, pow2((k - 1) as nat) as int);
        assert(v / 2 == rest);
    } else {
        assert(v / 1 == v);
    }
}

/// Packed bits are the bits of the bytes.
proof fn lemma_packed(bits: Seq<nat>, tail: Seq<u8>)
    requires
        digits(bits),
    ensures
        holds(packed(bits) + tail, 0, bits),
{
    let bytes = packed(bits) + tail;
    lemma2_to64();
    assert forall|i: int| 0 <= i < bits.len() implies bit(bytes, 0 + i) == #[trigger] bits[i] by {
        lemma_value_digit(bits, 8 * (i / 8), 8, (i % 8) as nat);
        assert(bytes[i / 8] == packed(bits)[i / 8]);
        assert(packed(bits)[i / 8] as nat == value(bits, 8 * (i / 8), 8));
    }
}

proof fn lemma_lit_bits(sym: int)
    requires
        0 <= sym,
    ensures
        digits(lit_bits(sym)),
{
    lemma_code_bits_len((0x30 + sym) as nat, 8);
    lemma_code_bits_len((0x190 + sym - 144) as nat, 9);
    lemma_code_bits_len((sym - 256) as nat, 7);
    lemma_code_bits_len((0xc0 + sym - 280) as nat, 8);
}

spec fn digits(bits: Seq<nat>) -> bool {
    forall|i: int| 0 <= i < bits.len() ==> #[trigger] bits[i] < 2
}

proof fn lemma_digits_concat(a: Seq<nat>, b: Seq<nat>)
    requires
        digits(a),
        digits(b),
    ensures
        digits(a + b),
{
    assert forall|i: int| 0 <= i < (a + b).len() implies #[trigger] (a + b)[i] < 2 by {
        if i < a.len() {
            assert(a[i] < 2);
        } else {
            assert(b[i - a.len()] < 2);
        }
    }
}

/// All symbols are made of binary digits.
proof fn lemma_symbols_digits(d: Seq<u8>, pos: int)
    requires
        0 <= pos,
    ensures
        digits(symbols_from(d, pos)),
    decreases d.len() - pos,
{
    if pos < d.len() {
        lemma_match_at(d, pos);
        match match_at(d, pos) {
            None => {
                lemma_lit_bits(d[pos] as int);
                lemma_symbols_digits(d, pos + 1);
                lemma_digits_concat(lit_bits(d[pos] as int), symbols_from(d, pos + 1));
            },
            Some((len, dist)) => {
                lemma_len_index(len);
                lemma_dist_index(dist);
                let li = len_index(len, 28);
                let di = dist_index(dist, 29);
                lemma_lit_bits(257 + li);
                lemma_low_bits_len((len - LEN_BASE[li]) as nat, LEN_EXTRA[li] as nat);
                lemma_low_bits_len((dist - DIST_BASE[di]) as nat, DIST_EXTRA[di] as nat);
                lemma_code_bits_len(di as nat, 5);
                lemma_symbols_digits(d, pos + len);
                let a = lit_bits(257 + li);
                let b = low_bits((len - LEN_BASE[li]) as nat, LEN_EXTRA[li] as nat);
                let c = code_bits(di as nat, 5);
                let e = low_bits((dist - DIST_BASE[di]) as nat, DIST_EXTRA[di] as nat);
                lemma_digits_concat(a, b);
                lemma_digits_concat(a + b, c);
                lemma_digits_concat(a + b + c, e);
                lemma_digits_concat(match_bits(len, dist), symbols_from(d, pos + len));
            },
        }
    }
}

// --- whole streams ---------------------------------------------------------------------

/// The end of a stream is found and its checksum agrees.
proof fn lemma_stream(body: Seq<u8>, d: Seq<u8>, p: int, tail: Seq<u8>)
    requires
        outcome(body + be32(adler(d)) + tail, 0, Seq::empty()) == Ok::<_, crate::err::Error>((d, p)),
        (p + 7) / 8 == body.len(),
    ensures
        inflated(seq![0x78u8, 0x01u8] + body + be32(adler(d)) + tail) == Ok::<_, crate::err::Error>(
            (d, body.len() as int + 6),
        ),
{
    reveal(inflated);
    reveal(outcome);
    let input = seq![0x78u8, 0x01u8] + body + be32(adler(d)) + tail;
    assert(input[0] == 0x78 && input[1] == 0x01);
    assert(input.skip(2) =~= body + be32(adler(d)) + tail);
    assert(input.subrange(2 + body.len() as int, 2 + body.len() as int + 4) =~= be32(adler(d)));
}

/// A last block of fixed codes is what its symbols give.
proof fn lemma_last_fixed_block(data: Seq<u8>, d: Seq<u8>, q: int)
    requires
        3 <= 8 * data.len(),
        read(data, 0, 1) == Ok::<_, crate::err::Error>((1nat, 1int)),
        read(data, 1, 2) == Ok::<_, crate::err::Error>((1nat, 3int)),
        block(data, 3, fixed_lit(), fixed_dist(), Seq::empty()) == Ok::<_, crate::err::Error>((d, q)),
    ensures
        outcome(data, 0, Seq::empty()) == Ok::<_, crate::err::Error>((d, q)),
{
    reveal(outcome);
}

/// The bits of a stream of fixed codes, taken apart.
proof fn lemma_fixed_bits(d: Seq<u8>, rest: Seq<u8>)
    ensures
        ({
            let data = packed(fixed_stream(d)) + rest;
            &&& holds(data, 0, low_bits(1, 1))
            &&& holds(data, 1, low_bits(1, 2))
            &&& holds(data, 3, symbols_from(d, 0) + lit_bits(256))
            &&& fixed_stream(d).len() == 3 + symbols_from(d, 0).len() + lit_bits(256).len()
        }),
{
    let bits = fixed_stream(d);
    let a = low_bits(1, 1);
    let b = low_bits(1, 2);
    let s = symbols_from(d, 0);
    let e = lit_bits(256);
    lemma_low_bits_len(1, 1);
    lemma_low_bits_len(1, 2);
    lemma_symbols_digits(d, 0);
    lemma_lit_bits(256);
    lemma_digits_concat(a, b);
    lemma_digits_concat(a + b, s);
    lemma_digits_concat(a + b + s, e);
    let data = packed(bits) + rest;
    lemma_packed(bits, rest);
    assert(bits =~= a + (b + (s + e)));
    lemma_holds_split(data, 0, a, b + (s + e));
    lemma_holds_split(data, 1, b, s + e);
}

/// The block of fixed codes decodes to the data.
proof fn lemma_fixed_body(d: Seq<u8>, rest: Seq<u8>)
    ensures
        outcome(packed(fixed_stream(d)) + rest, 0, Seq::empty()) == Ok::<_, crate::err::Error>(
            (d, fixed_stream(d).len() as int),
        ),
{
    let data = packed(fixed_stream(d)) + rest;
    lemma_fixed_bits(d, rest);
    assert(pow2(1) == 2 && pow2(2) == 4) by {
        lemma2_to64();
    }
    lemma_read_low(data, 0, 1, 1);
    lemma_read_low(data, 1, 1, 2);
    lemma_block(data, 3, d, 0);
    assert(d.take(0) =~= Seq::<u8>::empty());
    lemma_last_fixed_block(data, d, fixed_stream(d).len() as int);
}

proof fn lemma_fixed(d: Seq<u8>, tail: Seq<u8>)
    ensures
        inflated(fixed_zlib(d) + tail) == Ok::<_, crate::err::Error>((d, fixed_zlib(d).len() as int)),
{
    let body = packed(fixed_stream(d));
    let rest = be32(adler(d)) + tail;
    lemma_fixed_body(d, rest);
    assert(body + rest =~= body + be32(adler(d)) + tail);
    lemma_stream(body, d, fixed_stream(d).len() as int, tail);
    assert(fixed_zlib(d) + tail =~= seq![0x78u8, 0x01u8] + body + be32(adler(d)) + tail);
}

/// The head of a stored block is read.
proof fn lemma_stored_head_bits(data: Seq<u8>, a: int)
    requires
        0 <= a < data.len(),
        data[a] <= 1,
    ensures
        number(data, 8 * a, 1) == data[a],
        number(data, 8 * a + 1, 2) == 0,
{
    lemma2_to64();
    reveal_with_fuel(number, 3);
    assert((8 * a) / 8 == a && (8 * a) % 8 == 0);
    assert((8 * a + 1) / 8 == a && (8 * a + 1) % 8 == 1);
    assert((8 * a + 2) / 8 == a && (8 * a + 2) % 8 == 2);
    assert(data[a] / 1 == data[a] as int);
    assert(data[a] / 2 == 0);
    assert(data[a] / 4 == 0);
}

/// What the blocks from `p` on make of `out`.
#[verifier::opaque]
pub open spec fn outcome(data: Seq<u8>, p: int, out: Seq<u8>) -> crate::err::Result<(Seq<u8>, int)> {
    blocks(data, p, out)
}

/// A stored block gives its data back.
proof fn lemma_stored_block(data: Seq<u8>, a: int, last: bool, chunk: Seq<u8>, out: Seq<u8>)
    requires
        0 <= a,
        chunk.len() <= 65535,
        a + 5 + chunk.len() <= data.len(),
        data.subrange(a, a + 5) == stored_head(last, chunk.len() as int),
        data.subrange(a + 5, a + 5 + chunk.len()) == chunk,
    ensures
        outcome(data, 8 * a, out) == if last {
            Ok::<_, crate::err::Error>((out + chunk, 8 * (a + 5 + chunk.len())))
        } else {
            outcome(data, 8 * (a + 5 + chunk.len()), out + chunk)
        },
{
    reveal(outcome);
    let head = stored_head(last, chunk.len() as int);
    let given = data.subrange(a, a + 5);
    assert(data[a] == given[0] && data[a + 1] == given[1] && data[a + 2] == given[2] && data[a + 3] == given[3]
        && data[a + 4] == given[4]);
    lemma_stored_head_bits(data, a);
    assert((8 * a + 3 + 7) / 8 == a + 1);
    assert(data[a + 1] + 256 * data[a + 2] == chunk.len());
    assert(data[a + 1] + 256 * data[a + 2] + data[a + 3] + 256 * data[a + 4] == 65535);
    assert(super::inflate::stored(data, 8 * a + 3, out) == Ok::<_, crate::err::Error>(
        (out + chunk, 8 * (a + 5 + chunk.len())),
    ));
}

/// Stored blocks give their data back.
proof fn lemma_stored_blocks(data: Seq<u8>, a: int, d: Seq<u8>, out: Seq<u8>)
    requires
        0 <= a,
        a + stored_blocks(d).len() <= data.len(),
        data.subrange(a, a + stored_blocks(d).len()) == stored_blocks(d),
    ensures
        outcome(data, 8 * a, out) == Ok::<_, crate::err::Error>(
            (out + d, 8 * (a + stored_blocks(d).len())),
        ),
    decreases d.len(),
{
    let all = stored_blocks(d);
    let last = d.len() <= 65535;
    let chunk = if last {
        d
    } else {
        d.take(65535)
    };
    let n = chunk.len() as int;
    let head = stored_head(last, n);
    let rest: Seq<u8> = if last {
        Seq::empty()
    } else {
        stored_blocks(d.skip(65535))
    };
    assert(all =~= head + chunk + rest);
    let whole = data.subrange(a, a + all.len());
    assert(data.subrange(a, a + 5) =~= whole.subrange(0, 5));
    assert(whole.subrange(0, 5) =~= head);
    assert(data.subrange(a + 5, a + 5 + n) =~= whole.subrange(5, 5 + n));
    assert(whole.subrange(5, 5 + n) =~= chunk);
    lemma_stored_block(data, a, last, chunk, out);
    if !last {
        let b = a + 5 + n;
        assert(data.subrange(b, b + rest.len()) =~= whole.subrange(5 + n, 5 + n + rest.len()));
        assert(whole.subrange(5 + n, 5 + n + rest.len()) =~= rest);
        lemma_stored_blocks(data, b, d.skip(65535), out + chunk);
        assert(out + chunk + d.skip(65535) =~= out + d);
    }
}

proof fn lemma_stored_body(d: Seq<u8>, rest: Seq<u8>)
    ensures
        outcome(stored_blocks(d) + rest, 0, Seq::empty()) == Ok::<_, crate::err::Error>(
            (d, 8 * stored_blocks(d).len() as int),
        ),
{
    let body = stored_blocks(d);
    assert((body + rest).subrange(0, body.len() as int) =~= body);
    lemma_stored_blocks(body + rest, 0, d, Seq::empty());
    assert(Seq::<u8>::empty() + d =~= d);
}

/// Decompressing a stream of stored blocks gives back the data, whatever follows the stream.
pub proof fn inflate_undoes_stored(data: Seq<u8>, tail: Seq<u8>)
    ensures
        inflated(stored_zlib(data) + tail) == Ok::<_, crate::err::Error>(
            (data, stored_zlib(data).len() as int),
        ),
{
    let body = stored_blocks(data);
    let rest = be32(adler(data)) + tail;
    lemma_stored_body(data, rest);
    assert(body + rest =~= body + be32(adler(data)) + tail);
    let p = 8 * body.len() as int;
    assert((p + 7) / 8 == body.len());
    lemma_stream(body, data, p, tail);
    assert(stored_zlib(data) + tail =~= seq![0x78u8, 0x01u8] + body + be32(adler(data)) + tail);
}

/// Decompressing what was compressed gives back the data and takes up the whole stream, whatever
/// follows it.
pub proof fn inflate_undoes_deflate(data: Seq<u8>, tail: Seq<u8>)
    ensures
        inflated(deflated(data) + tail) == Ok::<_, crate::err::Error>(
            (data, deflated(data).len() as int),
        ),
{
    reveal(deflated);
    lemma_fixed(data, tail);
    inflate_undoes_stored(data, tail);
}

/// Compressing never makes a stream longer than storing does.
pub proof fn deflate_is_no_longer_than_stored(data: Seq<u8>)
    ensures
        deflated(data).len() <= stored_zlib(data).len(),
{
    reveal(deflated);
}

} // verus!
