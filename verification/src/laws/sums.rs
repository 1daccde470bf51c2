//! Checksums as sums and chains over the whole of what they are taken of.

use vstd::prelude::*;

use crate::bytes::{decimal, lemma_lit, lit};
use crate::object::{object_id, Kind};
use crate::pack::laws::index_is_in_order;
use crate::pack::{be32_at, parsed};
use crate::sha1::{after_blocks, compressed, padded, sha1, word_bytes, State};
use crate::zlib::adler::{adler, adler_sums};
use crate::zlib::inflate::{be32, inflated};
use crate::zlib::prefix::lemma_inflated_len;

use super::objects::kind_text;

verus! {

// --- adler32 ----------------------------------------------------------------------------------------

/// The sum of the bytes.
pub open spec fn total(data: Seq<u8>) -> nat
    decreases data.len(),
{
    if data.len() == 0 {
        0
    } else {
        data[0] as nat + total(data.skip(1))
    }
}

/// The sum of the bytes, the last one taken once, the one before it twice, and so on.
pub open spec fn weighted(data: Seq<u8>) -> nat
    decreases data.len(),
{
    if data.len() == 0 {
        0
    } else {
        data.len() * data[0] as nat + weighted(data.skip(1))
    }
}

proof fn lemma_one_more_byte(data: Seq<u8>, b: u8)
    ensures
        total(data.push(b)) == total(data) + b,
        weighted(data.push(b)) == weighted(data) + total(data) + b,
    decreases data.len(),
{
    let all = data.push(b);
    if data.len() == 0 {
        assert(all.skip(1) =~= Seq::<u8>::empty());
        assert(total(all.skip(1)) == 0);
        assert(weighted(all.skip(1)) == 0);
        let (n, d) = (all.len() as int, b as int);
        assert(n * d == d) by (nonlinear_arith)
            requires
                n == 1,
        ;
    } else {
        let rest = data.skip(1);
        assert(all.skip(1) =~= rest.push(b));
        lemma_one_more_byte(rest, b);
        let n = data.len() as int;
        let d = data[0] as int;
        assert((n + 1) * d == n * d + d) by (nonlinear_arith);
        assert(all.len() * all[0] as nat == (n + 1) * d);
    }
}

proof fn lemma_sums(data: Seq<u8>)
    ensures
        adler_sums(data).0 == 1 + total(data),
        adler_sums(data).1 == data.len() + weighted(data),
    decreases data.len(),
{
    if data.len() > 0 {
        let front = data.drop_last();
        lemma_sums(front);
        lemma_one_more_byte(front, data.last());
        assert(front.push(data.last()) =~= data);
    }
}

/// The lower half of an adler32 checksum is one more than the sum of the bytes, the upper half is the
/// sum of all values that this went through, both modulo 65521.
pub proof fn adler_counts_every_byte(data: Seq<u8>)
    ensures
        adler(data) as nat % 65536 == (1 + total(data)) % 65521,
        adler(data) as nat / 65536 == (data.len() + weighted(data)) % 65521,
{
    lemma_sums(data);
}

// --- SHA-1 ------------------------------------------------------------------------------------------

/// The number that bytes stand for, the most significant first.
pub open spec fn big_endian(bytes: Seq<u8>) -> nat
    decreases bytes.len(),
{
    if bytes.len() == 0 {
        0
    } else {
        256 * big_endian(bytes.drop_last()) + bytes.last() as nat
    }
}

proof fn lemma_word(x: u32)
    ensures
        word_bytes(x).len() == 4,
        big_endian(word_bytes(x)) == x,
{
    let s = word_bytes(x);
    let (s3, s2, s1) = (s.drop_last(), s.drop_last().drop_last(), s.drop_last().drop_last().drop_last());
    assert(s1.drop_last() =~= Seq::<u8>::empty());
    assert(big_endian(s1.drop_last()) == 0);
    assert(big_endian(s1) == x / 0x100_0000);
    assert(big_endian(s2) == x / 0x1_0000);
    assert(big_endian(s3) == x / 0x100);
}

proof fn lemma_two_words(x: u32, y: u32)
    ensures
        big_endian(word_bytes(x) + word_bytes(y)) == x * 0x1_0000_0000 + y,
{
    let a = word_bytes(x);
    let b = word_bytes(y);
    lemma_word(x);
    let s = a + b;
    let (t3, t2, t1, t0) = (
        s.drop_last(),
        s.drop_last().drop_last(),
        s.drop_last().drop_last().drop_last(),
        s.drop_last().drop_last().drop_last().drop_last(),
    );
    assert(t0 =~= a);
    assert(t1.last() == b[0] && t2.last() == b[1] && t3.last() == b[2] && s.last() == b[3]);
    assert(big_endian(t1) == 256 * x + y / 0x100_0000);
    assert(big_endian(t2) == 65536 * x + y / 0x1_0000);
    assert(big_endian(t3) == 16777216 * x + y / 0x100);
}

/// How many zeros fill up a message of `n` bytes.
proof fn lemma_zeros(n: int)
    requires
        n >= 0,
    ensures
        0 <= (119 - n % 64) % 64 < 64,
        (n + 1 + (119 - n % 64) % 64 + 8) % 64 == 0,
{
}

/// The length of a message in two words.
proof fn lemma_length_words(n: int)
    requires
        n >= 0,
    ensures
        ({
            let bits = (8 * n) % 0x1_0000_0000_0000_0000;
            big_endian(
                word_bytes((bits / 0x1_0000_0000) as u32) + word_bytes((bits % 0x1_0000_0000) as u32),
            ) == bits
        }),
{
    let bits = (8 * n) % 0x1_0000_0000_0000_0000;
    assert(0 <= bits < 0x1_0000_0000_0000_0000);
    let (x, y) = ((bits / 0x1_0000_0000) as u32, (bits % 0x1_0000_0000) as u32);
    lemma_two_words(x, y);
    assert(x == bits / 0x1_0000_0000);
    assert(y == bits % 0x1_0000_0000);
    assert(bits == (bits / 0x1_0000_0000) * 0x1_0000_0000 + bits % 0x1_0000_0000);
}

/// Parts one after the other: what is filled up, one byte, zeros and the length.
proof fn lemma_filled(m: Seq<u8>, zeros: nat, x: Seq<u8>, y: Seq<u8>)
    requires
        x.len() == 4,
        y.len() == 4,
    ensures
        ({
            let whole = m + seq![0x80u8] + Seq::new(zeros, |i: int| 0u8) + x + y;
            let n = m.len() as int;
            &&& whole.len() == n + 1 + zeros + 8
            &&& whole.take(n) == m
            &&& whole[n] == 128
            &&& forall|i: int| n < i < whole.len() - 8 ==> #[trigger] whole[i] == 0
            &&& whole.skip(whole.len() - 8) == x + y
        }),
{
    let whole = m + seq![0x80u8] + Seq::new(zeros, |i: int| 0u8) + x + y;
    assert(whole.take(m.len() as int) =~= m);
    assert(whole.skip(whole.len() - 8) =~= x + y);
}

/// A message is filled up to whole blocks with a one bit, as few zeros as possible, and its length in
/// bits in the last eight bytes.
pub proof fn messages_are_filled_up(message: Seq<u8>)
    ensures
        ({
            let whole = padded(message);
            let n = message.len() as int;
            &&& whole.len() % 64 == 0
            &&& n + 9 <= whole.len() < n + 9 + 64
            &&& whole.take(n) == message
            &&& whole[n] == 128
            &&& forall|i: int| n < i < whole.len() - 8 ==> #[trigger] whole[i] == 0
            &&& big_endian(whole.skip(whole.len() - 8)) == (8 * n) % 0x1_0000_0000_0000_0000
        }),
{
    let n = message.len() as int;
    let bits = (8 * n) % 0x1_0000_0000_0000_0000;
    let (x, y) = ((bits / 0x1_0000_0000) as u32, (bits % 0x1_0000_0000) as u32);
    lemma_word(x);
    lemma_word(y);
    lemma_zeros(n);
    lemma_length_words(n);
    lemma_filled(message, ((119 - message.len() % 64) % 64) as nat, word_bytes(x), word_bytes(y));
}

/// The state after all blocks, the last one taken in at the end.
pub open spec fn chained(blocks: Seq<u8>) -> State
    decreases blocks.len(),
{
    if blocks.len() < 64 {
        (0x6745_2301, 0xefcd_ab89, 0x98ba_dcfe, 0x1032_5476, 0xc3d2_e1f0)
    } else {
        compressed(chained(blocks.take(blocks.len() - 64)), blocks.skip(blocks.len() - 64))
    }
}

proof fn lemma_chained(whole: Seq<u8>, n: nat)
    requires
        64 * n <= whole.len(),
    ensures
        after_blocks(whole, n) == chained(whole.take(64 * n as int)),
    decreases n,
{
    let part = whole.take(64 * n as int);
    if n > 0 {
        lemma_chained(whole, (n - 1) as nat);
        assert(part.take(part.len() - 64) =~= whole.take(64 * (n - 1)));
        assert(part.skip(part.len() - 64) =~= whole.subrange(64 * (n - 1), 64 * n as int));
    }
}

/// A digest is the state after all blocks of the message that was filled up, however long it is.
pub proof fn digests_go_over_all_blocks(message: Seq<u8>)
    ensures
        ({
            let (a, b, c, d, e) = chained(padded(message));
            sha1(message) == word_bytes(a) + word_bytes(b) + word_bytes(c) + word_bytes(d) + word_bytes(e)
        }),
{
    let whole = padded(message);
    messages_are_filled_up(message);
    lemma_chained(whole, whole.len() / 64);
    assert(whole.take(64 * (whole.len() / 64) as int) =~= whole);
    reveal(sha1);
}

// --- what is checked ------------------------------------------------------------------------------------

proof fn lemma_four_bytes(x: u32)
    ensures
        be32(x).len() == 4,
        big_endian(be32(x)) == x,
{
    lemma_word(x);
    assert(be32(x) =~= word_bytes(x));
}

/// A compressed stream that is accepted names its method, has a head whose number is a multiple of 31
/// and asks for no dictionary; its last four bytes are the checksum of what it holds, the most
/// significant first.
pub proof fn accepted_streams_carry_their_checksum(input: Seq<u8>)
    requires
        inflated(input) is Ok,
    ensures
        inflated(input) matches Ok((data, n)) && {
            &&& 6 <= n <= input.len()
            &&& input[0] % 16 == 8
            &&& (input[0] * 256 + input[1]) % 31 == 0
            &&& input[1] / 32 % 2 == 0
            &&& big_endian(input.subrange(n - 4, n)) == adler(data)
        },
{
    lemma_inflated_len(input);
    reveal(inflated);
    let (data, n) = inflated(input)->Ok_0;
    lemma_four_bytes(adler(data));
    assert(input.subrange(n - 4, n) =~= be32(adler(data)));
}

/// A pack that is accepted starts with its name and the number 2, and ends with the digest of all
/// bytes before.
pub proof fn accepted_packs_carry_their_digest(data: Seq<u8>, cache_bytes: nat)
    requires
        parsed(data, cache_bytes) is Ok,
    ensures
        32 <= data.len() <= u32::MAX,
        data.take(4) == seq![80u8, 65u8, 67u8, 75u8],
        big_endian(data.subrange(4, 8)) == 2,
        data.skip(data.len() - 20) == sha1(data.take(data.len() - 20)),
        parsed(data, cache_bytes)->Ok_0.len() == big_endian(data.subrange(8, 12)),
{
    reveal_strlit("PACK");
    lemma_lit("PACK");
    assert(lit("PACK") =~= seq![80u8, 65u8, 67u8, 75u8]);
    lemma_number_at(data, 4);
    lemma_number_at(data, 8);
    index_is_in_order(data, cache_bytes);
}

proof fn lemma_number_at(data: Seq<u8>, p: int)
    requires
        0 <= p,
        p + 4 <= data.len(),
    ensures
        big_endian(data.subrange(p, p + 4)) == be32_at(data, p),
{
    let s = data.subrange(p, p + 4);
    let (s3, s2, s1) = (s.drop_last(), s.drop_last().drop_last(), s.drop_last().drop_last().drop_last());
    assert(s1.drop_last() =~= Seq::<u8>::empty());
    assert(big_endian(s1.drop_last()) == 0);
    assert(big_endian(s1) == data[p]);
    assert(big_endian(s2) == 256 * data[p] + data[p + 1]);
    assert(big_endian(s3) == 65536 * data[p] + 256 * data[p + 1] + data[p + 2]);
}

// --- ids ------------------------------------------------------------------------------------------------

/// The number that decimal digits stand for.
pub open spec fn tens(digits: Seq<u8>) -> nat
    decreases digits.len(),
{
    if digits.len() == 0 {
        0
    } else {
        (10 * tens(digits.drop_last()) + (digits.last() - 48)) as nat
    }
}

proof fn lemma_digits(n: nat)
    ensures
        decimal(n).len() > 0,
        tens(decimal(n)) == n,
        n > 0 ==> decimal(n)[0] != 48,
        n == 0 ==> decimal(n).len() == 1,
        forall|i: int| 0 <= i < decimal(n).len() ==> 48 <= #[trigger] decimal(n)[i] <= 57,
    decreases n,
{
    let s = decimal(n);
    if n < 10 {
        assert(s.drop_last() =~= Seq::<u8>::empty());
        assert(tens(s.drop_last()) == 0);
    } else {
        lemma_digits(n / 10);
        assert(s.drop_last() =~= decimal(n / 10));
        assert forall|i: int| 0 <= i < s.len() implies 48 <= #[trigger] s[i] <= 57 by {
            if i < s.len() - 1 {
                assert(s[i] == decimal(n / 10)[i]);
            }
        }
        assert(s[0] == decimal(n / 10)[0]);
    }
}

/// The id of an object is the digest of its kind, a space, its length in decimal digits without
/// leading zeros, a zero byte and its body.
pub proof fn ids_are_digests_of_kind_length_and_body(kind: Kind, body: Seq<u8>) -> (digits: Seq<u8>)
    ensures
        object_id(kind, body) == sha1(kind_text(kind) + seq![32u8] + digits + seq![0u8] + body),
        tens(digits) == body.len(),
        digits.len() > 0,
        digits.len() > 1 ==> digits[0] != 48,
        forall|i: int| 0 <= i < digits.len() ==> 48 <= #[trigger] digits[i] <= 57,
{
    let digits = decimal(body.len());
    lemma_digits(body.len());
    assert(vstd::utf8::encode_utf8(kind.name()) == kind_text(kind));
    digits
}

} // verus!
