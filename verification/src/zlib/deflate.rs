//! Compression: one block of the fixed code over a greedy search for matches, or stored blocks
//! where that does not make the stream shorter.

use vstd::arithmetic::power2::pow2;
use vstd::prelude::*;

use super::adler::{adler, adler32};
use super::bits::{bit, lemma_number_byte, number};
use super::inflate::{be32, be32_bytes, DIST_BASE, DIST_EXTRA, LEN_BASE, LEN_EXTRA};

verus! {

// --- bits as a sequence ------------------------------------------------------------

/// The `n` low binary digits of `x`, least significant first.
pub open spec fn low_bits(x: nat, n: nat) -> Seq<nat>
    decreases n,
{
    if n == 0 {
        Seq::empty()
    } else {
        seq![x % 2] + low_bits(x / 2, (n - 1) as nat)
    }
}

/// The `n` low binary digits of `x`, most significant first.
pub open spec fn code_bits(x: nat, n: nat) -> Seq<nat>
    decreases n,
{
    if n == 0 {
        Seq::empty()
    } else {
        seq![(x / pow2((n - 1) as nat)) % 2] + code_bits(x, (n - 1) as nat)
    }
}

/// All bits of a byte string.
pub open spec fn bits_of(bytes: Seq<u8>) -> Seq<nat> {
    Seq::new(8 * bytes.len(), |p: int| bit(bytes, p))
}

/// The number whose binary digits are the `n` bits of `bits` from `p` on; there are zeros after
/// the end.
pub open spec fn value(bits: Seq<nat>, p: int, n: nat) -> nat
    decreases n,
{
    if n == 0 {
        0
    } else {
        (if p < bits.len() {
            bits[p]
        } else {
            0
        }) + 2 * value(bits, p + 1, (n - 1) as nat)
    }
}

/// The bits packed into bytes, the last one filled up with zeros.
pub open spec fn packed(bits: Seq<nat>) -> Seq<u8> {
    Seq::new(((bits.len() + 7) / 8) as nat, |i: int| value(bits, 8 * i, 8) as u8)
}

pub proof fn lemma_low_bits_len(x: nat, n: nat)
    ensures
        low_bits(x, n).len() == n,
        forall|i: int| 0 <= i < n ==> #[trigger] low_bits(x, n)[i] < 2,
    decreases n,
{
    if n > 0 {
        lemma_low_bits_len(x / 2, (n - 1) as nat);
    }
}

pub proof fn lemma_code_bits_len(x: nat, n: nat)
    ensures
        code_bits(x, n).len() == n,
        forall|i: int| 0 <= i < n ==> #[trigger] code_bits(x, n)[i] < 2,
    decreases n,
{
    if n > 0 {
        lemma_code_bits_len(x, (n - 1) as nat);
    }
}

/// The digits of a number split at any point.
pub proof fn lemma_low_bits_split(x: nat, a: nat, b: nat)
    ensures
        low_bits(x, a + b) == low_bits(x, a) + low_bits(x / pow2(a), b),
    decreases a,
{
    vstd::arithmetic::power2::lemma2_to64();
    if a > 0 {
        lemma_low_bits_split(x / 2, (a - 1) as nat, b);
        vstd::arithmetic::power2::lemma_pow2_unfold(a);
        vstd::arithmetic::power2::lemma_pow2_pos((a - 1) as nat);
        vstd::arithmetic::div_mod::lemma_div_denominator(x as int, 2, pow2((a - 1) as nat) as int);
        assert((a + b - 1) as nat == (a - 1) as nat + b);
        assert(low_bits(x, a + b) =~= low_bits(x, a) + low_bits(x / pow2(a), b));
    } else {
        assert(low_bits(x, 0) + low_bits(x, b) =~= low_bits(x, b));
    }
}

/// The low digits do not depend on what is above them.
pub proof fn lemma_low_bits_high(x: nat, a: nat, y: nat)
    ensures
        low_bits(x + pow2(a) * y, a) == low_bits(x, a),
    decreases a,
{
    if a > 0 {
        vstd::arithmetic::power2::lemma_pow2_unfold(a);
        let h = pow2((a - 1) as nat);
        assert(pow2(a) * y == 2 * (h * y)) by (nonlinear_arith)
            requires
                pow2(a) == 2 * h,
        ;
        let t = x + pow2(a) * y;
        assert(t % 2 == x % 2);
        assert(t / 2 == x / 2 + h * y);
        lemma_low_bits_high(x / 2, (a - 1) as nat, y);
    }
}

/// The bits of a byte string with one more byte.
proof fn lemma_bits_of_push(bytes: Seq<u8>, b: u8)
    ensures
        bits_of(bytes.push(b)) == bits_of(bytes) + low_bits(b as nat, 8),
{
    let all = bytes.push(b);
    lemma_low_bits_len(b as nat, 8);
    assert forall|p: int| 0 <= p < 8 * all.len() implies bit(all, p) == (bits_of(bytes) + low_bits(
        b as nat,
        8,
    ))[p] by {
        if p < 8 * bytes.len() {
            assert(all[p / 8] == bytes[p / 8]);
        } else {
            let k = p - 8 * bytes.len();
            assert(p / 8 == bytes.len() && p % 8 == k);
            lemma_low_bits_at(b as nat, 8, k as nat);
        }
    }
    assert(bits_of(all) =~= bits_of(bytes) + low_bits(b as nat, 8));
}

/// A single digit of a number.
pub proof fn lemma_low_bits_at(x: nat, n: nat, k: nat)
    requires
        k < n,
    ensures
        low_bits(x, n).len() == n,
        low_bits(x, n)[k as int] == (x / pow2(k)) % 2,
    decreases n,
{
    lemma_low_bits_len(x, n);
    vstd::arithmetic::power2::lemma2_to64();
    if k > 0 {
        lemma_low_bits_at(x / 2, (n - 1) as nat, (k - 1) as nat);
        vstd::arithmetic::power2::lemma_pow2_unfold(k);
        vstd::arithmetic::power2::lemma_pow2_pos((k - 1) as nat);
        vstd::arithmetic::div_mod::lemma_div_denominator(x as int, 2, pow2((k - 1) as nat) as int);
        assert(low_bits(x, n)[k as int] == low_bits(x / 2, (n - 1) as nat)[k - 1]);
    } else {
        assert(x / 1 == x);
    }
}

// --- writing bits --------------------------------------------------------------------

/// Writes bits, least significant first.
pub struct BitWriter {
    pub out: Vec<u8>,
    pub bit_buf: u64,
    pub bit_cnt: u32,
}

impl BitWriter {
    /// The bits written so far.
    pub open spec fn written(&self) -> Seq<nat> {
        bits_of(self.out@) + low_bits(self.bit_buf as nat, self.bit_cnt as nat)
    }

    pub open spec fn wf(&self) -> bool {
        self.bit_cnt < 8 && self.bit_buf < pow2(self.bit_cnt as nat)
    }

    pub fn new() -> (r: Self)
        ensures
            r.wf(),
            r.written() == Seq::<nat>::empty(),
    {
        proof {
            vstd::arithmetic::power2::lemma2_to64();
        }
        let r = BitWriter { out: Vec::new(), bit_buf: 0, bit_cnt: 0 };
        assert(r.written() =~= Seq::<nat>::empty());
        r
    }

    /// Writes the `n` low bits of `value`.
    pub fn bits(&mut self, value: u32, n: u32)
        requires
            old(self).wf(),
            n <= 16,
            value < pow2(n as nat),
        ensures
            final(self).wf(),
            final(self).written() == old(self).written() + low_bits(value as nat, n as nat),
    {
        let ghost goal = self.written() + low_bits(value as nat, n as nat);
        let (buf, cnt) = (self.bit_buf, self.bit_cnt);
        let wide: u64 = value as u64;
        let ghost w = pow2(cnt as nat);
        let shift: u64 = cnt as u64;
        proof {
            vstd::arithmetic::power2::lemma2_to64();
            vstd::arithmetic::power2::lemma_pow2_strictly_increases(cnt as nat, 8);
            if n < 16 {
                vstd::arithmetic::power2::lemma_pow2_strictly_increases(n as nat, 16);
            }
            assert(wide * w <= 65536 * 256) by (nonlinear_arith)
                requires
                    wide <= 65536,
                    w <= 256,
            ;
            vstd::bits::lemma_u64_shl_is_mul(wide, shift);
            vstd::bits::lemma_u64_shl_is_mul(1, shift);
            assert((buf | (wide << shift)) == buf + (wide << shift)) by (bit_vector)
                requires
                    buf < (1u64 << shift),
                    shift < 8,
                    wide <= 65536,
            ;
            assert(wide * w == w * wide) by (nonlinear_arith);
            lemma_low_bits_split((buf + w * wide) as nat, cnt as nat, n as nat);
            lemma_low_bits_high(buf as nat, cnt as nat, wide as nat);
            vstd::arithmetic::div_mod::lemma_fundamental_div_mod_converse(
                (buf + w * wide) as int,
                w as int,
                wide as int,
                buf as int,
            );
            vstd::arithmetic::power2::lemma_pow2_adds(cnt as nat, n as nat);
            assert(buf + w * wide < w * pow2(n as nat)) by (nonlinear_arith)
                requires
                    buf < w,
                    wide + 1 <= pow2(n as nat),
            ;
        }
        self.bit_buf = buf | (wide << shift);
        self.bit_cnt = cnt + n;
        assert(self.written() =~= goal);
        while self.bit_cnt >= 8
            invariant
                self.bit_cnt <= 24,
                self.bit_buf < pow2(self.bit_cnt as nat),
                self.written() == goal,
            decreases self.bit_cnt,
        {
            let (buf, cnt) = (self.bit_buf, self.bit_cnt);
            let ghost before = self.out@;
            let low: u8 = (buf % 256) as u8;
            proof {
                vstd::arithmetic::power2::lemma2_to64();
                lemma_low_bits_split(buf as nat, 8, (cnt - 8) as nat);
                lemma_low_bits_high((buf % 256) as nat, 8, (buf / 256) as nat);
                assert(buf == buf % 256 + 256 * (buf / 256));
                lemma_bits_of_push(before, low);
                vstd::arithmetic::power2::lemma_pow2_adds(8, (cnt - 8) as nat);
                assert(buf / 256 < pow2((cnt - 8) as nat)) by (nonlinear_arith)
                    requires
                        buf < 256 * pow2((cnt - 8) as nat),
                ;
                assert(8 + (cnt - 8) as nat == cnt);
            }
            self.out.push(low);
            self.bit_buf = buf / 256;
            self.bit_cnt = cnt - 8;
            assert(self.written() =~= goal);
        }
    }

    /// Writes a Huffman code of `len` bits, most significant first.
    pub fn code(&mut self, code: u32, len: u32)
        requires
            old(self).wf(),
            len <= 16,
        ensures
            final(self).wf(),
            final(self).written() == old(self).written() + code_bits(code as nat, len as nat),
    {
        let ghost goal = self.written() + code_bits(code as nat, len as nat);
        let mut left: u32 = len;
        while left > 0
            invariant
                left <= len <= 16,
                self.wf(),
                goal == self.written() + code_bits(code as nat, left as nat),
            decreases left,
        {
            let ghost before = self.written();
            let shift: u32 = left - 1;
            proof {
                vstd::arithmetic::power2::lemma2_to64();
                vstd::bits::lemma_u32_shr_is_div(code, shift);
                assert(shift as nat == (left - 1) as nat);
            }
            let b: u32 = (code >> shift) % 2;
            self.bits(b, 1);
            proof {
                reveal_with_fuel(low_bits, 2);
                assert(low_bits(b as nat, 1) =~= seq![b as nat]);
                assert(code_bits(code as nat, left as nat) == seq![b as nat] + code_bits(
                    code as nat,
                    shift as nat,
                ));
                assert(goal =~= self.written() + code_bits(code as nat, shift as nat));
            }
            left = shift;
        }
        assert(goal =~= self.written());
    }

    /// The bytes written, the last one filled up with zeros.
    pub fn finish(self) -> (r: Vec<u8>)
        requires
            self.wf(),
        ensures
            r@ == packed(self.written()),
    {
        let ghost bits = self.written();
        let mut out = self.out;
        let ghost before = out@;
        proof {
            lemma_low_bits_len(self.bit_buf as nat, self.bit_cnt as nat);
            vstd::arithmetic::power2::lemma2_to64();
            vstd::arithmetic::power2::lemma_pow2_strictly_increases(self.bit_cnt as nat, 8);
        }
        if self.bit_cnt > 0 {
            let last: u8 = self.bit_buf as u8;
            out.push(last);
            proof {
                lemma_bits_of_push(before, last);
            }
        }
        proof {
            let n = bits.len();
            let ghost cnt = self.bit_cnt as nat;
            assert(out@.len() == (n + 7) / 8);
            assert forall|p: int| 0 <= p < 8 * out@.len() implies bit(out@, p) == (if p < n {
                bits[p]
            } else {
                0
            }) by {
                if p < 8 * before.len() {
                    assert(bits_of(before)[p] == bit(before, p));
                    assert(out@[p / 8] == before[p / 8]);
                } else {
                    let k = (p - 8 * before.len()) as nat;
                    assert(p / 8 == before.len() && p % 8 == k);
                    if k < cnt {
                        lemma_low_bits_at(self.bit_buf as nat, cnt, k);
                    } else {
                        lemma_high_zero(self.bit_buf as nat, cnt, k);
                    }
                }
            }
            assert forall|i: int| 0 <= i < out@.len() implies out@[i] == value(bits, 8 * i, 8) as u8 by {
                lemma_number_byte(out@, i);
                lemma_value_number(out@, bits, 8 * i, 8);
            }
            assert(out@ =~= packed(bits));
        }
        out
    }

    /// Writes a literal or length symbol in the fixed code.
    fn fixed_lit(&mut self, sym: u16)
        requires
            old(self).wf(),
            sym <= 287,
        ensures
            final(self).wf(),
            final(self).written() == old(self).written() + lit_bits(sym as int),
    {
        let (code, len): (u32, u32) = match sym {
            0..=143 => (0x30 + sym as u32, 8),
            144..=255 => (0x190 + (sym as u32 - 144), 9),
            256..=279 => (sym as u32 - 256, 7),
            _ => (0xc0 + (sym as u32 - 280), 8),
        };
        self.code(code, len);
    }

    /// Writes a match in the fixed codes.
    fn fixed_match(&mut self, len: usize, dist: usize)
        requires
            old(self).wf(),
            3 <= len <= 258,
            1 <= dist <= 32768,
        ensures
            final(self).wf(),
            final(self).written() == old(self).written() + match_bits(len as nat, dist as nat),
    {
        let ghost start = self.written();
        let mut li: usize = 28;
        while LEN_BASE[li] as usize > len
            invariant
                li <= 28,
                len >= 3,
                len_index(len as nat, 28) == len_index(len as nat, li as int),
            decreases li,
        {
            assert(LEN_BASE[0] == 3);
            li -= 1;
        }
        let mut di: usize = 29;
        while DIST_BASE[di] as usize > dist
            invariant
                di <= 29,
                dist >= 1,
                dist_index(dist as nat, 29) == dist_index(dist as nat, di as int),
            decreases di,
        {
            assert(DIST_BASE[0] == 1);
            di -= 1;
        }
        proof {
            lemma_len_index(len as nat);
            lemma_dist_index(dist as nat);
        }
        self.fixed_lit(257 + li as u16);
        self.bits((len - LEN_BASE[li] as usize) as u32, LEN_EXTRA[li] as u32);
        self.code(di as u32, 5);
        self.bits((dist - DIST_BASE[di] as usize) as u32, DIST_EXTRA[di] as u32);
        assert(self.written() =~= start + match_bits(len as nat, dist as nat));
    }
}

/// There are only zeros above a number.
proof fn lemma_high_zero(x: nat, n: nat, k: nat)
    requires
        x < pow2(n),
        n <= k,
    ensures
        (x / pow2(k)) % 2 == 0,
{
    if n < k {
        vstd::arithmetic::power2::lemma_pow2_strictly_increases(n, k);
    }
    vstd::arithmetic::div_mod::lemma_basic_div(x as int, pow2(k) as int);
}

/// Reading bytes and reading the bits that they hold is the same.
proof fn lemma_value_number(bytes: Seq<u8>, bits: Seq<nat>, p: int, n: nat)
    requires
        0 <= p,
        p + n <= 8 * bytes.len(),
        forall|q: int|
            0 <= q < 8 * bytes.len() ==> #[trigger] bit(bytes, q) == (if q < bits.len() {
                bits[q]
            } else {
                0
            }),
    ensures
        number(bytes, p, n) == value(bits, p, n),
    decreases n,
{
    if n > 0 {
        lemma_value_number(bytes, bits, p + 1, (n - 1) as nat);
    }
}

// --- the fixed codes -------------------------------------------------------------------

/// A literal or length symbol in the fixed code.
pub open spec fn lit_bits(sym: int) -> Seq<nat> {
    if sym <= 143 {
        code_bits((0x30 + sym) as nat, 8)
    } else if sym <= 255 {
        code_bits((0x190 + sym - 144) as nat, 9)
    } else if sym <= 279 {
        code_bits((sym - 256) as nat, 7)
    } else {
        code_bits((0xc0 + sym - 280) as nat, 8)
    }
}

/// The last length symbol up to `i` whose lengths do not all exceed `len`.
pub open spec fn len_index(len: nat, i: int) -> int
    decreases i,
{
    if i <= 0 || LEN_BASE[i] <= len {
        i
    } else {
        len_index(len, i - 1)
    }
}

/// The last distance symbol up to `i` whose distances do not all exceed `dist`.
pub open spec fn dist_index(dist: nat, i: int) -> int
    decreases i,
{
    if i <= 0 || DIST_BASE[i] <= dist {
        i
    } else {
        dist_index(dist, i - 1)
    }
}

/// A match in the fixed codes: length symbol, extra bits, distance symbol, extra bits.
pub open spec fn match_bits(len: nat, dist: nat) -> Seq<nat> {
    let li = len_index(len, 28);
    let di = dist_index(dist, 29);
    lit_bits(257 + li) + low_bits((len - LEN_BASE[li]) as nat, LEN_EXTRA[li] as nat) + code_bits(
        di as nat,
        5,
    ) + low_bits((dist - DIST_BASE[di]) as nat, DIST_EXTRA[di] as nat)
}

/// The length symbol of a length, and its extra bits.
pub proof fn lemma_len_index(len: nat)
    requires
        3 <= len <= 258,
    ensures
        0 <= len_index(len, 28) <= 28,
        LEN_BASE[len_index(len, 28)] <= len,
        len - LEN_BASE[len_index(len, 28)] < pow2(LEN_EXTRA[len_index(len, 28)] as nat),
        LEN_EXTRA[len_index(len, 28)] <= 5,
{
    vstd::arithmetic::power2::lemma2_to64();
    reveal_with_fuel(len_index, 30);
}

/// The distance symbol of a distance, and its extra bits.
pub proof fn lemma_dist_index(dist: nat)
    requires
        1 <= dist <= 32768,
    ensures
        0 <= dist_index(dist, 29) <= 29,
        DIST_BASE[dist_index(dist, 29)] <= dist,
        dist - DIST_BASE[dist_index(dist, 29)] < pow2(DIST_EXTRA[dist_index(dist, 29)] as nat),
        DIST_EXTRA[dist_index(dist, 29)] <= 13,
{
    vstd::arithmetic::power2::lemma2_to64();
    reveal_with_fuel(dist_index, 31);
}

// --- the search for matches ------------------------------------------------------------

/// The hash of the three bytes at `q`, of twelve bits.
#[verifier::opaque]
pub open spec fn hash_at(data: Seq<u8>, q: int) -> int {
    ((data[q] + 256 * data[q + 1] + 65536 * data[q + 2]) * 0x9E37_79B1) % 4294967296 / 1048576
}

/// The last position before `q` whose three bytes have the hash `h`.
pub open spec fn latest(data: Seq<u8>, h: int, q: int) -> Option<int>
    decreases q,
{
    if q <= 0 {
        None
    } else if hash_at(data, q - 1) == h {
        Some(q - 1)
    } else {
        latest(data, h, q - 1)
    }
}

/// How many of at most `limit` bytes at `a` and at `b` agree.
pub open spec fn common(data: Seq<u8>, a: int, b: int, limit: nat) -> nat
    decreases limit,
{
    if limit == 0 || data[a] != data[b] {
        0
    } else {
        1 + common(data, a + 1, b + 1, (limit - 1) as nat)
    }
}

/// The match that is used at `pos`, as length and distance: the one with the last earlier position
/// of the same hash, if it is near enough and agrees in three bytes or more.
pub open spec fn match_at(data: Seq<u8>, pos: int) -> Option<(nat, nat)> {
    if data.len() - pos < 3 {
        None
    } else {
        match latest(data, hash_at(data, pos), pos) {
            None => None,
            Some(q) => {
                let limit: int = if data.len() - pos < 258 {
                    data.len() - pos
                } else {
                    258
                };
                let len = common(data, q, pos, limit as nat);
                if q >= u32::MAX || pos - q > 32768 || len < 3 {
                    None
                } else {
                    Some((len, (pos - q) as nat))
                }
            },
        }
    }
}

/// The symbols for the data from `pos` on.
pub open spec fn symbols_from(data: Seq<u8>, pos: int) -> Seq<nat>
    decreases
            if pos >= data.len() {
                0
            } else {
                data.len() - pos
            },
{
    if pos >= data.len() {
        Seq::empty()
    } else {
        match match_at(data, pos) {
            None => lit_bits(data[pos] as int) + symbols_from(data, pos + 1),
            Some((len, dist)) => match_bits(len, dist) + symbols_from(
                data,
                pos + if len >= 1 {
                    len as int
                } else {
                    1
                },
            ),
        }
    }
}

/// Where the last position of the hash `h` before `q` is kept in the table.
spec fn mark(data: Seq<u8>, h: int, q: int) -> int {
    match latest(data, h, q) {
        None => 0,
        Some(p) => if p < u32::MAX {
            p + 1
        } else {
            0
        },
    }
}

proof fn lemma_latest(data: Seq<u8>, h: int, q: int)
    ensures
        latest(data, h, q) matches Some(p) ==> 0 <= p < q,
    decreases q,
{
    if q > 0 {
        lemma_latest(data, h, q - 1);
    }
}

pub proof fn lemma_common(data: Seq<u8>, a: int, b: int, limit: nat)
    ensures
        common(data, a, b, limit) <= limit,
        forall|k: int| 0 <= k < common(data, a, b, limit) ==> #[trigger] data[a + k] == data[b + k],
    decreases limit,
{
    if limit > 0 && data[a] == data[b] {
        lemma_common(data, a + 1, b + 1, (limit - 1) as nat);
        assert forall|k: int| 0 <= k < common(data, a, b, limit) implies #[trigger] data[a + k] == data[b
            + k] by {
            if k > 0 {
                assert(data[(a + 1) + (k - 1)] == data[(b + 1) + (k - 1)]);
            }
        }
    }
}

/// A match that is used.
pub proof fn lemma_match_at(data: Seq<u8>, pos: int)
    requires
        0 <= pos,
    ensures
        match_at(data, pos) matches Some((len, dist)) ==> 3 <= len <= 258 && pos + len <= data.len() && 1
            <= dist <= 32768 && dist <= pos && forall|k: int|
            0 <= k < len ==> #[trigger] data[pos + k] == data[pos - dist + k],
{
    lemma_latest(data, hash_at(data, pos), pos);
    if let Some((len, dist)) = match_at(data, pos) {
        let q = latest(data, hash_at(data, pos), pos)->0;
        let limit: int = if data.len() - pos < 258 {
            data.len() - pos
        } else {
            258
        };
        lemma_common(data, q, pos, limit as nat);
        assert forall|k: int| 0 <= k < len implies #[trigger] data[pos + k] == data[pos - dist + k] by {
            assert(data[q + k] == data[pos + k]);
        }
    }
}

fn hash3(data: &[u8], pos: usize) -> (r: usize)
    requires
        pos + 3 <= data@.len(),
    ensures
        r == hash_at(data@, pos as int),
        r < 4096,
{
    proof {
        reveal(hash_at);
    }
    let v: u64 = data[pos] as u64 + 256 * data[pos + 1] as u64 + 65536 * data[pos + 2] as u64;
    ((v * 0x9E37_79B1u64) % 4294967296u64 / 1048576u64) as usize
}

/// Enters the position `p` into the table of last positions.
fn enter(head: &mut Vec<u32>, data: &[u8], p: usize)
    requires
        old(head)@.len() == 4096,
        p + 3 <= data@.len(),
        forall|h: int| 0 <= h < 4096 ==> #[trigger] old(head)@[h] == mark(data@, h, p as int),
    ensures
        final(head)@.len() == 4096,
        forall|h: int| 0 <= h < 4096 ==> #[trigger] final(head)@[h] == mark(data@, h, p + 1),
{
    let h = hash3(data, p);
    let m: u32 = if p < u32::MAX as usize {
        (p + 1) as u32
    } else {
        0
    };
    let ghost before = head@;
    head[h] = m;
    proof {
        assert forall|k: int| 0 <= k < 4096 implies #[trigger] head@[k] == mark(data@, k, p + 1) by {
            assert(before[k] == mark(data@, k, p as int));
            assert(p + 1 - 1 == p);
        }
    }
}

/// Writes the symbols of `data`, without the end symbol.
fn deflate_fixed_block(data: &[u8], bw: &mut BitWriter)
    requires
        old(bw).wf(),
    ensures
        final(bw).wf(),
        final(bw).written() == old(bw).written() + symbols_from(data@, 0),
{
    let ghost start = bw.written();
    let ghost d = data@;
    // For each hash, one more than the last position that has it.
    let mut head: Vec<u32> = vec![0u32; 4096];
    let mut pos: usize = 0;
    while pos < data.len()
        invariant
            pos <= data.len(),
            d == data@,
            bw.wf(),
            head@.len() == 4096,
            pos + 3 <= d.len() ==> forall|h: int|
                0 <= h < 4096 ==> #[trigger] head@[h] == mark(d, h, pos as int),
            start + symbols_from(d, 0) == bw.written() + symbols_from(d, pos as int),
        decreases data.len() - pos,
    {
        let remaining = data.len() - pos;
        let mut best: usize = 0;
        let mut best_dist: usize = 0;
        let ghost written = bw.written();
        proof {
            lemma_match_at(d, pos as int);
        }
        if remaining >= 3 {
            let h = hash3(data, pos);
            let cand = head[h] as usize;
            proof {
                lemma_latest(d, h as int, pos as int);
                assert(head@[h as int] == mark(d, h as int, pos as int));
            }
            enter(&mut head, data, pos);
            if cand > 0 {
                let cand = cand - 1;
                let dist = pos - cand;
                if dist <= 32768 {
                    let limit: usize = if remaining < 258 {
                        remaining
                    } else {
                        258
                    };
                    let mut len: usize = 0;
                    while len < limit && data[cand + len] == data[pos + len]
                        invariant
                            len <= limit,
                            d == data@,
                            cand < pos,
                            pos + limit <= data.len(),
                            common(d, cand as int, pos as int, limit as nat) == len + common(
                                d,
                                cand + len,
                                pos + len,
                                (limit - len) as nat,
                            ),
                        decreases limit - len,
                    {
                        len += 1;
                    }
                    if len >= 3 {
                        best = len;
                        best_dist = dist;
                    }
                }
            }
        }
        if best == 0 {
            assert(match_at(d, pos as int) is None);
            bw.fixed_lit(data[pos] as u16);
            assert(bw.written() + symbols_from(d, pos + 1) =~= written + symbols_from(d, pos as int));
            pos += 1;
        } else {
            assert(match_at(d, pos as int) == Some((best as nat, best_dist as nat)));
            bw.fixed_match(best, best_dist);
            assert(bw.written() + symbols_from(d, pos + best) =~= written + symbols_from(d, pos as int));
            // The positions inside a match are candidates too.
            let mut p: usize = pos + 1;
            while p < pos + best
                invariant
                    pos + 1 <= p <= pos + best <= data.len(),
                    d == data@,
                    head@.len() == 4096,
                    p + 3 <= d.len() ==> forall|h: int|
                        0 <= h < 4096 ==> #[trigger] head@[h] == mark(d, h, p as int),
                decreases pos + best - p,
            {
                if data.len() - p >= 3 {
                    enter(&mut head, data, p);
                }
                p += 1;
            }
            pos += best;
        }
    }
    assert(bw.written() + Seq::<nat>::empty() =~= bw.written());
}

// --- whole streams -----------------------------------------------------------------------

/// The bits of the one block: final, fixed codes, the symbols and the end symbol.
pub open spec fn fixed_stream(data: Seq<u8>) -> Seq<nat> {
    low_bits(1, 1) + low_bits(1, 2) + symbols_from(data, 0) + lit_bits(256)
}

/// A zlib stream of the fixed codes.
pub open spec fn fixed_zlib(data: Seq<u8>) -> Seq<u8> {
    seq![0x78u8, 0x01u8] + packed(fixed_stream(data)) + be32(adler(data))
}

/// The head of a stored block: whether it is the last, its length and the complement of that.
pub open spec fn stored_head(last: bool, len: int) -> Seq<u8> {
    seq![
        if last { 1u8 } else { 0u8 },
        (len % 256) as u8,
        (len / 256) as u8,
        ((65535 - len) % 256) as u8,
        ((65535 - len) / 256) as u8,
    ]
}

/// The data in stored blocks of 65535 bytes; the last may be shorter.
pub open spec fn stored_blocks(data: Seq<u8>) -> Seq<u8>
    decreases data.len(),
{
    if data.len() <= 65535 {
        stored_head(true, data.len() as int) + data
    } else {
        stored_head(false, 65535) + data.take(65535) + stored_blocks(data.skip(65535))
    }
}

/// A zlib stream of stored blocks.
pub open spec fn stored_zlib(data: Seq<u8>) -> Seq<u8> {
    seq![0x78u8, 0x01u8] + stored_blocks(data) + be32(adler(data))
}

/// The zlib stream for `data`: the fixed codes where they make it shorter than stored blocks.
#[verifier::opaque]
pub open spec fn deflated(data: Seq<u8>) -> Seq<u8> {
    if fixed_zlib(data).len() < stored_zlib(data).len() {
        fixed_zlib(data)
    } else {
        stored_zlib(data)
    }
}

/// The length of stored blocks.
proof fn lemma_stored_len(data: Seq<u8>)
    ensures
        stored_blocks(data).len() == data.len() + 5 * (if data.len() == 0 {
            1
        } else {
            (data.len() + 65534) / 65535
        }),
    decreases data.len(),
{
    if data.len() > 65535 {
        lemma_stored_len(data.skip(65535));
        assert((data.len() + 65534) / 65535 == 1 + (data.len() - 65535 + 65534) / 65535);
    } else if data.len() > 0 {
        assert((data.len() + 65534) / 65535 == 1);
    }
}

/// Compresses `data` into a zlib stream.
pub fn deflate_zlib(data: &[u8]) -> (r: Vec<u8>)
    ensures
        r@ == deflated(data@),
{
    proof {
        reveal(deflated);
    }
    let ghost d = data@;
    let len: u128 = data.len() as u128;
    let blocks: u128 = if len == 0 {
        1
    } else {
        (len + 65534) / 65535
    };
    let stored_len: u128 = 2 + len + blocks * 5 + 4;
    let mut bw = BitWriter::new();
    proof {
        vstd::arithmetic::power2::lemma2_to64();
        lemma_stored_len(d);
    }
    bw.bits(1, 1);
    bw.bits(1, 2);
    deflate_fixed_block(data, &mut bw);
    bw.fixed_lit(256);
    assert(bw.written() =~= fixed_stream(d));
    let body = bw.finish();
    if body.len() as u128 + 6 >= stored_len {
        return deflate_zlib_stored(data);
    }
    let mut out: Vec<u8> = Vec::new();
    out.push(0x78);
    out.push(0x01);
    out.extend_from_slice(body.as_slice());
    let sum = be32_bytes(adler32(data));
    out.extend_from_slice(sum.as_slice());
    assert(out@ =~= fixed_zlib(d));
    out
}

/// Puts `data` into a zlib stream without compressing it.
pub fn deflate_zlib_stored(data: &[u8]) -> (r: Vec<u8>)
    ensures
        r@ == stored_zlib(data@),
{
    let ghost d = data@;
    let mut out: Vec<u8> = Vec::new();
    out.push(0x78);
    out.push(0x01);
    let mut pos: usize = 0;
    let ghost head = out@;
    assert(d.skip(0) =~= d);
    assert(head =~= seq![0x78u8, 0x01u8]);
    loop
        invariant_except_break
            head + stored_blocks(d) == out@ + stored_blocks(d.skip(pos as int)),
        invariant
            pos <= data.len(),
            d == data@,
            head == seq![0x78u8, 0x01u8],
        ensures
            out@ == head + stored_blocks(d),
        decreases data.len() - pos,
    {
        let left = data.len() - pos;
        let last = left <= 65535;
        let n: usize = if last {
            left
        } else {
            65535
        };
        let chunk = &data[pos..pos + n];
        let ghost before = out@;
        out.push(if last { 1u8 } else { 0u8 });
        out.push((n % 256) as u8);
        out.push((n / 256) as u8);
        out.push(((65535 - n) % 256) as u8);
        out.push(((65535 - n) / 256) as u8);
        out.extend_from_slice(chunk);
        assert(out@ =~= before + stored_head(last, n as int) + chunk@);
        if last {
            assert(chunk@ =~= d.skip(pos as int));
            assert(out@ =~= head + stored_blocks(d));
            break;
        }
        proof {
            assert(chunk@ =~= d.skip(pos as int).take(65535));
            assert(d.skip(pos as int).skip(65535) =~= d.skip(pos + n));
            assert(head + stored_blocks(d) =~= out@ + stored_blocks(d.skip(pos + n)));
        }
        pos += n;
    }
    let sum = be32_bytes(adler32(data));
    out.extend_from_slice(sum.as_slice());
    assert(out@ =~= stored_zlib(d));
    out
}

} // verus!
