//! Bits of a byte string, least significant first.

use vstd::arithmetic::power2::pow2;
use vstd::prelude::*;

use crate::err::{Error, Result};

verus! {

/// The bit at position `p`; the eight bits of a byte start with the least significant.
pub open spec fn bit(data: Seq<u8>, p: int) -> nat {
    ((data[p / 8] as nat) / pow2((p % 8) as nat)) % 2
}

/// The number whose binary digits are the `n` bits from `p` on, least significant first.
pub open spec fn number(data: Seq<u8>, p: int, n: nat) -> nat
    decreases n,
{
    if n == 0 {
        0
    } else {
        bit(data, p) + 2 * number(data, p + 1, (n - 1) as nat)
    }
}

/// Reading `n` bits at `p`: the number and the position after it.
pub open spec fn read(data: Seq<u8>, p: int, n: nat) -> Result<(nat, int)> {
    if p + n > 8 * data.len() {
        Err(Error::UnexpectedEof)
    } else {
        Ok((number(data, p, n), p + n))
    }
}

/// The number read from a run of bits splits at any point.
pub proof fn lemma_number_split(data: Seq<u8>, p: int, a: nat, b: nat)
    ensures
        number(data, p, a + b) == number(data, p, a) + pow2(a) * number(data, p + a, b),
    decreases a,
{
    vstd::arithmetic::power2::lemma2_to64();
    if a == 0 {
    } else {
        lemma_number_split(data, p + 1, (a - 1) as nat, b);
        vstd::arithmetic::power2::lemma_pow2_unfold(a);
        let x = pow2((a - 1) as nat) as int;
        let y = number(data, p + a, b) as int;
        assert((a + b - 1) as nat == (a - 1) as nat + b);
        assert(2 * (x * y) == (2 * x) * y) by (nonlinear_arith);
    }
}

/// A number of `n` bits is below two to the `n`.
pub proof fn lemma_number_bound(data: Seq<u8>, p: int, n: nat)
    ensures
        number(data, p, n) < pow2(n),
    decreases n,
{
    vstd::arithmetic::power2::lemma2_to64();
    if n > 0 {
        lemma_number_bound(data, p + 1, (n - 1) as nat);
        vstd::arithmetic::power2::lemma_pow2_unfold(n);
    }
}

/// The bits from the `k`th on of a byte give what is left of it after `k` halvings.
proof fn lemma_number_in_byte(data: Seq<u8>, i: int, k: nat)
    requires
        0 <= i < data.len(),
        k <= 8,
    ensures
        number(data, 8 * i + k, (8 - k) as nat) == (data[i] as nat) / pow2(k),
    decreases 8 - k,
{
    let b = data[i] as nat;
    vstd::arithmetic::power2::lemma2_to64();
    if k < 8 {
        lemma_number_in_byte(data, i, k + 1);
        vstd::arithmetic::power2::lemma_pow2_unfold(k + 1);
        vstd::arithmetic::power2::lemma_pow2_pos(k);
        assert((8 * i + k) / 8 == i && (8 * i + k) % 8 == k);
        let w = pow2(k) as int;
        vstd::arithmetic::div_mod::lemma_div_denominator(b as int, w, 2);
        let x = b as int / w;
        assert(number(data, 8 * i + (k + 1), (8 - (k + 1)) as nat) == x / 2);
        assert(((8 - k) as nat - 1) as nat == (8 - (k + 1)) as nat);
        assert(bit(data, 8 * i + k) == x % 2);
        assert(number(data, 8 * i + k, (8 - k) as nat) == x % 2 + 2 * (x / 2));
    } else {
        assert(pow2(k) == 256);
        assert(b / 256 == 0);
    }
}

/// Eight bits at a byte boundary are that byte.
pub proof fn lemma_number_byte(data: Seq<u8>, i: int)
    requires
        0 <= i < data.len(),
    ensures
        number(data, 8 * i, 8) == data[i],
{
    lemma_number_in_byte(data, i, 0);
    vstd::arithmetic::power2::lemma2_to64();
}

/// The low part and the high part of a number read from a run of bits.
pub proof fn lemma_number_div_mod(data: Seq<u8>, p: int, a: nat, b: nat)
    ensures
        number(data, p, a + b) % pow2(a) == number(data, p, a),
        number(data, p, a + b) / pow2(a) == number(data, p + a, b),
{
    lemma_number_split(data, p, a, b);
    lemma_number_bound(data, p, a);
    vstd::arithmetic::power2::lemma_pow2_pos(a);
    let x = number(data, p, a + b) as int;
    let d = pow2(a) as int;
    let q = number(data, p + a, b) as int;
    let r = number(data, p, a) as int;
    assert(x == q * d + r) by {
        assert(d * q == q * d) by (nonlinear_arith);
    }
    vstd::arithmetic::div_mod::lemma_fundamental_div_mod_converse(x, d, q, r);
}

/// Reads bits from a byte string, least significant first.
pub struct BitReader<'a> {
    pub data: &'a [u8],
    /// The next byte to take in.
    pub pos: usize,
    pub bit_buf: u32,
    pub bit_cnt: u32,
}

impl<'a> BitReader<'a> {
    /// The position of the next bit.
    pub open spec fn at(&self) -> int {
        8 * self.pos - self.bit_cnt
    }

    pub open spec fn wf(&self) -> bool {
        &&& self.pos <= self.data@.len()
        &&& self.bit_cnt < 8
        &&& self.at() >= 0
        &&& self.bit_buf == number(self.data@, self.at(), self.bit_cnt as nat)
    }

    pub fn new(data: &'a [u8]) -> (r: Self)
        ensures
            r.wf(),
            r.data@ == data@,
            r.at() == 0,
    {
        BitReader { data, pos: 0, bit_buf: 0, bit_cnt: 0 }
    }

    /// Reads `n` bits.
    pub fn bits(&mut self, n: u32) -> (r: Result<u32>)
        requires
            old(self).wf(),
            n <= 16,
        ensures
            final(self).data@ == old(self).data@,
            match read(old(self).data@, old(self).at(), n as nat) {
                Ok((v, q)) => r == Ok::<u32, Error>(v as u32) && v < pow2(n as nat) && v <= 65535
                    && final(self).wf() && final(self).at() == q,
                Err(e) => r == Err::<u32, Error>(e),
            },
    {
        let ghost data = self.data@;
        let ghost a = self.at();
        proof {
            vstd::arithmetic::power2::lemma2_to64();
        }
        while self.bit_cnt < n
            invariant
                self.data@ == data,
                data == old(self).data@,
                a == old(self).at(),
                self.pos <= data.len(),
                self.bit_cnt < 8 || self.bit_cnt < n + 8,
                n <= 16,
                a == self.at(),
                a >= 0,
                self.bit_buf == number(data, a, self.bit_cnt as nat),
                self.bit_cnt <= 23,
            decreases n + 8 - self.bit_cnt,
        {
            if self.pos >= self.data.len() {
                return Err(Error::UnexpectedEof);
            }
            let byte = self.data[self.pos];
            let (buf, cnt) = (self.bit_buf, self.bit_cnt);
            let wide: u32 = byte as u32;
            proof {
                lemma_number_split(data, a, cnt as nat, 8);
                lemma_number_byte(data, self.pos as int);
                lemma_number_bound(data, a, cnt as nat);
                vstd::arithmetic::power2::lemma2_to64();
                vstd::arithmetic::power2::lemma_pow2_strictly_increases(cnt as nat, 16);
                let w = pow2(cnt as nat);
                assert(1u32 * w <= 65536 && wide * w <= 255 * 65536) by (nonlinear_arith)
                    requires
                        w < 65536,
                        wide <= 255,
                ;
                vstd::bits::lemma_u32_shl_is_mul(1, cnt);
                vstd::bits::lemma_u32_shl_is_mul(wide, cnt);
                assert(buf < (1u32 << cnt));
                assert((buf | (wide << cnt)) == buf + (wide << cnt)) by (bit_vector)
                    requires
                        buf < (1u32 << cnt),
                        cnt < 16,
                        wide <= 255,
                ;
                assert(wide * w == w * wide) by (nonlinear_arith);
            }
            self.bit_buf = buf | (wide << cnt);
            self.bit_cnt = cnt + 8;
            self.pos = self.pos + 1;
        }
        let (buf, cnt) = (self.bit_buf, self.bit_cnt);
        proof {
            vstd::arithmetic::power2::lemma2_to64();
            if n < 16 {
                vstd::arithmetic::power2::lemma_pow2_strictly_increases(n as nat, 16);
            }
            vstd::arithmetic::power2::lemma_pow2_pos(n as nat);
            vstd::bits::lemma_u32_shl_is_mul(1, n);
            vstd::bits::lemma_u32_low_bits_mask_is_mod(buf, n as nat);
            vstd::bits::lemma_u32_shr_is_div(buf, n);
            lemma_number_div_mod(data, a, n as nat, (cnt - n) as nat);
            lemma_number_bound(data, a, n as nat);
            assert(n as nat + (cnt - n) as nat == cnt);
            assert(number(data, a, cnt as nat) == buf);
        }
        let mask: u32 = (1u32 << n) - 1;
        let out = buf & mask;
        self.bit_buf = buf >> n;
        self.bit_cnt = cnt - n;
        Ok(out)
    }

    /// Drops the bits that are left of the current byte.
    pub fn align_to_byte(&mut self)
        requires
            old(self).wf(),
        ensures
            final(self).wf(),
            final(self).data@ == old(self).data@,
            final(self).bit_cnt == 0,
            final(self).at() == 8 * ((old(self).at() + 7) / 8),
            final(self).pos == (old(self).at() + 7) / 8,
    {
        self.bit_buf = 0;
        self.bit_cnt = 0;
    }
}

} // verus!
