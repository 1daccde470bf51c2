//! Canonical Huffman codes (RFC 1951, 3.2.2).
//!
//! A code is given by the code length of every symbol; zero means that the symbol has none. Codes
//! of one length are consecutive numbers in the order of their symbols, and a shorter code comes
//! before a longer one. A code is written most significant bit first.

use vstd::arithmetic::power2::pow2;
use vstd::prelude::*;

use super::bits::{bit, BitReader};
use crate::err::{Error, Result};

verus! {

/// The symbols whose code length is `l`, in ascending order.
pub open spec fn with_len(lengths: Seq<u8>, l: int) -> Seq<int>
    decreases lengths.len(),
{
    if lengths.len() == 0 {
        Seq::empty()
    } else {
        let rest = with_len(lengths.drop_last(), l);
        if lengths.last() == l {
            rest.push(lengths.len() - 1)
        } else {
            rest
        }
    }
}

/// One more than the greatest code of length `l`.
pub open spec fn end_code(lengths: Seq<u8>, l: nat) -> nat
    decreases l,
{
    if l == 0 {
        0
    } else {
        2 * end_code(lengths, (l - 1) as nat) + with_len(lengths, l as int).len()
    }
}

/// The least code of length `l`.
pub open spec fn first_code(lengths: Seq<u8>, l: nat) -> nat
    recommends
        l > 0,
{
    2 * end_code(lengths, (l - 1) as nat)
}

/// Some length asks for more codes than there are.
pub open spec fn oversubscribed(lengths: Seq<u8>) -> bool {
    exists|l: nat| 1 <= l <= 15 && #[trigger] end_code(lengths, l) > pow2(l)
}

/// Whether the lengths make a code, and if not, why.
pub open spec fn code_error(lengths: Seq<u8>) -> Option<Error> {
    if exists|i: int| 0 <= i < lengths.len() && #[trigger] lengths[i] > 15 {
        Some(Error::Corrupt("huffman code length"))
    } else if oversubscribed(lengths) {
        Some(Error::Corrupt("oversubscribed huffman table"))
    } else {
        None
    }
}

/// Decoding goes on at `p`, with the bits so far making the number `code` of length `l - 1`.
pub open spec fn decode_from(lengths: Seq<u8>, data: Seq<u8>, p: int, l: nat, code: nat) -> Result<
    (int, int),
>
    decreases 16 - l,
{
    if l > 15 {
        Err(Error::Corrupt("invalid huffman code"))
    } else if p >= 8 * data.len() {
        Err(Error::UnexpectedEof)
    } else {
        let v = 2 * code + bit(data, p);
        if v < end_code(lengths, l) {
            Ok((with_len(lengths, l as int)[v - first_code(lengths, l)], p + 1))
        } else {
            decode_from(lengths, data, p + 1, l + 1, v)
        }
    }
}

/// The symbol whose code starts at `p`, and the position after it.
pub open spec fn decode(lengths: Seq<u8>, data: Seq<u8>, p: int) -> Result<(int, int)> {
    decode_from(lengths, data, p, 1, 0)
}

/// A decoded symbol takes at least one bit and no more than there are.
pub proof fn lemma_decode_advances(lengths: Seq<u8>, data: Seq<u8>, p: int, l: nat, code: nat)
    ensures
        decode_from(lengths, data, p, l, code) matches Ok((s, q)) ==> p < q <= 8 * data.len(),
    decreases 16 - l,
{
    if l <= 15 && p < 8 * data.len() {
        lemma_decode_advances(lengths, data, p + 1, l + 1, 2 * code + bit(data, p));
    }
}

/// The listed symbols are those of the length, in ascending order.
pub proof fn lemma_with_len(lengths: Seq<u8>, l: int)
    ensures
        with_len(lengths, l).len() <= lengths.len(),
        forall|k: int|
            0 <= k < with_len(lengths, l).len() ==> 0 <= #[trigger] with_len(lengths, l)[k]
                < lengths.len() && lengths[with_len(lengths, l)[k]] == l,
    decreases lengths.len(),
{
    if lengths.len() > 0 {
        lemma_with_len(lengths.drop_last(), l);
    }
}

/// A decoded symbol has a code.
pub proof fn lemma_decode_symbol(lengths: Seq<u8>, data: Seq<u8>, p: int, l: nat, code: nat)
    requires
        l >= 1,
        code >= end_code(lengths, (l - 1) as nat),
    ensures
        decode_from(lengths, data, p, l, code) matches Ok((s, q)) ==> 0 <= s < lengths.len(),
    decreases 16 - l,
{
    if l <= 15 && p < 8 * data.len() {
        let v = 2 * code + bit(data, p);
        lemma_with_len(lengths, l as int);
        if v >= end_code(lengths, l) {
            lemma_decode_symbol(lengths, data, p + 1, l + 1, v);
        } else {
            let k = v - first_code(lengths, l);
            assert(0 <= k < with_len(lengths, l as int).len());
            assert(0 <= with_len(lengths, l as int)[k] < lengths.len());
        }
    }
}

// --- the decoding table --------------------------------------------------------

/// How many codes are shorter than `l`.
spec fn shorter(lengths: Seq<u8>, l: nat) -> nat
    decreases l,
{
    if l <= 1 {
        0
    } else {
        shorter(lengths, (l - 1) as nat) + with_len(lengths, l - 1).len()
    }
}

/// The decoding table of a code.
pub struct Huffman {
    /// The number of codes of each length.
    count: [u16; 16],
    /// The symbols in the order of their codes.
    symbols: Vec<u16>,
}

/// Fewer codes are shorter than a smaller length.
proof fn lemma_shorter_mono(lengths: Seq<u8>, a: nat, b: nat)
    requires
        1 <= a <= b,
    ensures
        shorter(lengths, a) <= shorter(lengths, b),
    decreases b - a,
{
    if a < b {
        lemma_shorter_mono(lengths, a, (b - 1) as nat);
    }
}

/// Taking in one more symbol.
proof fn lemma_with_len_step(lengths: Seq<u8>, i: int, l: int)
    requires
        0 <= i < lengths.len(),
    ensures
        with_len(lengths.take(i + 1), l) == (if lengths[i] == l {
            with_len(lengths.take(i), l).push(i)
        } else {
            with_len(lengths.take(i), l)
        }),
{
    assert(lengths.take(i + 1).drop_last() =~= lengths.take(i));
}

/// The symbols seen so far are the first of all the symbols of the length.
proof fn lemma_with_len_prefix(lengths: Seq<u8>, i: int, l: int)
    requires
        0 <= i <= lengths.len(),
    ensures
        with_len(lengths.take(i), l).len() <= with_len(lengths, l).len(),
        i < lengths.len() && lengths[i] == l ==> with_len(lengths.take(i), l).len() < with_len(
            lengths,
            l,
        ).len(),
        forall|k: int|
            0 <= k < with_len(lengths.take(i), l).len() ==> with_len(lengths.take(i), l)[k]
                == #[trigger] with_len(lengths, l)[k],
    decreases lengths.len() - i,
{
    if i < lengths.len() {
        lemma_with_len_step(lengths, i, l);
        lemma_with_len_prefix(lengths, i + 1, l);
    } else {
        assert(lengths.take(i) =~= lengths);
    }
}

impl Huffman {
    /// The table decodes the code with these lengths.
    pub closed spec fn decodes(&self, lengths: Seq<u8>) -> bool {
        &&& lengths.len() <= 320
        &&& forall|l: int| 1 <= l <= 15 ==> #[trigger] self.count@[l] == with_len(lengths, l).len()
        &&& self.symbols@.len() == shorter(lengths, 16)
        &&& forall|l: nat, k: int|
            1 <= l <= 15 && 0 <= k < with_len(lengths, l as int).len()
                ==> self.symbols@[shorter(lengths, l) + k] == #[trigger] with_len(
                lengths,
                l as int,
            )[k]
    }

    /// Makes the decoding table of the code with the given lengths.
    pub fn new(lengths: &[u8]) -> (r: Result<Self>)
        requires
            lengths@.len() <= 320,
        ensures
            match code_error(lengths@) {
                Some(e) => r matches Err(f) && f == e,
                None => r matches Ok(h) && h.decodes(lengths@),
            },
    {
        let ghost ls = lengths@;
        let mut count = [0u16; 16];
        let mut i: usize = 0;
        assert(ls.take(0) =~= Seq::<u8>::empty());
        while i < lengths.len()
            invariant
                i <= lengths.len(),
                ls == lengths@,
                ls.len() <= 320,
                forall|l: int| 0 <= l < 16 ==> #[trigger] count@[l] == with_len(ls.take(i as int), l).len(),
                forall|j: int| 0 <= j < i ==> ls[j] <= 15,
            decreases lengths.len() - i,
        {
            let len = lengths[i];
            if len > 15 {
                return Err(Error::Corrupt("huffman code length"));
            }
            let l = len as usize;
            proof {
                lemma_with_len(ls.take(i as int), l as int);
                assert forall|m: int| 0 <= m < 16 implies with_len(ls.take(i + 1), m).len() == #[trigger] count@[m]
                    + (if m == l { 1int } else { 0 }) by {
                    lemma_with_len_step(ls, i as int, m);
                }
            }
            count[l] = count[l] + 1;
            i += 1;
        }
        assert(ls.take(i as int) =~= ls);

        let mut left: i32 = 1;
        let mut l: usize = 1;
        proof {
            vstd::arithmetic::power2::lemma2_to64();
        }
        while l < 16
            invariant
                1 <= l <= 16,
                ls == lengths@,
                ls.len() <= 320,
                forall|m: int| 0 <= m < 16 ==> #[trigger] count@[m] == with_len(ls, m).len(),
                forall|j: int| 0 <= j < ls.len() ==> ls[j] <= 15,
                left == pow2((l - 1) as nat) - end_code(ls, (l - 1) as nat),
                0 <= left <= 32768,
                forall|m: nat| 1 <= m < l ==> #[trigger] end_code(ls, m) <= pow2(m),
            decreases 16 - l,
        {
            proof {
                vstd::arithmetic::power2::lemma2_to64();
                vstd::arithmetic::power2::lemma_pow2_unfold(l as nat);
                if l < 15 {
                    vstd::arithmetic::power2::lemma_pow2_strictly_increases(l as nat, 15);
                }
                lemma_with_len(ls, l as int);
                assert(count@[l as int] == with_len(ls, l as int).len());
            }
            left = left * 2 - count[l] as i32;
            assert(left == pow2(l as nat) - end_code(ls, l as nat));
            if left < 0 {
                assert(end_code(ls, l as nat) > pow2(l as nat));
                return Err(Error::Corrupt("oversubscribed huffman table"));
            }
            l += 1;
        }
        assert(!oversubscribed(ls));

        let mut offsets = [0u16; 16];
        let mut n: usize = 1;
        while n < 15
            invariant
                1 <= n <= 15,
                ls.len() <= 320,
                forall|m: int| 0 <= m < 16 ==> #[trigger] count@[m] == with_len(ls, m).len(),
                forall|m: nat| 1 <= m <= n ==> #[trigger] offsets@[m as int] == shorter(ls, m),
                offsets@[n as int] <= 320 * n,
            decreases 15 - n,
        {
            proof {
                lemma_with_len(ls, n as int);
                assert(count@[n as int] == with_len(ls, n as int).len());
                assert(offsets@[n as nat as int] == shorter(ls, n as nat));
            }
            offsets[n + 1] = offsets[n] + count[n];
            assert(shorter(ls, (n + 1) as nat) == shorter(ls, n as nat) + with_len(ls, n as int).len());
            n += 1;
        }
        proof {
            lemma_with_len(ls, 15);
            assert(count@[15] == with_len(ls, 15).len());
            assert(offsets@[15nat as int] == shorter(ls, 15));
            assert(shorter(ls, 16) == shorter(ls, 15) + with_len(ls, 15).len());
        }
        let total = offsets[15] as usize + count[15] as usize;
        let mut symbols: Vec<u16> = vec![0u16; total];
        let mut sym: usize = 0;
        assert(ls.take(0) =~= Seq::<u8>::empty());
        while sym < lengths.len()
            invariant
                sym <= lengths.len(),
                ls == lengths@,
                ls.len() <= 320,
                forall|j: int| 0 <= j < ls.len() ==> ls[j] <= 15,
                symbols@.len() == shorter(ls, 16),
                shorter(ls, 16) <= 5120,
                forall|m: nat| 1 <= m <= 15 ==> #[trigger] offsets@[m as int] == shorter(ls, m)
                    + with_len(ls.take(sym as int), m as int).len(),
                forall|m: nat, k: int|
                    1 <= m <= 15 && 0 <= k < with_len(ls.take(sym as int), m as int).len()
                        ==> symbols@[shorter(ls, m) + k] == #[trigger] with_len(
                        ls.take(sym as int),
                        m as int,
                    )[k],
            decreases lengths.len() - sym,
        {
            let len = lengths[sym] as usize;
            let ghost old_symbols = symbols@;
            let ghost old_offsets = offsets@;
            let ghost before = ls.take(sym as int);
            let ghost after = ls.take(sym + 1);
            if len != 0 {
                proof {
                    assert(offsets@[len as nat as int] == shorter(ls, len as nat) + with_len(
                        before,
                        len as int,
                    ).len());
                    lemma_with_len_prefix(ls, sym as int, len as int);
                    lemma_shorter_mono(ls, (len + 1) as nat, 16);
                }
                let at = offsets[len] as usize;
                symbols[at] = sym as u16;
                offsets[len] = offsets[len] + 1;
            }
            proof {
                assert forall|m: nat| 1 <= m <= 15 implies #[trigger] offsets@[m as int] == shorter(ls, m)
                    + with_len(after, m as int).len() by {
                    lemma_with_len_step(ls, sym as int, m as int);
                    assert(old_offsets[m as int] == shorter(ls, m) + with_len(before, m as int).len());
                }
                assert forall|m: nat, k: int|
                    1 <= m <= 15 && 0 <= k < with_len(after, m as int).len() implies symbols@[shorter(
                    ls,
                    m,
                ) + k] == #[trigger] with_len(after, m as int)[k] by {
                    lemma_with_len_step(ls, sym as int, m as int);
                    lemma_with_len_prefix(ls, sym + 1, m as int);
                    lemma_with_len_prefix(ls, sym as int, m as int);
                    lemma_shorter_mono(ls, m + 1, 16);
                    if len != 0 {
                        lemma_with_len_prefix(ls, sym as int, len as int);
                        if m < len {
                            lemma_shorter_mono(ls, m + 1, len as nat);
                        } else if m > len {
                            lemma_shorter_mono(ls, (len + 1) as nat, m);
                        }
                    }
                    if k < with_len(before, m as int).len() {
                        assert(old_symbols[shorter(ls, m) + k] == with_len(before, m as int)[k]);
                    }
                }
            }
            sym += 1;
        }
        assert(ls.take(sym as int) =~= ls);
        Ok(Huffman { count, symbols })
    }

    /// Decodes one symbol.
    pub fn decode(&self, br: &mut BitReader<'_>, Ghost(lengths): Ghost<Seq<u8>>) -> (r: Result<u16>)
        requires
            self.decodes(lengths),
            old(br).wf(),
        ensures
            final(br).data@ == old(br).data@,
            match decode(lengths, old(br).data@, old(br).at()) {
                Ok((s, q)) => r == Ok::<u16, Error>(s as u16) && 0 <= s < 320 && final(br).wf()
                    && final(br).at() == q,
                Err(e) => r == Err::<u16, Error>(e),
            },
    {
        let ghost data = br.data@;
        let ghost p = br.at();
        let mut code: u32 = 0;
        let mut first: u32 = 0;
        let mut index: u32 = 0;
        let mut l: usize = 1;
        proof {
            vstd::arithmetic::power2::lemma2_to64();
            lemma_decode_symbol(lengths, data, p, 1, 0);
        }
        let ghost mut prev: nat = 0;
        while l < 16
            invariant
                1 <= l <= 16,
                self.decodes(lengths),
                data == old(br).data@,
                p == old(br).at(),
                br.wf(),
                br.data@ == data,
                code == 2 * prev,
                prev < pow2((l - 1) as nat),
                prev >= end_code(lengths, (l - 1) as nat),
                first == 2 * end_code(lengths, (l - 1) as nat),
                index == shorter(lengths, l as nat),
                index <= 320 * l,
                decode(lengths, data, p) == decode_from(lengths, data, br.at(), l as nat, prev),
                decode(lengths, data, p) matches Ok((s, q)) ==> 0 <= s < lengths.len(),
            decreases 16 - l,
        {
            let ghost a = br.at();
            let b = br.bits(1)?;
            proof {
                vstd::arithmetic::power2::lemma2_to64();
                vstd::arithmetic::power2::lemma_pow2_unfold(l as nat);
                if l < 15 {
                    vstd::arithmetic::power2::lemma_pow2_strictly_increases(l as nat, 15);
                }
                reveal_with_fuel(super::bits::number, 2);
                assert(b == bit(data, a));
                lemma_with_len(lengths, l as int);
                assert(self.count@[l as int] == with_len(lengths, l as int).len());
                assert(end_code(lengths, l as nat) == first + with_len(lengths, l as int).len());
            }
            code = code + b;
            let count = self.count[l] as u32;
            if code < first + count {
                let at = (index + (code - first)) as usize;
                proof {
                    let k = code - first;
                    lemma_shorter_mono(lengths, (l + 1) as nat, 16);
                    assert(self.symbols@[shorter(lengths, l as nat) + k] == with_len(
                        lengths,
                        l as nat as int,
                    )[k]);
                }
                return Ok(self.symbols[at]);
            }
            index = index + count;
            first = (first + count) * 2;
            proof {
                prev = code as nat;
                assert(shorter(lengths, (l + 1) as nat) == shorter(lengths, l as nat) + with_len(
                    lengths,
                    l as int,
                ).len());
            }
            code = code * 2;
            l += 1;
        }
        Err(Error::Corrupt("invalid huffman code"))
    }
}

} // verus!
