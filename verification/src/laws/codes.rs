//! Canonical prefix codes from the side of the one who writes them.

use vstd::arithmetic::power2::{lemma2_to64, lemma_pow2_pos, lemma_pow2_unfold, pow2};
use vstd::prelude::*;

use crate::err::Error;
use crate::zlib::deflate::{code_bits, lemma_code_bits_len};
use crate::zlib::huffman::{code_error, decode, end_code, with_len};
use crate::zlib::roundtrip::{holds, lemma_decode_code};

verus! {

/// How many codes of length `l` start with a code of at most that length.
pub open spec fn weight(lengths: Seq<u8>, l: nat) -> nat
    decreases lengths.len(),
{
    if lengths.len() == 0 {
        0
    } else {
        let k = lengths.last() as nat;
        weight(lengths.drop_last(), l) + if 0 < k <= l {
            pow2((l - k) as nat)
        } else {
            0
        }
    }
}

/// How many codes of length `l` come before that of the symbol `s`: those that start with a shorter
/// code, or with one of the same length of a lesser symbol.
pub open spec fn before(lengths: Seq<u8>, l: nat, s: int) -> nat
    decreases lengths.len(),
{
    if lengths.len() == 0 {
        0
    } else {
        let k = lengths.last() as nat;
        let t = lengths.len() - 1;
        before(lengths.drop_last(), l, s) + if 0 < k < l || (k == l && t < s) {
            pow2((l - k) as nat)
        } else {
            0
        }
    }
}

/// The code of a symbol as it is written.
pub open spec fn symbol_bits(lengths: Seq<u8>, s: int) -> Seq<nat> {
    code_bits(before(lengths, lengths[s] as nat, s), lengths[s] as nat)
}

/// Lengths for which there are enough codes.
pub open spec fn fits(lengths: Seq<u8>) -> bool {
    &&& forall|i: int| 0 <= i < lengths.len() ==> #[trigger] lengths[i] <= 15
    &&& weight(lengths, 15) <= 32768
}

/// A symbol that has a code.
pub open spec fn has_code(lengths: Seq<u8>, s: int) -> bool {
    0 <= s < lengths.len() && lengths[s] > 0
}

proof fn lemma_weight(lengths: Seq<u8>, l: nat)
    requires
        l > 0,
    ensures
        weight(lengths, l) == 2 * weight(lengths, (l - 1) as nat) + with_len(lengths, l as int).len(),
    decreases lengths.len(),
{
    if lengths.len() > 0 {
        lemma_weight(lengths.drop_last(), l);
        let k = lengths.last() as nat;
        lemma2_to64();
        if 0 < k < l {
            lemma_pow2_unfold((l - k) as nat);
            assert((l - k - 1) as nat == (l - 1 - k) as nat);
        }
    }
}

proof fn lemma_weight_zero(lengths: Seq<u8>)
    ensures
        weight(lengths, 0) == 0,
    decreases lengths.len(),
{
    if lengths.len() > 0 {
        lemma_weight_zero(lengths.drop_last());
    }
}

proof fn lemma_end_code(lengths: Seq<u8>, l: nat)
    ensures
        end_code(lengths, l) == weight(lengths, l),
    decreases l,
{
    if l == 0 {
        lemma_weight_zero(lengths);
    } else {
        lemma_end_code(lengths, (l - 1) as nat);
        lemma_weight(lengths, l);
    }
}

/// How many symbols before `s` have codes of length `l`.
spec fn rank(lengths: Seq<u8>, l: nat, s: int) -> nat
    decreases lengths.len(),
{
    if lengths.len() == 0 {
        0
    } else {
        rank(lengths.drop_last(), l, s) + if lengths.last() == l && lengths.len() - 1 < s {
            1nat
        } else {
            0
        }
    }
}

proof fn lemma_before(lengths: Seq<u8>, l: nat, s: int)
    requires
        l > 0,
    ensures
        before(lengths, l, s) == 2 * weight(lengths, (l - 1) as nat) + rank(lengths, l, s),
    decreases lengths.len(),
{
    if lengths.len() > 0 {
        lemma_before(lengths.drop_last(), l, s);
        let k = lengths.last() as nat;
        lemma2_to64();
        if 0 < k < l {
            lemma_pow2_unfold((l - k) as nat);
            assert((l - k - 1) as nat == (l - 1 - k) as nat);
        }
    }
}

proof fn lemma_rank(lengths: Seq<u8>, l: nat, s: int)
    ensures
        lengths.len() <= s ==> rank(lengths, l, s) == with_len(lengths, l as int).len(),
        0 <= s < lengths.len() && lengths[s] == l ==> rank(lengths, l, s) < with_len(lengths, l as int).len()
            && with_len(lengths, l as int)[rank(lengths, l, s) as int] == s,
    decreases lengths.len(),
{
    if lengths.len() > 0 {
        let rest = lengths.drop_last();
        lemma_rank(rest, l, s);
        if 0 <= s < rest.len() {
            assert(rest[s] == lengths[s]);
        }
    }
}

proof fn lemma_room(lengths: Seq<u8>, l: nat)
    requires
        weight(lengths, 15) <= 32768,
        l <= 15,
    ensures
        weight(lengths, l) <= pow2(l),
    decreases 15 - l,
{
    lemma2_to64();
    if l < 15 {
        lemma_room(lengths, l + 1);
        lemma_weight(lengths, l + 1);
        lemma_pow2_unfold(l + 1);
    }
}

/// Lengths that fit make a code.
pub proof fn lemma_fits(lengths: Seq<u8>)
    requires
        fits(lengths),
    ensures
        code_error(lengths) is None,
        forall|l: nat| l <= 15 ==> #[trigger] end_code(lengths, l) <= pow2(l),
{
    assert forall|l: nat| l <= 15 implies #[trigger] end_code(lengths, l) <= pow2(l) by {
        lemma_end_code(lengths, l);
        lemma_room(lengths, l);
    }
}

/// Lengths make a code exactly where none is above fifteen and there are enough codes for them all:
/// a code of length `k` takes up one in two to the `k` of what there is.
pub proof fn only_lengths_that_fit_make_a_code(lengths: Seq<u8>)
    ensures
        code_error(lengths) is None <==> fits(lengths),
{
    if fits(lengths) {
        lemma_fits(lengths);
    }
    if code_error(lengths) is None {
        lemma2_to64();
        assert(end_code(lengths, 15) <= pow2(15));
        lemma_end_code(lengths, 15);
    }
}

/// The code of a symbol that was written is decoded.
pub proof fn lemma_symbol(lengths: Seq<u8>, data: Seq<u8>, p: int, s: int)
    requires
        has_code(lengths, s),
        lengths[s] <= 15,
        end_code(lengths, lengths[s] as nat) <= pow2(lengths[s] as nat),
        holds(data, p, symbol_bits(lengths, s)),
    ensures
        decode(lengths, data, p) == Ok::<_, Error>((s, p + symbol_bits(lengths, s).len())),
        symbol_bits(lengths, s).len() == lengths[s],
{
    let l = lengths[s] as nat;
    let x = before(lengths, l, s);
    lemma_code_bits_len(x, l);
    lemma_before(lengths, l, s);
    lemma_rank(lengths, l, s);
    lemma_end_code(lengths, (l - 1) as nat);
    lemma_pow2_pos(l);
    assert(x < end_code(lengths, l));
    assert(x / pow2(l) == 0) by {
        vstd::arithmetic::div_mod::lemma_basic_div(x as int, pow2(l) as int);
    }
    lemma_decode_code(lengths, data, p, x, l, 1);
}

} // verus!
