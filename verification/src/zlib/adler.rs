//! The adler32 checksum (RFC 1950).

use vstd::prelude::*;

verus! {

/// The two running sums of adler32, before reduction: one more than the sum of the bytes, and the
/// sum of all values that the first sum went through.
pub open spec fn adler_sums(data: Seq<u8>) -> (nat, nat)
    decreases data.len(),
{
    if data.len() == 0 {
        (1, 0)
    } else {
        let (a, b) = adler_sums(data.drop_last());
        (a + data.last() as nat, b + a + data.last() as nat)
    }
}

/// The checksum: both sums modulo 65521, the second in the upper half.
pub open spec fn adler(data: Seq<u8>) -> u32 {
    let (a, b) = adler_sums(data);
    ((b % 65521) * 65536 + a % 65521) as u32
}

/// The checksum of `data`.
pub fn adler32(data: &[u8]) -> (r: u32)
    ensures
        r == adler(data@),
{
    let mut a: u32 = 1;
    let mut b: u32 = 0;
    let mut i: usize = 0;
    assert(data@.take(0) =~= Seq::<u8>::empty());
    while i < data.len()
        invariant
            i <= data.len(),
            a < 65521,
            b < 65521,
            a == adler_sums(data@.take(i as int)).0 % 65521,
            b == adler_sums(data@.take(i as int)).1 % 65521,
        decreases data.len() - i,
    {
        // 5552 is the greatest run for which neither sum leaves 32 bits.
        let end: usize = if data.len() - i > 5552 {
            i + 5552
        } else {
            data.len()
        };
        let ghost start = i;
        while i < end
            invariant
                start <= i <= end <= data.len(),
                end - start <= 5552,
                a as nat % 65521 == adler_sums(data@.take(i as int)).0 % 65521,
                b as nat % 65521 == adler_sums(data@.take(i as int)).1 % 65521,
                a <= 65520 + 255 * (i - start),
                2 * b <= 131040 + 131040 * (i - start) + 255 * ((i - start) * (i - start + 1)),
            decreases end - i,
        {
            let byte = data[i] as u32;
            proof {
                let k = i - start;
                assert(data@.take(i + 1).drop_last() =~= data@.take(i as int));
                assert((k + 1) * (k + 2) == k * (k + 1) + 2 * (k + 1)) by (nonlinear_arith);
                assert((k + 1) * (k + 2) <= 5552 * 5553) by (nonlinear_arith)
                    requires
                        0 <= k < 5552,
                ;
                let (sa, sb) = adler_sums(data@.take(i as int));
                lemma_add_mod(a as nat, sa, byte as nat);
                lemma_add_mod2(b as nat, sb, a as nat + byte as nat, sa + byte as nat);
            }
            a = a + byte;
            b = b + a;
            i += 1;
        }
        a = a % 65521;
        b = b % 65521;
    }
    assert(data@.take(i as int) =~= data@);
    assert((b << 16u32) | a == b * 65536 + a) by (bit_vector)
        requires
            a < 65536,
            b < 65536,
    ;
    (b << 16u32) | a
}

proof fn lemma_add_mod(x: nat, y: nat, d: nat)
    requires
        x % 65521 == y % 65521,
    ensures
        (x + d) % 65521 == (y + d) % 65521,
{
}

proof fn lemma_add_mod2(x: nat, y: nat, c: nat, d: nat)
    requires
        x % 65521 == y % 65521,
        c % 65521 == d % 65521,
    ensures
        (x + c) % 65521 == (y + d) % 65521,
{
}

} // verus!
