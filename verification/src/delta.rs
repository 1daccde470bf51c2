//! Deltas of packs.
//!
//! A delta holds the size of its base, the size of its result and instructions. An instruction
//! copies a part of the base or inserts bytes that stand in the delta.

use vstd::arithmetic::power2::pow2;
use vstd::prelude::*;

use crate::err::{agrees, Error, Result};

verus! {

// --- what a delta means ----------------------------------------------------------------------

/// A size that goes on at `p`: seven bits in each byte, the least significant first, where the
/// bytes so far give `low` for the bits below `shift`. Bits from the 64th on are dropped.
pub open spec fn varint_from(data: Seq<u8>, p: int, shift: nat, low: nat) -> Result<(nat, int)>
    decreases data.len() - p,
{
    if p >= data.len() {
        Err(Error::UnexpectedEof)
    } else {
        let v = (low + (data[p] % 128) as nat * pow2(shift)) % 0x1_0000_0000_0000_0000;
        if data[p] < 128 {
            Ok((v, p + 1))
        } else if shift + 7 >= 64 {
            Err(Error::Corrupt("varint overflow"))
        } else {
            varint_from(data, p + 1, shift + 7, v)
        }
    }
}

/// The size at `p`, and the position after it.
pub open spec fn varint(data: Seq<u8>, p: int) -> Result<(nat, int)> {
    varint_from(data, p, 0, 0)
}

/// A number of `n` bytes at `p`, the least significant first. Bytes whose flag is not set are zero
/// and absent; the flags are the low bits of `flags`.
pub open spec fn sparse(data: Seq<u8>, p: int, flags: nat, n: nat) -> Result<(nat, int)>
    decreases n,
{
    if n == 0 {
        Ok((0, p))
    } else if flags % 2 == 0 {
        match sparse(data, p, flags / 2, (n - 1) as nat) {
            Ok((v, q)) => Ok((256 * v, q)),
            Err(e) => Err(e),
        }
    } else if p >= data.len() {
        Err(Error::UnexpectedEof)
    } else {
        match sparse(data, p + 1, flags / 2, (n - 1) as nat) {
            Ok((v, q)) => Ok((data[p] as nat + 256 * v, q)),
            Err(e) => Err(e),
        }
    }
}

/// The part of the base that a copy instruction with the operands at `p` asks for, and the
/// position after it. The size zero stands for 65536.
pub open spec fn copied(base: Seq<u8>, delta: Seq<u8>, p: int, op: u8) -> Result<(Seq<u8>, int)> {
    match sparse(delta, p, op as nat % 16, 4) {
        Err(e) => Err(e),
        Ok((offset, q)) => match sparse(delta, q, op as nat / 16 % 8, 3) {
            Err(e) => Err(e),
            Ok((n, end)) => {
                let size: nat = if n == 0 {
                    0x10000
                } else {
                    n
                };
                if offset + size > usize::MAX {
                    Err(Error::UnexpectedEof)
                } else if offset + size > base.len() {
                    Err(Error::Corrupt("delta copy range"))
                } else {
                    Ok((base.subrange(offset as int, (offset + size) as int), end))
                }
            },
        },
    }
}

/// What the instruction at `p` adds to the result, and the position after it.
pub open spec fn instruction(base: Seq<u8>, delta: Seq<u8>, p: int) -> Result<(Seq<u8>, int)> {
    let op = delta[p];
    if op >= 128 {
        copied(base, delta, p + 1, op)
    } else if op == 0 {
        Err(Error::Corrupt("delta opcode 0"))
    } else if p + 1 + op > delta.len() {
        Err(Error::UnexpectedEof)
    } else {
        Ok((delta.subrange(p + 1, p + 1 + op), p + 1 + op))
    }
}

/// An instruction takes up bytes that are there.
pub proof fn lemma_instruction(base: Seq<u8>, delta: Seq<u8>, p: int)
    requires
        0 <= p < delta.len(),
    ensures
        instruction(base, delta, p) matches Ok((added, q)) ==> p < q <= delta.len(),
{
    let op = delta[p];
    lemma_sparse(delta, p + 1, op as nat % 16, 4);
    if let Ok((offset, q)) = sparse(delta, p + 1, op as nat % 16, 4) {
        lemma_sparse(delta, q, op as nat / 16 % 8, 3);
    }
}

proof fn lemma_sparse(data: Seq<u8>, p: int, flags: nat, n: nat)
    requires
        0 <= p <= data.len(),
    ensures
        sparse(data, p, flags, n) matches Ok((v, q)) ==> p <= q <= data.len() && v < vstd::arithmetic::power::pow(256, n),
    decreases n,
{
    vstd::arithmetic::power::lemma_pow0(256);
    if n > 0 {
        vstd::arithmetic::power::lemma_pow1(256);
        vstd::arithmetic::power::lemma_pow_adds(256, 1, (n - 1) as nat);
        lemma_sparse(data, p, flags / 2, (n - 1) as nat);
        if p < data.len() {
            lemma_sparse(data, p + 1, flags / 2, (n - 1) as nat);
        }
    }
}

/// What the instructions from `p` on make of `out`.
pub open spec fn instructions(base: Seq<u8>, delta: Seq<u8>, p: int, out: Seq<u8>) -> Result<Seq<u8>>
    decreases delta.len() - p,
{
    if p < 0 || p >= delta.len() {
        Ok(out)
    } else {
        proof {
            lemma_instruction(base, delta, p);
        }
        match instruction(base, delta, p) {
            Err(e) => Err(e),
            Ok((added, q)) => instructions(base, delta, q, out + added),
        }
    }
}

/// The result of applying a delta to its base.
#[verifier::opaque]
pub open spec fn applied(base: Seq<u8>, delta: Seq<u8>) -> Result<Seq<u8>> {
    match varint(delta, 0) {
        Err(e) => Err(e),
        Ok((base_size, p)) => if base_size != base.len() {
            Err(Error::Corrupt("delta base size"))
        } else {
            match varint(delta, p) {
                Err(e) => Err(e),
                Ok((result_size, q)) => match instructions(base, delta, q, Seq::empty()) {
                    Err(e) => Err(e),
                    Ok(out) => if out.len() != result_size {
                        Err(Error::Corrupt("delta result size"))
                    } else {
                        Ok(out)
                    },
                },
            }
        },
    }
}

// --- applying it -----------------------------------------------------------------------------

fn read_varint(data: &[u8], start: usize) -> (r: Result<(u64, usize)>)
    requires
        start <= data@.len(),
    ensures
        match r {
            Ok((v, p)) => varint(data@, start as int) == Ok::<_, Error>((v as nat, p as int)) && start < p
                <= data@.len(),
            Err(e) => varint(data@, start as int) == Err::<(nat, int), _>(e),
        },
{
    let mut pos: usize = start;
    let mut value: u64 = 0;
    let mut shift: u32 = 0;
    let mut scale: u128 = 1;
    proof {
        vstd::arithmetic::power2::lemma2_to64();
    }
    loop
        invariant
            start <= pos <= data@.len(),
            shift < 64,
            scale == pow2(shift as nat),
            varint(data@, start as int) == varint_from(data@, pos as int, shift as nat, value as nat),
        decreases data@.len() - pos,
    {
        if pos >= data.len() {
            return Err(Error::UnexpectedEof);
        }
        let b = data[pos];
        proof {
            vstd::arithmetic::power2::lemma2_to64();
            vstd::arithmetic::power2::lemma2_to64_rest();
            vstd::arithmetic::power2::lemma_pow2_strictly_increases(shift as nat, 64);
            vstd::arithmetic::power2::lemma_pow2_adds(shift as nat, 7);
        }
        assert((b % 128) as u128 * scale <= 127 * scale) by (nonlinear_arith)
            requires
                b % 128 <= 127,
        ;
        value = ((value as u128 + (b % 128) as u128 * scale) % 0x1_0000_0000_0000_0000u128) as u64;
        pos += 1;
        if b < 128 {
            return Ok((value, pos));
        }
        if shift + 7 >= 64 {
            return Err(Error::Corrupt("varint overflow"));
        }
        shift += 7;
        scale = scale * 128;
    }
}

fn read_sparse(data: &[u8], pos: usize, flags: u8, n: u32) -> (r: Result<(u64, usize)>)
    requires
        pos <= data@.len(),
        n <= 4,
    ensures
        match r {
            Ok((v, p)) => sparse(data@, pos as int, flags as nat, n as nat) == Ok::<_, Error>(
                (v as nat, p as int),
            ) && pos <= p <= data@.len() && v < vstd::arithmetic::power::pow(256, n as nat),
            Err(e) => sparse(data@, pos as int, flags as nat, n as nat) == Err::<(nat, int), _>(e),
        },
    decreases n,
{
    proof {
        lemma_sparse(data@, pos as int, flags as nat, n as nat);
        reveal_with_fuel(vstd::arithmetic::power::pow, 5);
    }
    if n == 0 {
        return Ok((0, pos));
    }
    if flags % 2 == 0 {
        let (v, q) = read_sparse(data, pos, flags / 2, n - 1)?;
        Ok((256 * v, q))
    } else if pos >= data.len() {
        Err(Error::UnexpectedEof)
    } else {
        let (v, q) = read_sparse(data, pos + 1, flags / 2, n - 1)?;
        Ok((data[pos] as u64 + 256 * v, q))
    }
}

/// Carries out the instruction at `pos`; gives back the position after it.
fn step(base: &[u8], delta: &[u8], pos: usize, out: &mut Vec<u8>) -> (r: Result<usize>)
    requires
        pos < delta@.len(),
    ensures
        match r {
            Ok(q) => pos < q <= delta@.len() && (instruction(base@, delta@, pos as int) matches Ok(
                (added, end),
            ) && end == q && final(out)@ == old(out)@ + added),
            Err(e) => instruction(base@, delta@, pos as int) == Err::<(Seq<u8>, int), _>(e),
        },
{
    let op = delta[pos];
    if op >= 128 {
        let (offset, after) = read_sparse(delta, pos + 1, op % 16, 4)?;
        let (n, end) = read_sparse(delta, after, op / 16 % 8, 3)?;
        proof {
            reveal_with_fuel(vstd::arithmetic::power::pow, 5);
        }
        let size: u64 = if n == 0 {
            0x10000
        } else {
            n
        };
        let last: u64 = offset + size;
        if last > usize::MAX as u64 {
            return Err(Error::UnexpectedEof);
        }
        if last > base.len() as u64 {
            return Err(Error::Corrupt("delta copy range"));
        }
        out.extend_from_slice(&base[offset as usize..last as usize]);
        Ok(end)
    } else if op == 0 {
        Err(Error::Corrupt("delta opcode 0"))
    } else {
        let n: usize = op as usize;
        if delta.len() - pos - 1 < n {
            return Err(Error::UnexpectedEof);
        }
        out.extend_from_slice(&delta[pos + 1..pos + 1 + n]);
        Ok(pos + 1 + n)
    }
}

/// Applies a delta to its base.
pub fn apply(base: &[u8], delta: &[u8]) -> (r: Result<Vec<u8>>)
    ensures
        agrees(r, applied(base@, delta@)),
{
    proof {
        reveal(applied);
    }
    let (base_size, after) = read_varint(delta, 0)?;
    if base_size != base.len() as u64 {
        return Err(Error::Corrupt("delta base size"));
    }
    let (result_size, first) = read_varint(delta, after)?;
    let mut out: Vec<u8> = Vec::new();
    let mut pos: usize = first;
    while pos < delta.len()
        invariant
            pos <= delta.len(),
            varint(delta@, 0) == Ok::<_, Error>((base@.len(), after as int)),
            varint(delta@, after as int) == Ok::<_, Error>((result_size as nat, first as int)),
            instructions(base@, delta@, first as int, Seq::empty()) == instructions(
                base@,
                delta@,
                pos as int,
                out@,
            ),
        decreases delta.len() - pos,
    {
        proof {
            reveal(applied);
        }
        pos = step(base, delta, pos, &mut out)?;
    }
    if out.len() as u64 != result_size {
        return Err(Error::Corrupt("delta result size"));
    }
    Ok(out)
}

} // verus!
