//! Deltas from the side of the one who writes them.

use vstd::arithmetic::power2::{lemma2_to64, lemma_pow2_adds, lemma_pow2_pos, lemma_pow2_unfold, pow2};
use vstd::prelude::*;

use crate::delta::{applied, instruction, instructions, sparse, varint, varint_from};
use crate::err::Error;

use super::{lemma_stands_byte, lemma_stands_split, stands_at};

verus! {

// --- sizes ------------------------------------------------------------------------------------------

/// A size in digits to the base 128, the least first; all but the last have the high bit set.
pub open spec fn size_bytes(digits: Seq<u8>) -> Seq<u8> {
    Seq::new(
        digits.len(),
        |i: int|
            if i + 1 < digits.len() {
                (digits[i] + 128) as u8
            } else {
                digits[i]
            },
    )
}

/// The number that digits to the base 128 stand for, the least first.
pub open spec fn size_value(digits: Seq<u8>) -> nat
    decreases digits.len(),
{
    if digits.len() == 0 {
        0
    } else {
        digits[0] as nat + 128 * size_value(digits.skip(1))
    }
}

/// Digits that a size may have.
pub open spec fn is_size(digits: Seq<u8>, n: nat) -> bool {
    &&& 1 <= digits.len() <= 10
    &&& forall|i: int| 0 <= i < digits.len() ==> #[trigger] digits[i] < 128
    &&& size_value(digits) == n
    &&& n < 0x1_0000_0000_0000_0000
}

proof fn lemma_size_from(data: Seq<u8>, p: int, digits: Seq<u8>, shift: nat, low: nat)
    requires
        stands_at(data, p, size_bytes(digits)),
        digits.len() > 0,
        shift + 7 * digits.len() <= 70,
        forall|i: int| 0 <= i < digits.len() ==> #[trigger] digits[i] < 128,
        low + pow2(shift) * size_value(digits) < 0x1_0000_0000_0000_0000,
    ensures
        varint_from(data, p, shift, low) == Ok::<_, Error>(
            (low + pow2(shift) * size_value(digits), p + digits.len()),
        ),
    decreases digits.len(),
{
    let bytes = size_bytes(digits);
    lemma_stands_byte(data, p, bytes, 0);
    lemma_pow2_pos(shift);
    let w = pow2(shift) as int;
    let rest = digits.skip(1);
    let d = digits[0] as int;
    let more = size_value(rest) as int;
    lemma2_to64();
    lemma_pow2_adds(shift, 7);
    assert(w * (d + 128 * more) == d * w + (w * 128) * more) by (nonlinear_arith);
    assert((w * 128) * more >= 0) by (nonlinear_arith)
        requires
            w > 0,
            more >= 0,
    ;
    assert(d * w >= 0) by (nonlinear_arith)
        requires
            w > 0,
            d >= 0,
    ;
    if digits.len() > 1 {
        assert(data[p] == d + 128);
        assert(data[p] % 128 == d);
        assert(bytes =~= seq![bytes[0]] + size_bytes(rest));
        lemma_stands_split(data, p, seq![bytes[0]], size_bytes(rest));
        lemma_size_from(data, p + 1, rest, shift + 7, (low + d * w) as nat);
    } else {
        assert(rest =~= Seq::<u8>::empty());
        assert(more == 0);
        assert(data[p] % 128 == d);
    }
}

/// A size that was written is read.
proof fn lemma_size(data: Seq<u8>, p: int, digits: Seq<u8>, n: nat)
    requires
        stands_at(data, p, size_bytes(digits)),
        is_size(digits, n),
    ensures
        varint(data, p) == Ok::<_, Error>((n, p + digits.len())),
{
    lemma2_to64();
    assert(pow2(0) * size_value(digits) == size_value(digits));
    lemma_size_from(data, p, digits, 0, 0);
}

// --- instructions -----------------------------------------------------------------------------------

/// An instruction. A copy has seven operand bytes, four for the offset and three for the size, the
/// least significant first; those that are absent are zero.
pub enum Part {
    Copy(Seq<Option<u8>>),
    Insert(Seq<u8>),
}

/// The number that `n` operand bytes from the `i`-th on stand for.
pub open spec fn operand(slots: Seq<Option<u8>>, i: int, n: nat) -> nat
    decreases n,
{
    if n == 0 {
        0
    } else {
        (match slots[i] {
            Some(b) => b as nat,
            None => 0,
        }) + 256 * operand(slots, i + 1, (n - 1) as nat)
    }
}

/// A flag for each of `n` operand bytes that is there, the least significant bit for the first.
pub open spec fn flags(slots: Seq<Option<u8>>, i: int, n: nat) -> nat
    decreases n,
{
    if n == 0 {
        0
    } else {
        (if slots[i] is Some {
            1nat
        } else {
            0
        }) + 2 * flags(slots, i + 1, (n - 1) as nat)
    }
}

/// The operand bytes that are there.
pub open spec fn present(slots: Seq<Option<u8>>, i: int, n: nat) -> Seq<u8>
    decreases n,
{
    if n == 0 {
        Seq::empty()
    } else {
        (match slots[i] {
            Some(b) => seq![b],
            None => Seq::empty(),
        }) + present(slots, i + 1, (n - 1) as nat)
    }
}

/// What the instruction says to add; nothing where it copies what the base does not have.
pub open spec fn added(base: Seq<u8>, part: Part) -> Option<Seq<u8>> {
    match part {
        Part::Insert(bytes) => Some(bytes),
        Part::Copy(slots) => {
            let offset = operand(slots, 0, 4);
            let size = if operand(slots, 4, 3) == 0 {
                65536
            } else {
                operand(slots, 4, 3)
            };
            if offset + size <= base.len() {
                Some(base.subrange(offset as int, (offset + size) as int))
            } else {
                None
            }
        },
    }
}

/// The instruction as it is written.
pub open spec fn part_bytes(part: Part) -> Seq<u8> {
    match part {
        Part::Insert(bytes) => seq![bytes.len() as u8] + bytes,
        Part::Copy(slots) => seq![(128 + flags(slots, 0, 7)) as u8] + present(slots, 0, 7),
    }
}

pub open spec fn is_part(part: Part) -> bool {
    match part {
        Part::Insert(bytes) => 1 <= bytes.len() <= 127,
        Part::Copy(slots) => slots.len() == 7,
    }
}

/// The instructions one after the other.
pub open spec fn parts_bytes(parts: Seq<Part>) -> Seq<u8>
    decreases parts.len(),
{
    if parts.len() == 0 {
        Seq::empty()
    } else {
        part_bytes(parts[0]) + parts_bytes(parts.skip(1))
    }
}

/// What the instructions add, one after the other.
pub open spec fn spelled(base: Seq<u8>, parts: Seq<Part>) -> Option<Seq<u8>>
    decreases parts.len(),
{
    if parts.len() == 0 {
        Some(Seq::empty())
    } else {
        match (added(base, parts[0]), spelled(base, parts.skip(1))) {
            (Some(first), Some(rest)) => Some(first + rest),
            _ => None,
        }
    }
}

proof fn lemma_flags(slots: Seq<Option<u8>>, i: int, a: nat, b: nat)
    ensures
        flags(slots, i, a) < pow2(a),
        flags(slots, i, a + b) == flags(slots, i, a) + pow2(a) * flags(slots, i + a, b),
        present(slots, i, a + b) == present(slots, i, a) + present(slots, i + a, b),
    decreases a,
{
    lemma2_to64();
    if a > 0 {
        lemma_flags(slots, i + 1, (a - 1) as nat, b);
        lemma_pow2_unfold(a);
        let x = pow2((a - 1) as nat) as int;
        let y = flags(slots, i + a, b) as int;
        assert((a + b - 1) as nat == (a - 1) as nat + b);
        assert(2 * (x * y) == (2 * x) * y) by (nonlinear_arith);
        assert(present(slots, i, a + b) =~= present(slots, i, a) + present(slots, i + a, b));
    } else {
        assert(present(slots, i, 0) + present(slots, i, b) =~= present(slots, i, b));
    }
}

/// Operand bytes that were written are read.
proof fn lemma_operand(data: Seq<u8>, p: int, slots: Seq<Option<u8>>, i: int, n: nat)
    requires
        stands_at(data, p, present(slots, i, n)),
    ensures
        sparse(data, p, flags(slots, i, n), n) == Ok::<_, Error>(
            (operand(slots, i, n), p + present(slots, i, n).len()),
        ),
    decreases n,
{
    if n > 0 {
        let rest = present(slots, i + 1, (n - 1) as nat);
        let f = flags(slots, i, n);
        assert(f / 2 == flags(slots, i + 1, (n - 1) as nat));
        match slots[i] {
            Some(b) => {
                lemma_stands_split(data, p, seq![b], rest);
                lemma_stands_byte(data, p, seq![b], 0);
                lemma_operand(data, p + 1, slots, i + 1, (n - 1) as nat);
            },
            None => {
                assert(present(slots, i, n) =~= rest);
                lemma_operand(data, p, slots, i + 1, (n - 1) as nat);
            },
        }
    }
}

proof fn lemma_part(base: Seq<u8>, data: Seq<u8>, p: int, part: Part)
    requires
        is_part(part),
        stands_at(data, p, part_bytes(part)),
        base.len() <= usize::MAX,
    ensures
        match added(base, part) {
            Some(bytes) => instruction(base, data, p) == Ok::<_, Error>((bytes, p + part_bytes(part).len())),
            None => instruction(base, data, p) is Err,
        },
{
    let bytes = part_bytes(part);
    lemma_stands_byte(data, p, bytes, 0);
    match part {
        Part::Insert(text) => {
            lemma_stands_split(data, p, seq![text.len() as u8], text);
        },
        Part::Copy(slots) => {
            let f = flags(slots, 0, 7);
            lemma2_to64();
            lemma_flags(slots, 0, 4, 3);
            lemma_flags(slots, 4, 3, 0);
            lemma_flags(slots, 0, 7, 0);
            let op = data[p];
            assert(op == 128 + f);
            assert(op as nat % 16 == flags(slots, 0, 4));
            assert(op as nat / 16 % 8 == flags(slots, 4, 3));
            let a = present(slots, 0, 4);
            let b = present(slots, 4, 3);
            assert(bytes =~= seq![op] + (a + b));
            lemma_stands_split(data, p, seq![op], a + b);
            lemma_stands_split(data, p + 1, a, b);
            lemma_operand(data, p + 1, slots, 0, 4);
            lemma_operand(data, p + 1 + a.len(), slots, 4, 3);
        },
    }
}

proof fn lemma_parts(base: Seq<u8>, data: Seq<u8>, p: int, parts: Seq<Part>, out: Seq<u8>)
    requires
        forall|i: int| 0 <= i < parts.len() ==> is_part(#[trigger] parts[i]),
        stands_at(data, p, parts_bytes(parts)),
        p + parts_bytes(parts).len() == data.len(),
        base.len() <= usize::MAX,
    ensures
        match spelled(base, parts) {
            Some(text) => instructions(base, data, p, out) == Ok::<_, Error>(out + text),
            None => instructions(base, data, p, out) is Err,
        },
    decreases parts.len(),
{
    if parts.len() == 0 {
        assert(out + Seq::<u8>::empty() =~= out);
    } else {
        let rest = parts.skip(1);
        assert(is_part(parts[0]));
        assert forall|i: int| 0 <= i < rest.len() implies is_part(#[trigger] rest[i]) by {
            assert(rest[i] == parts[i + 1]);
        }
        lemma_stands_split(data, p, part_bytes(parts[0]), parts_bytes(rest));
        lemma_part(base, data, p, parts[0]);
        crate::delta::lemma_instruction(base, data, p);
        if let Some(first) = added(base, parts[0]) {
            let q = p + part_bytes(parts[0]).len();
            lemma_parts(base, data, q, rest, out + first);
            if let Some(text) = spelled(base, rest) {
                assert(out + first + text =~= out + (first + text));
            }
        }
    }
}

/// A delta that is written as two sizes and instructions gives what the instructions spell: what
/// they copy from the base and what they insert, one after the other. It is refused where a copy
/// goes beyond the base or a size is wrong.
pub proof fn delta_gives_what_it_spells(
    base: Seq<u8>,
    base_digits: Seq<u8>,
    base_size: nat,
    result_digits: Seq<u8>,
    result_size: nat,
    parts: Seq<Part>,
)
    requires
        base.len() <= usize::MAX,
        is_size(base_digits, base_size),
        is_size(result_digits, result_size),
        forall|i: int| 0 <= i < parts.len() ==> is_part(#[trigger] parts[i]),
    ensures
        ({
            let delta = size_bytes(base_digits) + size_bytes(result_digits) + parts_bytes(parts);
            match spelled(base, parts) {
                Some(text) => if base_size == base.len() && result_size == text.len() {
                    applied(base, delta) == Ok::<_, Error>(text)
                } else {
                    applied(base, delta) is Err
                },
                None => applied(base, delta) is Err,
            }
        }),
{
    reveal(applied);
    let (a, b, c) = (size_bytes(base_digits), size_bytes(result_digits), parts_bytes(parts));
    let delta = a + b + c;
    assert(delta.subrange(0, delta.len() as int) =~= a + (b + c));
    assert(stands_at(delta, 0, a + (b + c)));
    lemma_stands_split(delta, 0, a, b + c);
    lemma_stands_split(delta, a.len() as int, b, c);
    lemma_size(delta, 0, base_digits, base_size);
    lemma_size(delta, a.len() as int, result_digits, result_size);
    lemma_parts(base, delta, (a.len() + b.len()) as int, parts, Seq::empty());
    if let Some(text) = spelled(base, parts) {
        assert(Seq::<u8>::empty() + text =~= text);
    }
}

// --- what is accepted -------------------------------------------------------------------------------

/// The operand bytes that stand at `p` by their flags.
spec fn slots_at(data: Seq<u8>, p: int, f: nat, n: nat) -> Seq<Option<u8>>
    decreases n,
{
    if n == 0 {
        Seq::empty()
    } else if f % 2 == 0 {
        seq![None] + slots_at(data, p, f / 2, (n - 1) as nat)
    } else {
        seq![Some(data[p])] + slots_at(data, p + 1, f / 2, (n - 1) as nat)
    }
}

proof fn lemma_slots_len(data: Seq<u8>, p: int, f: nat, n: nat)
    ensures
        slots_at(data, p, f, n).len() == n,
    decreases n,
{
    if n > 0 {
        lemma_slots_len(data, p, f / 2, (n - 1) as nat);
        lemma_slots_len(data, p + 1, f / 2, (n - 1) as nat);
    }
}

/// Operand bytes that were read can be written.
proof fn lemma_slots(data: Seq<u8>, p: int, f: nat, n: nat, slots: Seq<Option<u8>>, i: int)
    requires
        0 <= p <= data.len(),
        sparse(data, p, f, n) is Ok,
        f < pow2(n),
        forall|k: int| 0 <= k < n ==> #[trigger] slots[i + k] == slots_at(data, p, f, n)[k],
    ensures
        sparse(data, p, f, n) matches Ok((v, q)) && {
            &&& p <= q <= data.len()
            &&& flags(slots, i, n) == f
            &&& operand(slots, i, n) == v
            &&& present(slots, i, n) == data.subrange(p, q)
        },
    decreases n,
{
    lemma2_to64();
    if n == 0 {
        assert(data.subrange(p, p) =~= Seq::<u8>::empty());
    } else {
        let m = (n - 1) as nat;
        lemma_pow2_unfold(n);
        let all = slots_at(data, p, f, n);
        let next = if f % 2 == 0 {
            p
        } else {
            p + 1
        };
        let rest = slots_at(data, next, f / 2, m);
        lemma_slots_len(data, next, f / 2, m);
        assert(slots[i + 0] == all[0]);
        assert forall|k: int| 0 <= k < m implies #[trigger] slots[i + 1 + k] == rest[k] by {
            assert(slots[i + (k + 1)] == all[k + 1]);
        }
        lemma_slots(data, next, f / 2, m, slots, i + 1);
        let (v, q) = sparse(data, next, f / 2, m)->Ok_0;
        if f % 2 == 0 {
            assert(present(slots, i, n) =~= data.subrange(p, q));
        } else {
            assert(present(slots, i, n) =~= data.subrange(p, q));
        }
    }
}

/// An instruction that is carried out can be written.
proof fn lemma_written_part(base: Seq<u8>, data: Seq<u8>, p: int) -> (part: Part)
    requires
        0 <= p < data.len(),
        instruction(base, data, p) is Ok,
    ensures
        instruction(base, data, p) matches Ok((bytes, q)) && {
            &&& p < q <= data.len()
            &&& is_part(part)
            &&& data.subrange(p, q) == part_bytes(part)
            &&& added(base, part) == Some(bytes)
        },
{
    crate::delta::lemma_instruction(base, data, p);
    let op = data[p];
    if op >= 128 {
        let (f, g) = (op as nat % 16, op as nat / 16 % 8);
        lemma2_to64();
        let (offset, r) = sparse(data, p + 1, f, 4)->Ok_0;
        let (size, q) = sparse(data, r, g, 3)->Ok_0;
        let (a, b) = (slots_at(data, p + 1, f, 4), slots_at(data, r, g, 3));
        lemma_slots_len(data, p + 1, f, 4);
        lemma_slots_len(data, r, g, 3);
        let slots = a + b;
        lemma_slots(data, p + 1, f, 4, slots, 0);
        lemma_slots(data, r, g, 3, slots, 4);
        lemma_flags(slots, 0, 4, 3);
        assert(flags(slots, 0, 7) == f + 16 * g);
        assert(op == 128 + f + 16 * g);
        let part = Part::Copy(slots);
        assert(data.subrange(p, q) =~= seq![op] + (data.subrange(p + 1, r) + data.subrange(r, q)));
        part
    } else {
        let text = data.subrange(p + 1, p + 1 + op);
        assert(data.subrange(p, p + 1 + op) =~= seq![op] + text);
        Part::Insert(text)
    }
}

proof fn lemma_written_parts(base: Seq<u8>, data: Seq<u8>, p: int, out: Seq<u8>) -> (parts: Seq<Part>)
    requires
        0 <= p <= data.len(),
        instructions(base, data, p, out) is Ok,
    ensures
        forall|i: int| 0 <= i < parts.len() ==> is_part(#[trigger] parts[i]),
        data.skip(p) == parts_bytes(parts),
        spelled(base, parts) matches Some(text) && instructions(base, data, p, out) == Ok::<_, Error>(out + text),
    decreases data.len() - p,
{
    if p >= data.len() {
        let none = Seq::<Part>::empty();
        assert(data.skip(p) =~= Seq::<u8>::empty());
        assert(spelled(base, none) == Some(Seq::<u8>::empty()));
        assert(out + Seq::<u8>::empty() =~= out);
        none
    } else {
        crate::delta::lemma_instruction(base, data, p);
        let (bytes, q) = instruction(base, data, p)->Ok_0;
        let part = lemma_written_part(base, data, p);
        let rest = lemma_written_parts(base, data, q, out + bytes);
        let parts = seq![part] + rest;
        assert(parts.skip(1) =~= rest);
        assert forall|i: int| 0 <= i < parts.len() implies is_part(#[trigger] parts[i]) by {
            if i > 0 {
                assert(parts[i] == rest[i - 1]);
            }
        }
        assert(data.skip(p) =~= data.subrange(p, q) + data.skip(q));
        let text = spelled(base, rest)->0;
        assert(out + bytes + text =~= out + (bytes + text));
        parts
    }
}

/// A delta that is accepted is made of two sizes, which are those of the base and of the result, and
/// of whole instructions that spell the result.
pub proof fn accepted_deltas_are_made_of_instructions(base: Seq<u8>, delta: Seq<u8>) -> (r: (int, Seq<Part>))
    requires
        applied(base, delta) is Ok,
    ensures
        applied(base, delta) matches Ok(out) && ({
            let (q, parts) = r;
            &&& 0 <= q <= delta.len()
            &&& varint(delta, 0) matches Ok((n, p)) && n == base.len() && varint(delta, p) == Ok::<_, Error>(
                (out.len(), q),
            )
            &&& forall|i: int| 0 <= i < parts.len() ==> is_part(#[trigger] parts[i])
            &&& delta.skip(q) == parts_bytes(parts)
            &&& spelled(base, parts) == Some(out)
        }),
{
    reveal(applied);
    let (n, p) = varint(delta, 0)->Ok_0;
    let (m, q) = varint(delta, p)->Ok_0;
    lemma_varint_end(delta, 0, 0, 0);
    lemma_varint_end(delta, p, 0, 0);
    let parts = lemma_written_parts(base, delta, q, Seq::empty());
    let text = spelled(base, parts)->0;
    assert(Seq::<u8>::empty() + text =~= text);
    (q, parts)
}

proof fn lemma_varint_end(data: Seq<u8>, p: int, shift: nat, low: nat)
    ensures
        varint_from(data, p, shift, low) matches Ok((v, q)) ==> p < q <= data.len(),
    decreases data.len() - p,
{
    if p < data.len() && data[p] >= 128 && shift + 7 < 64 {
        let v = (low + (data[p] % 128) as nat * pow2(shift)) % 0x1_0000_0000_0000_0000;
        lemma_varint_end(data, p + 1, shift + 7, v);
    }
}

} // verus!
