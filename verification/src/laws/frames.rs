//! Hexadecimal digits, and frames with a length in them.

use vstd::prelude::*;

use crate::err::Error;
use crate::oid::{from_hex, hex_value, to_hex};
use crate::pkt::{first_pkt, pkt_len, trimmed, PktView};

verus! {

/// The value of a hexadecimal digit of either case.
pub open spec fn sixteenth(c: u8) -> Option<int> {
    if 48 <= c <= 57 {
        Some(c - 48)
    } else if 65 <= c <= 70 {
        Some(c - 65 + 10)
    } else if 97 <= c <= 102 {
        Some(c - 97 + 10)
    } else {
        None
    }
}

/// The digit in lower case.
pub open spec fn in_lower_case(c: u8) -> u8 {
    if 65 <= c <= 90 {
        (c + 32) as u8
    } else {
        c
    }
}

proof fn lemma_value(c: u8)
    ensures
        match (sixteenth(c), hex_value(c)) {
            (Some(v), Some(w)) => v == w,
            (None, None) => true,
            _ => false,
        },
{
}

/// An id is read from forty hexadecimal digits of either case and from nothing else, and is written
/// with the same digits in lower case.
pub proof fn ids_are_forty_digits(s: Seq<u8>)
    ensures
        from_hex(s) is Ok <==> s.len() == 40 && forall|i: int|
            0 <= i < 40 ==> sixteenth(#[trigger] s[i]) is Some,
        from_hex(s) matches Ok(oid) ==> {
            &&& oid.len() == 20
            &&& forall|i: int|
                0 <= i < 20 ==> #[trigger] oid[i] == 16 * sixteenth(s[2 * i])->0 + sixteenth(s[2 * i + 1])->0
            &&& to_hex(oid).len() == 40
            &&& forall|i: int| 0 <= i < 40 ==> #[trigger] to_hex(oid)[i] == in_lower_case(s[i])
        },
{
    assert forall|i: int| 0 <= i < s.len() implies (hex_value(#[trigger] s[i]) is None <==> sixteenth(
        s[i],
    ) is None) by {
        lemma_value(s[i]);
    }
    if let Ok(oid) = from_hex(s) {
        assert forall|i: int| 0 <= i < 40 implies sixteenth(#[trigger] s[i]) is Some by {
            assert(hex_value(s[i]) is Some);
        }
        assert forall|i: int| 0 <= i < 20 implies #[trigger] oid[i] == 16 * sixteenth(s[2 * i])->0
            + sixteenth(s[2 * i + 1])->0 by {
            lemma_value(s[2 * i]);
            lemma_value(s[2 * i + 1]);
            assert(sixteenth(s[2 * i]) is Some && sixteenth(s[2 * i + 1]) is Some);
        }
        assert forall|i: int| 0 <= i < 40 implies #[trigger] to_hex(oid)[i] == in_lower_case(s[i]) by {
            let k = i / 2;
            assert(oid[k] == 16 * sixteenth(s[2 * k])->0 + sixteenth(s[2 * k + 1])->0);
            assert(sixteenth(s[i]) is Some);
            assert(sixteenth(s[2 * k]) is Some && sixteenth(s[2 * k + 1]) is Some);
            if i % 2 == 0 {
                assert(i == 2 * k);
                assert(oid[k] / 16 == sixteenth(s[i])->0);
            } else {
                assert(i == 2 * k + 1);
                assert(oid[k] % 16 == sixteenth(s[i])->0);
            }
        }
    }
}

/// Four digits that give the length of a frame.
pub open spec fn frame_length(s: Seq<u8>) -> int {
    4096 * sixteenth(s[0])->0 + 256 * sixteenth(s[1])->0 + 16 * sixteenth(s[2])->0 + sixteenth(s[3])->0
}

/// A frame starts with its length in four hexadecimal digits, themselves counted; a length of zero,
/// one or two has a meaning of its own, and a length of three has none.
pub proof fn frames_are_as_long_as_they_say(s: Seq<u8>)
    requires
        s.len() >= 4,
        forall|i: int| 0 <= i < 4 ==> sixteenth(#[trigger] s[i]) is Some,
    ensures
        ({
            let n = frame_length(s);
            let p = first_pkt(s);
            if n == 0 {
                p == Ok::<_, Error>((PktView::Flush, s.skip(4)))
            } else if n == 1 {
                p == Ok::<_, Error>((PktView::Delim, s.skip(4)))
            } else if n == 2 {
                p == Ok::<_, Error>((PktView::ResponseEnd, s.skip(4)))
            } else if n == 3 {
                p is Err
            } else if n > s.len() {
                p == Err::<(PktView, Seq<u8>), _>(Error::UnexpectedEof)
            } else {
                p == Ok::<_, Error>((PktView::Data(s.subrange(4, n)), s.skip(n)))
            }
        }),
{
    lemma_value(s[0]);
    lemma_value(s[1]);
    lemma_value(s[2]);
    lemma_value(s[3]);
    assert(sixteenth(s[0]) is Some && sixteenth(s[1]) is Some && sixteenth(s[2]) is Some && sixteenth(
        s[3],
    ) is Some);
    assert(pkt_len(s) == Some(frame_length(s)));
}

/// What does not start with four hexadecimal digits is no frame.
pub proof fn frames_start_with_digits(s: Seq<u8>, i: int)
    requires
        0 <= i < 4,
        s.len() >= 4 ==> sixteenth(s[i]) is None,
    ensures
        first_pkt(s) is Err,
{
    if s.len() >= 4 {
        lemma_value(s[i]);
    }
}

/// A line is the same with and without its line feed, of which only one is taken away.
pub proof fn lines_may_end_with_a_line_feed(text: Seq<u8>)
    ensures
        trimmed(text + seq![10u8]) == text,
        text.len() == 0 || text.last() != 10 ==> trimmed(text) == text,
{
    assert((text + seq![10u8]).drop_last() =~= text);
}

} // verus!
