//! Object ids.

use vstd::prelude::*;

use crate::bytes::lex_less;
use crate::err::{agrees, Error, Result};

verus! {

/// The id of an object: the SHA-1 digest of its header and body.
#[derive(Clone, Copy, Debug, Eq, PartialOrd, Ord, Hash)]
pub struct Oid([u8; 20]);

impl View for Oid {
    type V = Seq<u8>;

    closed spec fn view(&self) -> Seq<u8> {
        self.0@
    }
}

impl PartialEq for Oid {
    fn eq(&self, other: &Oid) -> (r: bool) {
        crate::bytes::same(self.0.as_slice(), other.0.as_slice())
    }
}

impl vstd::std_specs::cmp::PartialEqSpecImpl for Oid {
    open spec fn obeys_eq_spec() -> bool {
        true
    }

    open spec fn eq_spec(&self, other: &Oid) -> bool {
        self@ == other@
    }
}

/// The value of a hexadecimal digit.
pub open spec fn hex_value(c: u8) -> Option<u8> {
    if 48 <= c <= 57 {
        Some((c - 48) as u8)
    } else if 97 <= c <= 102 {
        Some((c - 97 + 10) as u8)
    } else if 65 <= c <= 70 {
        Some((c - 65 + 10) as u8)
    } else {
        None
    }
}

/// The lower case hexadecimal digit of a value below 16.
pub open spec fn hex_digit(v: int) -> u8 {
    if v < 10 {
        (48 + v) as u8
    } else {
        (97 + v - 10) as u8
    }
}

/// Two lower case hexadecimal digits for each byte.
pub open spec fn to_hex(b: Seq<u8>) -> Seq<u8> {
    Seq::new(
        2 * b.len(),
        |i: int|
            if i % 2 == 0 {
                hex_digit(b[i / 2] as int / 16)
            } else {
                hex_digit(b[i / 2] as int % 16)
            },
    )
}

/// Two lower case hexadecimal digits for each byte, as text.
pub open spec fn hex_text(b: Seq<u8>) -> Seq<char> {
    to_hex(b).map_values(|c: u8| c as char)
}

/// The bytes that forty hexadecimal digits stand for.
pub open spec fn from_hex(s: Seq<u8>) -> Result<Seq<u8>> {
    if s.len() != 40 {
        Err(Error::Corrupt("oid hex length"))
    } else if exists|i: int| 0 <= i < 40 && hex_value(#[trigger] s[i]) is None {
        Err(Error::Corrupt("oid hex digit"))
    } else {
        Ok(Seq::new(20, |i: int| (hex_value(s[2 * i])->0 * 16 + hex_value(s[2 * i + 1])->0) as u8))
    }
}

pub fn hex_val(c: u8) -> (r: Result<u8>)
    ensures
        match hex_value(c) {
            Some(v) => r == Ok::<u8, Error>(v) && v < 16,
            None => r == Err::<u8, Error>(Error::Corrupt("oid hex digit")),
        },
{
    match c {
        48..=57 => Ok(c - 48),
        97..=102 => Ok(c - 97 + 10),
        65..=70 => Ok(c - 65 + 10),
        _ => Err(Error::Corrupt("oid hex digit")),
    }
}

/// The lower case hexadecimal digit of a value below 16.
pub fn digit(v: u8) -> (r: u8)
    requires
        v < 16,
    ensures
        r == hex_digit(v as int),
{
    if v < 10 {
        48 + v
    } else {
        97 + (v - 10)
    }
}

impl Oid {
    pub fn from_bytes(bytes: [u8; 20]) -> (r: Self)
        ensures
            r@ == bytes@,
    {
        Self(bytes)
    }

    /// The id whose bytes are the given twenty.
    pub fn from_slice(bytes: &[u8]) -> (r: Self)
        requires
            bytes@.len() == 20,
        ensures
            r@ == bytes@,
    {
        let mut out = [0u8; 20];
        let mut i: usize = 0;
        while i < 20
            invariant
                i <= 20,
                bytes@.len() == 20,
                forall|j: int| 0 <= j < i ==> out@[j] == bytes@[j],
            decreases 20 - i,
        {
            out[i] = bytes[i];
            i += 1;
        }
        assert(out@ =~= bytes@);
        Self(out)
    }

    /// Reads forty hexadecimal digits.
    pub fn from_hex(hex: &[u8]) -> (r: Result<Self>)
        ensures
            agrees(r, from_hex(hex@)),
    {
        if hex.len() != 40 {
            return Err(Error::Corrupt("oid hex length"));
        }
        let mut bytes = [0u8; 20];
        let mut i: usize = 0;
        while i < 20
            invariant
                i <= 20,
                hex@.len() == 40,
                forall|j: int| 0 <= j < 2 * i ==> hex_value(#[trigger] hex@[j]) is Some,
                forall|j: int|
                    0 <= j < i ==> #[trigger] bytes@[j] == (hex_value(hex@[2 * j])->0 * 16
                        + hex_value(hex@[2 * j + 1])->0) as u8,
            decreases 20 - i,
        {
            let hi = hex_val(hex[2 * i])?;
            let lo = hex_val(hex[2 * i + 1])?;
            bytes[i] = hi * 16 + lo;
            i += 1;
        }
        assert(bytes@ =~= from_hex(hex@)->Ok_0);
        Ok(Self(bytes))
    }

    pub fn as_bytes(&self) -> (r: &[u8; 20])
        ensures
            r@ == self@,
    {
        &self.0
    }

    /// The id as forty lower case hexadecimal digits.
    pub fn to_hex(&self) -> (r: String)
        ensures
            r@ == hex_text(self@),
    {
        proof {
            self.lemma_len();
        }
        let mut out = String::new();
        let mut i: usize = 0;
        while i < 20
            invariant
                i <= 20,
                self@.len() == 20,
                self@ == self.0@,
                out@ == hex_text(self@).take(2 * i),
            decreases 20 - i,
        {
            let b = self.0[i];
            let hi = digit(b / 16);
            let lo = digit(b % 16);
            assert((2 * i) / 2 == i && (2 * i + 1) / 2 == i);
            assert(hi == to_hex(self@)[2 * i as int]);
            assert(lo == to_hex(self@)[2 * i + 1]);
            out.push(hi as char);
            out.push(lo as char);
            assert(out@ =~= hex_text(self@).take(2 * (i + 1)));
            i += 1;
        }
        assert(out@ =~= hex_text(self@));
        out
    }

    /// Every id has twenty bytes.
    pub proof fn lemma_len(&self)
        ensures
            self@.len() == 20,
    {
    }

    /// Whether this id comes before `other` in byte order.
    pub fn less(&self, other: &Oid) -> (r: bool)
        ensures
            r == lex_less(self@, other@),
    {
        let mut i: usize = 0;
        assert(self@.skip(0) =~= self@);
        assert(other@.skip(0) =~= other@);
        while i < 20
            invariant
                i <= 20,
                lex_less(self@, other@) == lex_less(self@.skip(i as int), other@.skip(i as int)),
            decreases 20 - i,
        {
            let (a, b) = (self.0[i], other.0[i]);
            assert(self@.skip(i as int)[0] == a && other@.skip(i as int)[0] == b);
            if a < b {
                return true;
            }
            if b < a {
                return false;
            }
            assert(self@.skip(i as int).skip(1) =~= self@.skip(i + 1));
            assert(other@.skip(i as int).skip(1) =~= other@.skip(i + 1));
            i += 1;
        }
        false
    }
}

/// Appends the forty digits of `oid`.
pub fn push_hex(out: &mut Vec<u8>, oid: &Oid)
    ensures
        final(out)@ == old(out)@ + to_hex(oid@),
{
    proof {
        oid.lemma_len();
    }
    let ghost start = out@;
    let bytes = oid.as_bytes();
    let mut i: usize = 0;
    while i < 20
        invariant
            i <= 20,
            oid@.len() == 20,
            bytes@ == oid@,
            out@ == start + to_hex(oid@).take(2 * i),
        decreases 20 - i,
    {
        let b = bytes[i];
        let ghost before = out@;
        out.push(digit(b / 16));
        out.push(digit(b % 16));
        proof {
            assert((2 * i) / 2 == i && (2 * i + 1) / 2 == i);
            assert(to_hex(oid@).take(2 * (i + 1)) =~= to_hex(oid@).take(2 * i).push(
                to_hex(oid@)[2 * i as int],
            ).push(to_hex(oid@)[2 * i + 1]));
        }
        i += 1;
    }
    assert(to_hex(oid@).take(40) =~= to_hex(oid@));
}

/// The two digits of one byte.
proof fn lemma_hex_pair(b: Seq<u8>, i: int)
    requires
        0 <= i < b.len(),
    ensures
        hex_value(to_hex(b)[2 * i]) == Some((b[i] / 16) as u8),
        hex_value(to_hex(b)[2 * i + 1]) == Some((b[i] % 16) as u8),
{
    assert((2 * i) / 2 == i && (2 * i) % 2 == 0);
    assert((2 * i + 1) / 2 == i && (2 * i + 1) % 2 == 1);
}

/// Reading back the digits of an id gives the id.
pub proof fn hex_round_trip(b: Seq<u8>)
    requires
        b.len() == 20,
    ensures
        from_hex(to_hex(b)) == Ok::<Seq<u8>, Error>(b),
{
    let h = to_hex(b);
    assert forall|i: int| 0 <= i < 40 implies hex_value(#[trigger] h[i]) is Some by {
        lemma_hex_pair(b, i / 2);
        assert(i == 2 * (i / 2) || i == 2 * (i / 2) + 1);
    }
    let back = from_hex(h)->Ok_0;
    assert forall|i: int| 0 <= i < 20 implies #[trigger] back[i] == b[i] by {
        lemma_hex_pair(b, i);
    }
    assert(back =~= b);
}

} // verus!
