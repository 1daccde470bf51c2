//! Text: strings as lists of characters, numbers in them, and the way from bytes to text.

use vstd::prelude::*;
use vstd::utf8::{decode_utf8, valid_utf8};

use crate::oid::{hex_text, Oid};

verus! {

// --- bytes and text -------------------------------------------------------------------------------------

/// The text that [`String::from_utf8_lossy`] makes of bytes: what is not UTF-8 in them becomes
/// replacement characters.
pub uninterp spec fn lossy_text(bytes: Seq<u8>) -> Seq<char>;

/// Calls [`String::from_utf8_lossy`]. Its result depends on the bytes alone, and bytes that are
/// UTF-8 throughout become the text they encode. How many replacement characters stand for bytes
/// that are not UTF-8 is left to the name.
#[verifier::external_body]
fn lossy(bytes: &[u8]) -> (r: String)
    ensures
        r@ == lossy_text(bytes@),
        valid_utf8(bytes@) ==> r@ == decode_utf8(bytes@),
{
    String::from_utf8_lossy(bytes).into_owned()
}

/// Bytes as text: the text they encode, or what stands for it where they are not UTF-8.
pub open spec fn readable_text(bytes: Seq<u8>) -> Seq<char> {
    if valid_utf8(bytes) {
        decode_utf8(bytes)
    } else {
        lossy_text(bytes)
    }
}

/// Bytes as text.
pub fn readable(bytes: &[u8]) -> (r: String)
    ensures
        r@ == readable_text(bytes@),
{
    lossy(bytes)
}

/// Calls [`std::str::from_utf8`], which gives the text that bytes encode where they are UTF-8, and
/// an error where they are not.
#[verifier::external_body]
pub(crate) fn strict(bytes: &[u8]) -> (r: Option<String>)
    ensures
        match r {
            Some(s) => valid_utf8(bytes@) && s@ == decode_utf8(bytes@),
            None => !valid_utf8(bytes@),
        },
{
    std::str::from_utf8(bytes).ok().map(str::to_owned)
}

/// The characters of a string.
pub fn chars_of(s: &str) -> (r: Vec<char>)
    ensures
        r@ == s@,
{
    let mut out: Vec<char> = Vec::new();
    for c in it: s.chars()
        invariant
            out@ == it.seq().take(it.index() as int),
            it.seq() == s@,
    {
        out.push(c);
        assert(out@ =~= it.seq().take(it.index() + 1));
    }
    assert(out@ =~= s@);
    out
}

/// Appends characters to a string.
pub fn push_chars(out: &mut String, s: &[char])
    ensures
        final(out)@ == old(out)@ + s@,
{
    let mut i: usize = 0;
    assert(old(out)@ + s@.take(0) =~= old(out)@);
    while i < s.len()
        invariant
            i <= s@.len(),
            out@ == old(out)@ + s@.take(i as int),
        decreases s.len() - i,
    {
        out.push(s[i]);
        assert(old(out)@ + s@.take(i + 1) =~= (old(out)@ + s@.take(i as int)).push(s@[i as int]));
        i += 1;
    }
    assert(s@.take(i as int) =~= s@);
}

/// The string of the given characters.
pub fn string_of(s: &[char]) -> (r: String)
    ensures
        r@ == s@,
{
    let mut out = String::new();
    push_chars(&mut out, s);
    assert(out@ =~= s@);
    out
}

// --- numbers ------------------------------------------------------------------------------------------------

/// A number in decimal digits.
pub open spec fn decimal_text(n: nat) -> Seq<char>
    decreases n,
{
    if n < 10 {
        seq![(48 + n) as u8 as char]
    } else {
        decimal_text(n / 10).push((48 + n % 10) as u8 as char)
    }
}

pub fn push_number(out: &mut String, n: u64)
    ensures
        final(out)@ == old(out)@ + decimal_text(n as nat),
    decreases n,
{
    if n >= 10 {
        push_number(out, n / 10);
    }
    out.push((48 + (n % 10) as u8) as char);
    assert(out@ =~= old(out)@ + decimal_text(n as nat));
}

/// A number with a minus sign where it is negative.
pub open spec fn signed_text(n: int) -> Seq<char> {
    if n < 0 {
        seq!['-'] + decimal_text((-n) as nat)
    } else {
        decimal_text(n as nat)
    }
}

pub fn push_signed(out: &mut String, n: i64)
    ensures
        final(out)@ == old(out)@ + signed_text(n as int),
{
    if n < 0 {
        out.push('-');
        if n == i64::MIN {
            push_number(out, 0x8000_0000_0000_0000);
        } else {
            push_number(out, (-n) as u64);
        }
    } else {
        push_number(out, n as u64);
    }
    assert(out@ =~= old(out)@ + signed_text(n as int));
}

/// Appends an id in hexadecimal digits.
pub fn push_oid(out: &mut String, oid: &Oid)
    ensures
        final(out)@ == old(out)@ + hex_text(oid@),
{
    let hex = oid.to_hex();
    out.append(hex.as_str());
}

/// The value of a digit of the given base, up to sixteen.
pub open spec fn digit_of(c: char, radix: nat) -> Option<nat> {
    let v: int = if '0' <= c <= '9' {
        c as int - 48
    } else if 'a' <= c <= 'f' {
        c as int - 87
    } else if 'A' <= c <= 'F' {
        c as int - 55
    } else {
        16
    };
    if v < radix {
        Some(v as nat)
    } else {
        None
    }
}

/// Only digits of the base.
pub open spec fn only_digits(s: Seq<char>, radix: nat) -> bool {
    forall|i: int| 0 <= i < s.len() ==> digit_of(#[trigger] s[i], radix) is Some
}

/// The number that digits stand for.
pub open spec fn digits_value(s: Seq<char>, radix: nat) -> nat
    decreases s.len(),
{
    if s.len() == 0 {
        0
    } else {
        radix * digits_value(s.drop_last(), radix) + digit_of(s.last(), radix)->0
    }
}

/// A number no greater than `max`: digits, with a plus sign before them or not.
pub open spec fn number_in(s: Seq<char>, radix: nat, max: nat) -> Option<nat> {
    let digits = if s.len() > 0 && s[0] == '+' {
        s.skip(1)
    } else {
        s
    };
    if digits.len() == 0 || !only_digits(digits, radix) || digits_value(digits, radix) > max {
        None
    } else {
        Some(digits_value(digits, radix))
    }
}

proof fn lemma_digits_value_mono(s: Seq<char>, radix: nat, i: int)
    requires
        radix >= 1,
        0 <= i <= s.len(),
    ensures
        digits_value(s.take(i), radix) <= digits_value(s, radix),
    decreases s.len(),
{
    if i < s.len() {
        lemma_digits_value_mono(s.drop_last(), radix, i);
        assert(s.drop_last().take(i) =~= s.take(i));
        let v = digits_value(s.drop_last(), radix);
        assert(radix * v >= v) by (nonlinear_arith)
            requires
                radix >= 1,
        ;
    } else {
        assert(s.take(i) =~= s);
    }
}

/// The digits of a number stand for it.
pub proof fn lemma_decimal_text(n: nat)
    ensures
        decimal_text(n).len() > 0,
        only_digits(decimal_text(n), 10),
        digits_value(decimal_text(n), 10) == n,
        forall|i: int| 0 <= i < decimal_text(n).len() ==> '0' <= #[trigger] decimal_text(n)[i] <= '9',
    decreases n,
{
    let s = decimal_text(n);
    if n < 10 {
        assert(s.drop_last() =~= Seq::<char>::empty());
        assert(digits_value(s.drop_last(), 10) == 0);
    } else {
        lemma_decimal_text(n / 10);
        assert(s.drop_last() =~= decimal_text(n / 10));
    }
}

/// What stands before the first `c` where none stands in `a`.
pub proof fn lemma_cut_first(a: Seq<char>, c: char, b: Seq<char>)
    requires
        !a.contains(c),
    ensures
        (a.push(c) + b).index_of_first(c) == Some(a.len() as int),
        cut_first(a.push(c) + b, c) == Some((a, b)),
{
    let s = a.push(c) + b;
    s.index_of_first_ensures(c);
    assert(s[a.len() as int] == c);
    let i = s.index_of_first(c)->0;
    if i < a.len() {
        assert(a[i] == c);
    }
    assert(s.take(a.len() as int) =~= a);
    assert(s.skip(a.len() as int + 1) =~= b);
}

/// What stands after the last `c` where none stands in `b`.
pub proof fn lemma_cut_last(a: Seq<char>, c: char, b: Seq<char>)
    requires
        !b.contains(c),
    ensures
        cut_last(a.push(c) + b, c) == Some((a, b)),
{
    let s = a.push(c) + b;
    s.index_of_last_ensures(c);
    assert(s[a.len() as int] == c);
    let i = s.index_of_last(c)->0;
    if i > a.len() {
        assert(b[i - a.len() - 1] == c);
    }
    assert(s.take(a.len() as int) =~= a);
    assert(s.skip(a.len() as int + 1) =~= b);
}

fn digit_value(c: char, radix: u64) -> (r: Option<u64>)
    requires
        radix <= 16,
    ensures
        match r {
            Some(v) => digit_of(c, radix as nat) == Some(v as nat) && v < 16,
            None => digit_of(c, radix as nat) is None,
        },
{
    let v: u64 = if '0' <= c && c <= '9' {
        (c as u32 - 48) as u64
    } else if 'a' <= c && c <= 'f' {
        (c as u32 - 87) as u64
    } else if 'A' <= c && c <= 'F' {
        (c as u32 - 55) as u64
    } else {
        16
    };
    if v < radix {
        Some(v)
    } else {
        None
    }
}

/// A number no greater than `max`.
pub fn parse_number(s: &[char], radix: u64, max: u64) -> (r: Option<u64>)
    requires
        radix == 10 || radix == 16,
    ensures
        match r {
            Some(v) => number_in(s@, radix as nat, max as nat) == Some(v as nat),
            None => number_in(s@, radix as nat, max as nat) is None,
        },
{
    let start: usize = if s.len() > 0 && s[0] == '+' {
        1
    } else {
        0
    };
    let ghost digits = if s@.len() > 0 && s@[0] == '+' {
        s@.skip(1)
    } else {
        s@
    };
    assert(digits =~= s@.skip(start as int));
    if start == s.len() {
        return None;
    }
    let ghost rad = radix as nat;
    let mut value: u64 = 0;
    let mut i: usize = start;
    assert(digits.take(0) =~= Seq::<char>::empty());
    while i < s.len()
        invariant
            start <= i <= s@.len(),
            start < s@.len(),
            radix == 10 || radix == 16,
            rad == radix as nat,
            value <= max,
            digits == s@.skip(start as int),
            digits == (if s@.len() > 0 && s@[0] == '+' {
                s@.skip(1)
            } else {
                s@
            }),
            only_digits(digits.take(i - start), rad),
            value == digits_value(digits.take(i - start), rad),
        decreases s.len() - i,
    {
        let ghost now = digits.take(i - start);
        let ghost next = digits.take(i - start + 1);
        assert(next.drop_last() =~= now);
        assert(next.last() == s@[i as int]);
        let d: u64 = match digit_value(s[i], radix) {
            Some(d) => d,
            None => {
                assert(digit_of(digits[i - start], rad) is None);
                return None;
            },
        };
        let more: u128 = value as u128 * radix as u128 + d as u128;
        assert(more == digits_value(next, rad)) by {
            assert(value * radix == radix * value) by (nonlinear_arith);
        }
        assert(only_digits(next, rad)) by {
            assert forall|k: int| 0 <= k < next.len() implies digit_of(#[trigger] next[k], rad) is Some by {
                if k < now.len() {
                    assert(next[k] == now[k]);
                }
            }
        }
        if more > max as u128 {
            proof {
                lemma_digits_value_mono(digits, rad, i - start + 1);
            }
            return None;
        }
        value = more as u64;
        i += 1;
    }
    assert(digits.take(i - start) =~= digits);
    Some(value)
}

// --- searching -----------------------------------------------------------------------------------------------

/// What stands before the first `c` and what after it.
pub open spec fn cut_first(s: Seq<char>, c: char) -> Option<(Seq<char>, Seq<char>)> {
    match s.index_of_first(c) {
        Some(i) => Some((s.take(i), s.skip(i + 1))),
        None => None,
    }
}

/// What stands before the last `c` and what after it.
pub open spec fn cut_last(s: Seq<char>, c: char) -> Option<(Seq<char>, Seq<char>)> {
    match s.index_of_last(c) {
        Some(i) => Some((s.take(i), s.skip(i + 1))),
        None => None,
    }
}

/// The position of the first `c`.
pub fn first_of(s: &[char], c: char) -> (r: Option<usize>)
    ensures
        match r {
            Some(i) => i < s@.len() <= usize::MAX && s@.index_of_first(c) == Some(i as int),
            None => s@.index_of_first(c) is None,
        },
{
    proof {
        s@.index_of_first_ensures(c);
    }
    let mut i: usize = 0;
    while i < s.len()
        invariant
            i <= s@.len(),
            forall|k: int| 0 <= k < i ==> #[trigger] s@[k] != c,
        decreases s.len() - i,
    {
        if s[i] == c {
            proof {
                s@.index_of_first_ensures(c);
                assert(s@.contains(c));
            }
            return Some(i);
        }
        i += 1;
    }
    None
}

/// The position of the last `c`.
pub fn last_of(s: &[char], c: char) -> (r: Option<usize>)
    ensures
        match r {
            Some(i) => i < s@.len() <= usize::MAX && s@.index_of_last(c) == Some(i as int),
            None => s@.index_of_last(c) is None,
        },
{
    proof {
        s@.index_of_last_ensures(c);
    }
    let mut i: usize = s.len();
    while i > 0
        invariant
            i <= s@.len(),
            forall|k: int| i <= k < s@.len() ==> #[trigger] s@[k] != c,
        decreases i,
    {
        i -= 1;
        if s[i] == c {
            proof {
                s@.index_of_last_ensures(c);
                assert(s@.contains(c));
            }
            return Some(i);
        }
    }
    None
}

/// The characters from `i` on.
pub fn chars_from(s: &[char], i: usize) -> (r: &[char])
    requires
        i <= s@.len(),
    ensures
        r@ == s@.skip(i as int),
{
    let r = &s[i..s.len()];
    assert(r@ =~= s@.skip(i as int));
    r
}

/// The characters before `i`.
pub fn chars_to(s: &[char], i: usize) -> (r: &[char])
    requires
        i <= s@.len(),
    ensures
        r@ == s@.take(i as int),
{
    let r = &s[0..i];
    assert(r@ =~= s@.take(i as int));
    r
}

/// What follows the text `p`, where `s` starts with it.
pub open spec fn after_text(s: Seq<char>, p: Seq<char>) -> Option<Seq<char>> {
    if p.len() <= s.len() && s.take(p.len() as int) == p {
        Some(s.skip(p.len() as int))
    } else {
        None
    }
}

pub fn same_chars(a: &[char], b: &[char]) -> (r: bool)
    ensures
        r == (a@ == b@),
{
    if a.len() != b.len() {
        return false;
    }
    let mut i: usize = 0;
    while i < a.len()
        invariant
            i <= a.len(),
            a.len() == b.len(),
            forall|k: int| 0 <= k < i ==> a@[k] == b@[k],
        decreases a.len() - i,
    {
        if a[i] != b[i] {
            return false;
        }
        i += 1;
    }
    assert(a@ =~= b@);
    true
}

/// Whether the characters are those of a literal.
pub fn is_text(a: &[char], b: &str) -> (r: bool)
    ensures
        r == (a@ == b@),
{
    let list = chars_of(b);
    same_chars(a, list.as_slice())
}

pub fn strip_text<'a>(s: &'a [char], p: &str) -> (r: Option<&'a [char]>)
    ensures
        match r {
            Some(rest) => after_text(s@, p@) == Some(rest@),
            None => after_text(s@, p@) is None,
        },
{
    let list = chars_of(p);
    if list.len() <= s.len() && same_chars(chars_to(s, list.len()), list.as_slice()) {
        Some(chars_from(s, list.len()))
    } else {
        None
    }
}

/// A text without the characters `c` at its end.
pub open spec fn without_end(s: Seq<char>, c: char) -> Seq<char>
    decreases s.len(),
{
    if s.len() > 0 && s.last() == c {
        without_end(s.drop_last(), c)
    } else {
        s
    }
}

pub fn trim_end<'a>(s: &'a [char], c: char) -> (r: &'a [char])
    ensures
        r@ == without_end(s@, c),
{
    let mut n: usize = s.len();
    assert(s@.take(n as int) =~= s@);
    while n > 0 && s[n - 1] == c
        invariant
            n <= s@.len(),
            without_end(s@, c) == without_end(s@.take(n as int), c),
        decreases n,
    {
        assert(s@.take(n as int).drop_last() =~= s@.take(n - 1));
        n -= 1;
    }
    chars_to(s, n)
}

/// The characters that Unicode counts as white space.
pub open spec fn is_space(c: char) -> bool {
    let v = c as u32;
    9 <= v <= 13 || v == 0x20 || v == 0x85 || v == 0xa0 || v == 0x1680 || 0x2000 <= v <= 0x200a || v
        == 0x2028 || v == 0x2029 || v == 0x202f || v == 0x205f || v == 0x3000
}

/// A text without white space at its start.
pub open spec fn without_leading(s: Seq<char>) -> Seq<char>
    decreases s.len(),
{
    if s.len() > 0 && is_space(s[0]) {
        without_leading(s.skip(1))
    } else {
        s
    }
}

/// A text without white space at its end.
pub open spec fn without_trailing(s: Seq<char>) -> Seq<char>
    decreases s.len(),
{
    if s.len() > 0 && is_space(s.last()) {
        without_trailing(s.drop_last())
    } else {
        s
    }
}

/// A text without white space around it.
pub open spec fn trimmed(s: Seq<char>) -> Seq<char> {
    without_trailing(without_leading(s))
}

fn space(c: char) -> (r: bool)
    ensures
        r == is_space(c),
{
    let v: u32 = c as u32;
    (9 <= v && v <= 13) || v == 0x20 || v == 0x85 || v == 0xa0 || v == 0x1680 || (0x2000 <= v && v
        <= 0x200a) || v == 0x2028 || v == 0x2029 || v == 0x202f || v == 0x205f || v == 0x3000
}

pub fn trim<'a>(s: &'a [char]) -> (r: &'a [char])
    ensures
        r@ == trimmed(s@),
{
    let mut i: usize = 0;
    assert(s@.skip(0) =~= s@);
    while i < s.len() && space(s[i])
        invariant
            i <= s@.len(),
            without_leading(s@) == without_leading(s@.skip(i as int)),
        decreases s.len() - i,
    {
        assert(s@.skip(i as int)[0] == s@[i as int]);
        assert(s@.skip(i as int).skip(1) =~= s@.skip(i + 1));
        i += 1;
    }
    let t = chars_from(s, i);
    assert(i < s@.len() ==> t@[0] == s@[i as int]);
    let mut n: usize = t.len();
    assert(t@.take(n as int) =~= t@);
    while n > 0 && space(t[n - 1])
        invariant
            n <= t@.len(),
            without_trailing(t@) == without_trailing(t@.take(n as int)),
        decreases n,
    {
        assert(t@.take(n as int).drop_last() =~= t@.take(n - 1));
        n -= 1;
    }
    chars_to(t, n)
}

/// An ASCII letter in lower case.
pub open spec fn lower(c: char) -> char {
    if 'A' <= c <= 'Z' {
        (c as u8 + 32) as u8 as char
    } else {
        c
    }
}

/// The same text but for the case of ASCII letters.
pub open spec fn same_but_case(a: Seq<char>, b: Seq<char>) -> bool {
    a.len() == b.len() && forall|i: int| 0 <= i < a.len() ==> lower(#[trigger] a[i]) == lower(b[i])
}

fn lower_of(c: char) -> (r: char)
    ensures
        r == lower(c),
{
    if 'A' <= c && c <= 'Z' {
        (c as u8 + 32) as char
    } else {
        c
    }
}

pub fn equals_but_case(a: &[char], b: &str) -> (r: bool)
    ensures
        r == same_but_case(a@, b@),
{
    let list = chars_of(b);
    if a.len() != list.len() {
        return false;
    }
    let mut i: usize = 0;
    while i < a.len()
        invariant
            i <= a@.len(),
            a@.len() == list@.len(),
            list@ == b@,
            forall|k: int| 0 <= k < i ==> lower(#[trigger] a@[k]) == lower(b@[k]),
        decreases a.len() - i,
    {
        if lower_of(a[i]) != lower_of(list[i]) {
            assert(lower(a@[i as int]) != lower(b@[i as int]));
            return false;
        }
        i += 1;
    }
    true
}

/// The lines of a text. A line ends with a line feed, which a carriage return may stand before; the
/// last line may end with the text.
pub open spec fn lines(s: Seq<char>) -> Seq<Seq<char>>
    decreases s.len(),
{
    if s.len() == 0 {
        Seq::empty()
    } else {
        proof {
            s.index_of_first_ensures('\n');
        }
        match s.index_of_first('\n') {
            None => seq![s],
            Some(i) => {
                let line = s.take(i);
                let bare = if i > 0 && s[i - 1] == '\r' {
                    s.take(i - 1)
                } else {
                    line
                };
                seq![bare] + lines(s.skip(i + 1))
            },
        }
    }
}

/// The views of a list of texts.
pub open spec fn char_views(v: Seq<&[char]>) -> Seq<Seq<char>> {
    Seq::new(v.len(), |i: int| v[i]@)
}

pub fn lines_of<'a>(s: &'a [char]) -> (r: Vec<&'a [char]>)
    ensures
        char_views(r@) == lines(s@),
{
    let mut out: Vec<&'a [char]> = Vec::new();
    let mut rest: &'a [char] = s;
    assert(char_views(out@) =~= Seq::<Seq<char>>::empty());
    assert(char_views(out@) + lines(s@) =~= lines(s@));
    while rest.len() > 0
        invariant
            lines(s@) == char_views(out@) + lines(rest@),
        decreases rest@.len(),
    {
        let ghost before = out@;
        match first_of(rest, '\n') {
            None => {
                out.push(rest);
                assert(char_views(out@) =~= char_views(before).push(rest@));
                assert(lines(s@) =~= char_views(out@));
                return out;
            },
            Some(i) => {
                let line = if i > 0 && rest[i - 1] == '\r' {
                    chars_to(rest, i - 1)
                } else {
                    chars_to(rest, i)
                };
                out.push(line);
                proof {
                    assert(char_views(out@) =~= char_views(before).push(line@));
                    assert(lines(rest@) == seq![line@] + lines(rest@.skip(i + 1)));
                    assert(lines(s@) =~= char_views(out@) + lines(rest@.skip(i + 1)));
                }
                rest = chars_from(rest, i + 1);
            },
        }
    }
    assert(lines(rest@) =~= Seq::<Seq<char>>::empty());
    assert(lines(s@) =~= char_views(out@));
    out
}

} // verus!
