//! JSON strings from the side of the one who reads them.

use vstd::prelude::*;

use crate::json::{escaped, escaped_char};
use crate::oid::hex_digit;

verus! {

/// The value of a hexadecimal digit.
pub open spec fn nibble(c: char) -> Option<int> {
    if '0' <= c <= '9' {
        Some(c as int - '0' as int)
    } else if 'a' <= c <= 'f' {
        Some(c as int - 'a' as int + 10)
    } else if 'A' <= c <= 'F' {
        Some(c as int - 'A' as int + 10)
    } else {
        None
    }
}

/// The character with the number in four hexadecimal digits.
pub open spec fn numbered(s: Seq<char>) -> Option<char> {
    match (nibble(s[0]), nibble(s[1]), nibble(s[2]), nibble(s[3])) {
        (Some(a), Some(b), Some(c), Some(d)) => Some((4096 * a + 256 * b + 16 * c + d) as char),
        _ => None,
    }
}

/// What follows a backslash: the character, and how many characters stand for it.
pub open spec fn after_backslash(s: Seq<char>) -> Option<(char, int)> {
    if s.len() == 0 {
        None
    } else if s[0] == '"' || s[0] == '\\' || s[0] == '/' {
        Some((s[0], 1))
    } else if s[0] == 'b' {
        Some((8u8 as char, 1))
    } else if s[0] == 'f' {
        Some((12u8 as char, 1))
    } else if s[0] == 'n' {
        Some((10u8 as char, 1))
    } else if s[0] == 'r' {
        Some((13u8 as char, 1))
    } else if s[0] == 't' {
        Some((9u8 as char, 1))
    } else if s[0] == 'u' && s.len() >= 5 {
        match numbered(s.skip(1)) {
            Some(c) => Some((c, 5)),
            None => None,
        }
    } else {
        None
    }
}

/// What a reader takes the characters after a quotation mark for, up to the next one: the text, and
/// what follows it.
pub open spec fn string_read(s: Seq<char>) -> Option<(Seq<char>, Seq<char>)>
    decreases s.len(),
{
    if s.len() == 0 || (s[0] as int) < 32 {
        None
    } else if s[0] == '"' {
        Some((Seq::empty(), s.skip(1)))
    } else if s[0] == '\\' {
        match after_backslash(s.skip(1)) {
            None => None,
            Some((c, n)) => if n < 1 {
                None
            } else {
                match string_read(s.skip(1 + n)) {
                    None => None,
                    Some((text, rest)) => Some((seq![c] + text, rest)),
                }
            },
        }
    } else {
        match string_read(s.skip(1)) {
            None => None,
            Some((text, rest)) => Some((seq![s[0]] + text, rest)),
        }
    }
}

proof fn lemma_front(c: char, s: Seq<char>)
    ensures
        escaped(seq![c] + s) == escaped_char(c) + escaped(s),
    decreases s.len(),
{
    let all = seq![c] + s;
    if s.len() == 0 {
        assert(all.drop_last() =~= Seq::<char>::empty());
        assert(escaped(all.drop_last()) =~= Seq::<char>::empty());
        assert(escaped(all) =~= escaped_char(c));
        assert(escaped_char(c) + escaped(s) =~= escaped_char(c));
    } else {
        lemma_front(c, s.drop_last());
        assert(all.drop_last() =~= seq![c] + s.drop_last());
        assert(escaped(all) =~= escaped_char(c) + escaped(s));
    }
}

proof fn lemma_control(c: char, rest: Seq<char>)
    requires
        (c as int) < 32,
        c != '\n' && c != '\r' && c != '\t',
    ensures
        ({
            let s = escaped_char(c) + rest;
            &&& s.len() == 6 + rest.len()
            &&& s[0] == '\\'
            &&& s.skip(6) == rest
            &&& after_backslash(s.skip(1)) == Some((c, 5int))
        }),
{
    reveal_strlit("\\u00");
    let s = escaped_char(c) + rest;
    let (x, y) = (c as int / 16, c as int % 16);
    let (hx, hy) = (hex_digit(x) as char, hex_digit(y) as char);
    assert(escaped_char(c) =~= seq!['\\', 'u', '0', '0', hx, hy]);
    assert(s.skip(6) =~= rest);
    let t = s.skip(1).skip(1);
    assert(t[0] == '0' && t[1] == '0' && t[2] == hx && t[3] == hy);
    assert(nibble('0') == Some(0int));
    assert(nibble(hx) == Some(x));
    assert(nibble(hy) == Some(y));
    assert(16 * x + y == c as int);
    assert((16 * x + y) as char == c);
}

proof fn lemma_char(c: char, rest: Seq<char>, text: Seq<char>, after: Seq<char>)
    requires
        string_read(rest) == Some((text, after)),
    ensures
        string_read(escaped_char(c) + rest) == Some((seq![c] + text, after)),
{
    reveal_strlit("\\\"");
    reveal_strlit("\\\\");
    reveal_strlit("\\n");
    reveal_strlit("\\r");
    reveal_strlit("\\t");
    let s = escaped_char(c) + rest;
    if c == '"' || c == '\\' || c == '\n' || c == '\r' || c == '\t' {
        assert(escaped_char(c).len() == 2);
        assert(s[0] == '\\');
        assert(s.skip(1)[0] == s[1]);
        assert(after_backslash(s.skip(1)) == Some((c, 1int)));
        assert(s.skip(2) =~= rest);
    } else if (c as int) < 32 {
        lemma_control(c, rest);
        assert(s.skip(6) == rest);
    } else {
        assert(escaped_char(c) =~= seq![c]);
        assert(s.skip(1) =~= rest);
    }
}

/// A reader of JSON takes a text inside a string for what it is, and finds its end.
pub proof fn strings_are_read_as_written(s: Seq<char>, rest: Seq<char>)
    ensures
        string_read(escaped(s) + seq!['"'] + rest) == Some((s, rest)),
    decreases s.len(),
{
    let all = escaped(s) + seq!['"'] + rest;
    if s.len() == 0 {
        assert(all =~= seq!['"'] + rest);
        assert(all.skip(1) =~= rest);
        assert(s =~= Seq::<char>::empty());
    } else {
        let more = s.skip(1);
        assert(s =~= seq![s[0]] + more);
        lemma_front(s[0], more);
        strings_are_read_as_written(more, rest);
        let tail = escaped(more) + seq!['"'] + rest;
        assert(all =~= escaped_char(s[0]) + tail);
        lemma_char(s[0], tail, more, rest);
    }
}

} // verus!
