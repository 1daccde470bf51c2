//! HTTP messages from the side of the server.

use vstd::prelude::*;
use vstd::utf8::{
    encode_utf8, encode_utf8_decode_utf8, encode_utf8_valid_utf8, is_ascii_chars,
    is_ascii_chars_encode_utf8,
};

use crate::bytes::{lemma_lit, lemma_text_at, lit, text_at};
use crate::http::{
    body_of, chunk_size, framing_from, head_text, host_text, response_body, second_field, status_of, unchunked,
    with_header, Framing, UrlView,
};
use crate::text::{
    cut_first, decimal_text, digit_of, digits_value, is_space, lemma_cut_first, lemma_decimal_text, lines,
    lower, only_digits, same_but_case, trimmed, without_leading, without_trailing,
};

verus! {

// --- chunks -----------------------------------------------------------------------------------------

/// A hexadecimal digit.
pub open spec fn hex_char(v: nat) -> char {
    if v < 10 {
        (48 + v) as u8 as char
    } else {
        (87 + v) as u8 as char
    }
}

/// A number in hexadecimal digits.
pub open spec fn hex_number(n: nat) -> Seq<char>
    decreases n,
{
    if n < 16 {
        seq![hex_char(n)]
    } else {
        hex_number(n / 16).push(hex_char(n % 16))
    }
}

proof fn lemma_hex_char(v: nat)
    requires
        v < 16,
    ensures
        digit_of(hex_char(v), 16) == Some(v),
        !is_space(hex_char(v)),
        hex_char(v) != '+' && hex_char(v) != ';' && hex_char(v) != '\r',
        '\0' <= hex_char(v) <= '\u{7f}',
{
    let b: u8 = if v < 10 {
        (48 + v) as u8
    } else {
        (87 + v) as u8
    };
    assert(hex_char(v) == b as char);
}

proof fn lemma_hex_number(n: nat)
    ensures
        hex_number(n).len() > 0,
        only_digits(hex_number(n), 16),
        digits_value(hex_number(n), 16) == n,
        forall|i: int|
            0 <= i < hex_number(n).len() ==> {
                let c = #[trigger] hex_number(n)[i];
                !is_space(c) && c != '+' && c != ';' && c != '\r' && '\0' <= c <= '\u{7f}'
            },
    decreases n,
{
    let s = hex_number(n);
    lemma_hex_char(n % 16);
    if n < 16 {
        assert(s.drop_last() =~= Seq::<char>::empty());
        assert(digits_value(s.drop_last(), 16) == 0);
    } else {
        lemma_hex_number(n / 16);
        assert(s.drop_last() =~= hex_number(n / 16));
    }
}

proof fn lemma_trimmed(s: Seq<char>)
    requires
        s.len() > 0,
        !is_space(s[0]),
        !is_space(s.last()),
    ensures
        trimmed(s) == s,
{
    assert(without_leading(s) == s);
    assert(without_trailing(s) == s);
}

/// What may follow the size of a chunk.
pub open spec fn is_extension(s: Seq<char>) -> bool {
    &&& s.len() > 0 ==> s[0] == ';'
    &&& is_ascii_chars(s)
    &&& !s.contains('\r')
}

proof fn lemma_ascii_number(n: nat, extension: Seq<char>)
    requires
        is_extension(extension),
    ensures
        is_ascii_chars(hex_number(n) + extension),
        forall|i: int|
            0 <= i < (hex_number(n) + extension).len() ==> #[trigger] (hex_number(n) + extension)[i] != '\r',
{
    lemma_hex_number(n);
    let s = hex_number(n) + extension;
    assert forall|i: int| 0 <= i < s.len() implies '\0' <= #[trigger] s[i] <= '\u{7f}' && s[i] != '\r' by {
        if i < hex_number(n).len() {
            assert(s[i] == hex_number(n)[i]);
        } else {
            assert(s[i] == extension[i - hex_number(n).len()]);
            assert(extension.contains(extension[i - hex_number(n).len()]));
        }
    }
}

/// The size of a chunk as it is written.
pub open spec fn size_line(n: nat, extension: Seq<char>) -> Seq<u8> {
    encode_utf8(hex_number(n) + extension)
}

proof fn lemma_size_line(n: nat, extension: Seq<char>)
    requires
        is_extension(extension),
        n <= usize::MAX,
    ensures
        chunk_size(size_line(n, extension)) == Some(n),
        forall|i: int| 0 <= i < size_line(n, extension).len() ==> #[trigger] size_line(n, extension)[i] != 13,
{
    let digits = hex_number(n);
    let s = digits + extension;
    let line = size_line(n, extension);
    encode_utf8_valid_utf8(s);
    encode_utf8_decode_utf8(s);
    lemma_hex_number(n);
    lemma_trimmed(digits);
    lemma_ascii_number(n, extension);
    is_ascii_chars_encode_utf8(s);
    assert(!digits.contains(';'));
    if extension.len() == 0 {
        assert(s =~= digits);
        s.index_of_first_ensures(';');
    } else {
        assert(s =~= digits.push(';') + extension.skip(1));
        lemma_cut_first(digits, ';', extension.skip(1));
    }
    assert forall|i: int| 0 <= i < line.len() implies #[trigger] line[i] != 13 by {
        assert(s[i] as u8 == line[i]);
    }
}

proof fn lemma_line_end_from(line: Seq<u8>, rest: Seq<u8>, i: int)
    requires
        forall|k: int| 0 <= k < line.len() ==> #[trigger] line[k] != 13,
        0 <= i <= line.len(),
    ensures
        text_at(line + lit("\r\n") + rest, lit("\r\n"), i) == Some(line.len() as int),
    decreases line.len() - i,
{
    reveal_strlit("\r\n");
    lemma_lit("\r\n");
    let s = line + lit("\r\n") + rest;
    let p = lit("\r\n");
    let here = s.subrange(i, i + 2);
    if i < line.len() {
        assert(here[0] == line[i]);
        assert(p[0] == 13);
        lemma_line_end_from(line, rest, i + 1);
    } else {
        assert(here =~= p);
    }
}

/// A chunk as it is written: the size in hexadecimal digits, what may follow it, and the bytes.
pub open spec fn chunk_bytes(data: Seq<u8>, extension: Seq<char>) -> Seq<u8> {
    size_line(data.len(), extension) + lit("\r\n") + (data + lit("\r\n"))
}

/// Chunks and the empty one at their end.
pub open spec fn chunks_bytes(list: Seq<(Seq<u8>, Seq<char>)>, last: Seq<char>, trailer: Seq<u8>) -> Seq<u8>
    decreases list.len(),
{
    if list.len() == 0 {
        size_line(0, last) + lit("\r\n") + trailer
    } else {
        chunk_bytes(list[0].0, list[0].1) + chunks_bytes(list.skip(1), last, trailer)
    }
}

/// The bytes of all chunks.
pub open spec fn chunks_data(list: Seq<(Seq<u8>, Seq<char>)>) -> Seq<u8>
    decreases list.len(),
{
    if list.len() == 0 {
        Seq::empty()
    } else {
        list[0].0 + chunks_data(list.skip(1))
    }
}

pub open spec fn is_chunk(c: (Seq<u8>, Seq<char>)) -> bool {
    0 < c.0.len() <= usize::MAX && is_extension(c.1)
}

proof fn lemma_chunk(data: Seq<u8>, extension: Seq<char>, rest: Seq<u8>)
    requires
        is_chunk((data, extension)),
    ensures
        unchunked(chunk_bytes(data, extension) + rest) == (match unchunked(rest) {
            Ok(more) => Ok(data + more),
            Err(e) => Err(e),
        }),
{
    let line = size_line(data.len(), extension);
    let after = data + lit("\r\n") + rest;
    let s = chunk_bytes(data, extension) + rest;
    reveal_strlit("\r\n");
    lemma_lit("\r\n");
    lemma_size_line(data.len(), extension);
    assert(s =~= line + lit("\r\n") + after);
    lemma_line_end_from(line, after, 0);
    lemma_text_at(s, lit("\r\n"), 0);
    assert(s.take(line.len() as int) =~= line);
    assert(s.skip(line.len() as int + 2) =~= after);
    assert(after.take(data.len() as int) =~= data);
    assert(after.skip(data.len() as int + 2) =~= rest);
}

/// A body in chunks is what the chunks hold, one after the other; what follows a size after a
/// semicolon does not matter, nor what follows the empty chunk.
pub proof fn chunks_are_put_together(list: Seq<(Seq<u8>, Seq<char>)>, last: Seq<char>, trailer: Seq<u8>)
    requires
        forall|i: int| 0 <= i < list.len() ==> is_chunk(#[trigger] list[i]),
        is_extension(last),
    ensures
        unchunked(chunks_bytes(list, last, trailer)) == Ok::<_, Seq<char>>(chunks_data(list)),
    decreases list.len(),
{
    if list.len() == 0 {
        let line = size_line(0, last);
        let s = chunks_bytes(list, last, trailer);
        reveal_strlit("\r\n");
        lemma_lit("\r\n");
        lemma_size_line(0, last);
        lemma_line_end_from(line, trailer, 0);
        lemma_text_at(s, lit("\r\n"), 0);
        assert(s.take(line.len() as int) =~= line);
    } else {
        let rest = list.skip(1);
        assert forall|i: int| 0 <= i < rest.len() implies is_chunk(#[trigger] rest[i]) by {
            assert(rest[i] == list[i + 1]);
        }
        assert(is_chunk(list[0]));
        assert(list[0] == (list[0].0, list[0].1));
        chunks_are_put_together(rest, last, trailer);
        lemma_chunk(list[0].0, list[0].1, chunks_bytes(rest, last, trailer));
    }
}

// --- heads ------------------------------------------------------------------------------------------

/// Lines with a line end between them.
pub open spec fn head_of(list: Seq<Seq<char>>) -> Seq<char>
    decreases list.len(),
{
    if list.len() == 0 {
        Seq::empty()
    } else if list.len() == 1 {
        list[0]
    } else {
        list[0] + seq!['\r', '\n'] + head_of(list.skip(1))
    }
}

/// A line of a head.
pub open spec fn is_line(s: Seq<char>) -> bool {
    s.len() > 0 && is_ascii_chars(s) && !s.contains('\r') && !s.contains('\n')
}

pub open spec fn are_lines(list: Seq<Seq<char>>) -> bool {
    list.len() > 0 && forall|i: int| 0 <= i < list.len() ==> is_line(#[trigger] list[i])
}

proof fn lemma_are_lines(list: Seq<Seq<char>>)
    requires
        are_lines(list),
        list.len() > 1,
    ensures
        are_lines(list.skip(1)),
        is_line(list[0]),
{
    let rest = list.skip(1);
    assert forall|i: int| 0 <= i < rest.len() implies is_line(#[trigger] rest[i]) by {
        assert(rest[i] == list[i + 1]);
    }
    assert(is_line(list[0]));
}

/// In a head no line is empty.
proof fn lemma_head(list: Seq<Seq<char>>)
    requires
        are_lines(list),
    ensures
        head_of(list).len() > 0,
        head_of(list)[0] != '\r',
        is_ascii_chars(head_of(list)),
        forall|i: int|
            0 <= i < head_of(list).len() && #[trigger] head_of(list)[i] == '\r' ==> i + 2 < head_of(list).len()
                && head_of(list)[i + 2] != '\r',
    decreases list.len(),
{
    let s = head_of(list);
    let first = list[0];
    assert(is_line(list[0]));
    assert forall|i: int| 0 <= i < first.len() implies #[trigger] first[i] != '\r' by {
        assert(first.contains(first[i]));
    }
    if list.len() > 1 {
        lemma_are_lines(list);
        let rest = head_of(list.skip(1));
        lemma_head(list.skip(1));
        let n = first.len() as int;
        assert forall|i: int| 0 <= i < s.len() implies '\0' <= #[trigger] s[i] <= '\u{7f}' by {
            if i < n {
                assert(s[i] == first[i]);
            } else if i >= n + 2 {
                assert(s[i] == rest[i - n - 2]);
            }
        }
        assert forall|i: int| 0 <= i < s.len() && #[trigger] s[i] == '\r' implies i + 2 < s.len() && s[i + 2]
            != '\r' by {
            if i < n {
                assert(s[i] == first[i]);
            } else if i == n {
                assert(s[i + 2] == rest[0]);
            } else if i >= n + 2 {
                assert(s[i] == rest[i - n - 2]);
                assert(s[i + 2] == rest[i - n]);
            }
        }
    }
}

/// The lines of a head.
proof fn lemma_lines(list: Seq<Seq<char>>)
    requires
        are_lines(list),
    ensures
        lines(head_of(list)) == list,
    decreases list.len(),
{
    let s = head_of(list);
    let first = list[0];
    assert(is_line(list[0]));
    s.index_of_first_ensures('\n');
    if list.len() == 1 {
        assert(seq![s] =~= list);
    } else {
        lemma_are_lines(list);
        let rest = head_of(list.skip(1));
        lemma_lines(list.skip(1));
        let line = first.push('\r');
        assert(!line.contains('\n')) by {
            assert forall|i: int| 0 <= i < line.len() implies line[i] != '\n' by {
                if i < first.len() {
                    assert(first.contains(first[i]));
                }
            }
        }
        assert(s =~= line.push('\n') + rest);
        lemma_cut_first(line, '\n', rest);
        let i = s.index_of_first('\n')->0;
        assert(i == line.len());
        assert(s[i - 1] == '\r');
        assert(s.take(i - 1) =~= first);
        assert(s.skip(i + 1) =~= rest);
        assert(seq![first] + list.skip(1) =~= list);
    }
}

/// A response: a head, an empty line and a body.
pub open spec fn response_bytes(list: Seq<Seq<char>>, body: Seq<u8>) -> Seq<u8> {
    encode_utf8(head_of(list)) + lit("\r\n\r\n") + body
}

proof fn lemma_head_end_from(list: Seq<Seq<char>>, body: Seq<u8>, i: int)
    requires
        are_lines(list),
        0 <= i <= head_of(list).len(),
    ensures
        text_at(response_bytes(list, body), lit("\r\n\r\n"), i) == Some(head_of(list).len() as int),
        encode_utf8(head_of(list)).len() == head_of(list).len(),
    decreases head_of(list).len() - i,
{
    reveal_strlit("\r\n\r\n");
    lemma_lit("\r\n\r\n");
    let text = head_of(list);
    let head = encode_utf8(text);
    let s = response_bytes(list, body);
    let p = lit("\r\n\r\n");
    lemma_head(list);
    is_ascii_chars_encode_utf8(text);
    let here = s.subrange(i, i + 4);
    if i < text.len() {
        assert(here[0] == s[i] && here[2] == s[i + 2]);
        assert(s[i] == head[i]);
        assert(text[i] as u8 == head[i]);
        assert(p[0] == 13 && p[2] == 13);
        if here == p {
            assert(text[i] == '\r');
            assert(s[i + 2] == head[i + 2]);
            assert(text[i + 2] as u8 == head[i + 2]);
        }
        lemma_head_end_from(list, body, i + 1);
    } else {
        assert(here =~= p);
    }
}

proof fn lemma_response(list: Seq<Seq<char>>, body: Seq<u8>)
    requires
        are_lines(list),
    ensures
        response_body(response_bytes(list, body)) == body_of(head_of(list), body),
{
    let text = head_of(list);
    let head = encode_utf8(text);
    let s = response_bytes(list, body);
    lemma_head_end_from(list, body, 0);
    reveal_strlit("\r\n\r\n");
    lemma_lit("\r\n\r\n");
    assert(s.take(text.len() as int) =~= head);
    assert(s.skip(text.len() as int + 4) =~= body);
    encode_utf8_valid_utf8(text);
    encode_utf8_decode_utf8(text);
}

// --- headers ----------------------------------------------------------------------------------------

/// A letter in lower case.
pub open spec fn small(c: char) -> char {
    if 'A' <= c <= 'Z' {
        (c as u8 + 32) as u8 as char
    } else {
        c
    }
}

/// A text in lower case.
pub open spec fn in_small(s: Seq<char>) -> Seq<char> {
    s.map_values(|c: char| small(c))
}

proof fn lemma_small(a: Seq<char>, b: Seq<char>)
    requires
        forall|i: int| 0 <= i < b.len() ==> !('A' <= #[trigger] b[i] <= 'Z'),
    ensures
        same_but_case(a, b) <==> in_small(a) == b,
{
    let s = in_small(a);
    if same_but_case(a, b) {
        assert forall|i: int| 0 <= i < s.len() implies s[i] == b[i] by {
            assert(lower(a[i]) == lower(b[i]));
            assert(s[i] == small(a[i]));
        }
        assert(s =~= b);
    }
    if s == b {
        assert forall|i: int| 0 <= i < a.len() implies lower(#[trigger] a[i]) == lower(b[i]) by {
            assert(s[i] == small(a[i]));
        }
    }
}

/// A header: the length of the body or that it is in chunks, under its name in letters of any case;
/// or another line.
pub enum Header {
    Length(Seq<char>, nat),
    Chunked(Seq<char>, Seq<char>),
    Other(Seq<char>),
}

pub open spec fn header_line(h: Header) -> Seq<char> {
    match h {
        Header::Length(name, n) => name + seq![':', ' '] + decimal_text(n),
        Header::Chunked(name, value) => name + seq![':', ' '] + value,
        Header::Other(line) => line,
    }
}

pub open spec fn is_header(h: Header) -> bool {
    match h {
        Header::Length(name, n) => in_small(name) == "content-length"@ && n <= usize::MAX,
        Header::Chunked(name, value) => in_small(name) == "transfer-encoding"@ && in_small(value)
            == "chunked"@,
        Header::Other(line) => is_line(line) && match cut_first(line, ':') {
            None => true,
            Some((name, _)) => in_small(name) != "content-length"@ && in_small(name)
                != "transfer-encoding"@,
        },
    }
}

/// The headers say that the body is in chunks.
pub open spec fn in_chunks(list: Seq<Header>) -> bool {
    exists|i: int| 0 <= i < list.len() && (#[trigger] list[i]) is Chunked
}

/// The length that the last header with one says.
pub open spec fn last_length(list: Seq<Header>) -> Option<nat>
    decreases list.len(),
{
    if list.len() == 0 {
        None
    } else {
        match list.last() {
            Header::Length(_, n) => Some(n),
            _ => last_length(list.drop_last()),
        }
    }
}

proof fn lemma_names()
    ensures
        "content-length"@.len() == 14,
        "transfer-encoding"@.len() == 17,
        "chunked"@.len() == 7,
        forall|i: int|
            0 <= i < 14 ==> 'a' <= #[trigger] "content-length"@[i] <= 'z' || "content-length"@[i] == '-',
        forall|i: int|
            0 <= i < 17 ==> 'a' <= #[trigger] "transfer-encoding"@[i] <= 'z' || "transfer-encoding"@[i] == '-',
        forall|i: int| 0 <= i < 7 ==> 'a' <= #[trigger] "chunked"@[i] <= 'z',
{
    reveal_strlit("content-length");
    reveal_strlit("transfer-encoding");
    reveal_strlit("chunked");
}

/// A name in letters of any case has the characters of a name.
proof fn lemma_name(s: Seq<char>, name: Seq<char>)
    requires
        in_small(s) == name,
        forall|i: int| 0 <= i < name.len() ==> 'a' <= #[trigger] name[i] <= 'z' || name[i] == '-',
    ensures
        s.len() == name.len(),
        is_ascii_chars(s),
        !s.contains(':') && !s.contains('\r') && !s.contains('\n'),
        forall|i: int| 0 <= i < s.len() ==> !is_space(#[trigger] s[i]),
{
    assert(in_small(s).len() == s.len());
    assert forall|i: int| 0 <= i < s.len() implies {
        let c = #[trigger] s[i];
        '\0' <= c <= '\u{7f}' && c != ':' && c != '\r' && c != '\n' && !is_space(c)
    } by {
        assert(in_small(s)[i] == small(s[i]));
        assert('a' <= name[i] <= 'z' || name[i] == '-');
    }
}

proof fn lemma_space_before(value: Seq<char>)
    requires
        value.len() > 0,
        !is_space(value[0]),
        !is_space(value.last()),
    ensures
        trimmed(seq![' '] + value) == value,
{
    let s = seq![' '] + value;
    assert(s.skip(1) =~= value);
    assert(is_space(' '));
    assert(without_leading(s) == without_leading(value));
    assert(without_leading(value) == value);
    assert(without_trailing(value) == value);
}

proof fn lemma_header(f: Framing, h: Header)
    requires
        is_header(h),
    ensures
        is_line(header_line(h)),
        with_header(f, header_line(h)) == Ok::<_, Seq<char>>(
            match h {
                Header::Length(_, n) => Framing { length: Some(n), ..f },
                Header::Chunked(_, _) => Framing { chunked: true, ..f },
                Header::Other(_) => f,
            },
        ),
{
    lemma_names();
    let line = header_line(h);
    match h {
        Header::Length(name, n) => {
            let value = decimal_text(n);
            lemma_decimal_text(n);
            lemma_name(name, "content-length"@);
            assert(line =~= name.push(':') + (seq![' '] + value));
            lemma_cut_first(name, ':', seq![' '] + value);
            lemma_small(name, "content-length"@);
            assert('0' <= value[0] <= '9');
            assert('0' <= value[value.len() - 1] <= '9');
            lemma_space_before(value);
            assert forall|i: int| 0 <= i < line.len() implies {
                let c = #[trigger] line[i];
                '\0' <= c <= '\u{7f}' && c != '\r' && c != '\n'
            } by {
                if i < name.len() {
                    assert(line[i] == name[i]);
                    assert(name.contains(name[i]));
                } else if i >= name.len() + 2 {
                    assert(line[i] == value[i - name.len() - 2]);
                }
            }
        },
        Header::Chunked(name, value) => {
            lemma_name(name, "transfer-encoding"@);
            lemma_name(value, "chunked"@);
            assert(line =~= name.push(':') + (seq![' '] + value));
            lemma_cut_first(name, ':', seq![' '] + value);
            lemma_small(name, "content-length"@);
            lemma_small(name, "transfer-encoding"@);
            lemma_small(value, "chunked"@);
            lemma_space_before(value);
            assert forall|i: int| 0 <= i < line.len() implies {
                let c = #[trigger] line[i];
                '\0' <= c <= '\u{7f}' && c != '\r' && c != '\n'
            } by {
                if i < name.len() {
                    assert(line[i] == name[i]);
                    assert(name.contains(name[i]));
                } else if i >= name.len() + 2 {
                    assert(line[i] == value[i - name.len() - 2]);
                    assert(value.contains(value[i - name.len() - 2]));
                }
            }
        },
        Header::Other(line) => {
            if let Some((name, _)) = cut_first(line, ':') {
                lemma_small(name, "content-length"@);
                lemma_small(name, "transfer-encoding"@);
            }
        },
    }
}

/// The lines of headers.
pub open spec fn header_lines(list: Seq<Header>) -> Seq<Seq<char>> {
    list.map_values(|h: Header| header_line(h))
}

/// What the headers say of the body.
pub open spec fn framing_of(list: Seq<Header>) -> Framing {
    Framing { length: last_length(list), chunked: in_chunks(list) }
}

proof fn lemma_one_more(list: Seq<Header>, n: int)
    requires
        0 <= n < list.len(),
    ensures
        framing_of(list.take(n + 1)) == (match list[n] {
            Header::Length(_, m) => Framing { length: Some(m), ..framing_of(list.take(n)) },
            Header::Chunked(_, _) => Framing { chunked: true, ..framing_of(list.take(n)) },
            Header::Other(_) => framing_of(list.take(n)),
        }),
{
    let (a, b) = (list.take(n), list.take(n + 1));
    assert(b.drop_last() =~= a);
    assert(b.last() == list[n]);
    if in_chunks(a) {
        let i = choose|i: int| 0 <= i < a.len() && (#[trigger] a[i]) is Chunked;
        assert(b[i] is Chunked);
    }
    if in_chunks(b) {
        let i = choose|i: int| 0 <= i < b.len() && (#[trigger] b[i]) is Chunked;
        if i < n {
            assert(a[i] is Chunked);
        }
    }
    if list[n] is Chunked {
        assert(b[n] is Chunked);
    }
}

proof fn lemma_framing(first: Seq<char>, list: Seq<Header>, n: int)
    requires
        forall|i: int| 0 <= i < list.len() ==> is_header(#[trigger] list[i]),
        0 <= n <= list.len(),
    ensures
        framing_from(framing_of(list.take(n)), seq![first] + header_lines(list), n + 1) == Ok::<_, Seq<char>>(
            framing_of(list),
        ),
    decreases list.len() - n,
{
    let all = seq![first] + header_lines(list);
    if n < list.len() {
        assert(all[n + 1] == header_line(list[n]));
        assert(is_header(list[n]));
        lemma_header(framing_of(list.take(n)), list[n]);
        lemma_one_more(list, n);
        lemma_framing(first, list, n + 1);
    } else {
        assert(list.take(n) =~= list);
    }
}

/// The first line of a response.
pub open spec fn status_line(version: Seq<char>, code: Seq<char>, reason: Seq<char>) -> Seq<char> {
    version + seq![' '] + code + seq![' '] + reason
}

proof fn lemma_status(version: Seq<char>, code: Seq<char>, reason: Seq<char>)
    requires
        !version.contains(' '),
        !code.contains(' '),
    ensures
        second_field(status_line(version, code, reason)) == code,
{
    let rest = code.push(' ') + reason;
    assert(status_line(version, code, reason) =~= version.push(' ') + rest);
    lemma_cut_first(version, ' ', rest);
    lemma_cut_first(code, ' ', reason);
}

/// The body of a response with status 200 is what the headers say: what the chunks hold where it is
/// in chunks, else as many bytes as the last length says, else all of them. Another status is
/// reported.
pub proof fn responses_are_read_as_written(
    version: Seq<char>,
    code: Seq<char>,
    reason: Seq<char>,
    list: Seq<Header>,
    body: Seq<u8>,
)
    requires
        !version.contains(' '),
        !code.contains(' '),
        is_line(status_line(version, code, reason)),
        forall|i: int| 0 <= i < list.len() ==> is_header(#[trigger] list[i]),
    ensures
        ({
            let r = response_body(
                response_bytes(seq![status_line(version, code, reason)] + header_lines(list), body),
            );
            if code != "200"@ {
                r == Err::<Seq<u8>, _>("HTTP "@ + code)
            } else if in_chunks(list) {
                r == unchunked(body)
            } else {
                match last_length(list) {
                    Some(n) => if n <= body.len() {
                        r == Ok::<_, Seq<char>>(body.take(n as int))
                    } else {
                        r == Err::<Seq<u8>, _>("truncated HTTP body"@)
                    },
                    None => r == Ok::<_, Seq<char>>(body),
                }
            }
        }),
{
    let first = status_line(version, code, reason);
    let all = seq![first] + header_lines(list);
    assert(are_lines(all)) by {
        assert forall|i: int| 0 <= i < all.len() implies is_line(#[trigger] all[i]) by {
            if i > 0 {
                assert(is_header(list[i - 1]));
                lemma_header(framing_of(list), list[i - 1]);
                assert(all[i] == header_line(list[i - 1]));
            }
        }
    }
    lemma_response(all, body);
    lemma_lines(all);
    lemma_status(version, code, reason);
    assert(status_of(all) == code);
    assert(list.take(0) =~= Seq::<Header>::empty());
    assert(!in_chunks(list.take(0)));
    assert(framing_of(list.take(0)) == (Framing { length: None, chunked: false }));
    lemma_framing(first, list, 0);
}

// --- requests -----------------------------------------------------------------------------------------

/// Lines, each with a line end.
pub open spec fn ended(list: Seq<Seq<char>>) -> Seq<char>
    decreases list.len(),
{
    if list.len() == 0 {
        Seq::empty()
    } else {
        ended(list.drop_last()) + list.last() + seq!['\r', '\n']
    }
}

proof fn lemma_ended(list: Seq<Seq<char>>, line: Seq<char>)
    ensures
        ended(list.push(line)) == ended(list) + line + seq!['\r', '\n'],
{
    assert(list.push(line).drop_last() =~= list);
}

/// The first line of a request.
pub open spec fn request_line(url: UrlView, rel: Seq<char>, method: Seq<char>) -> Seq<char> {
    method + seq![' '] + url.path + seq!['/'] + rel + " HTTP/1.1"@
}

/// The lines of a request without a body.
pub open spec fn request_lines(url: UrlView, rel: Seq<char>, method: Seq<char>) -> Seq<Seq<char>> {
    seq![
        request_line(url, rel, method),
        "Host: "@ + host_text(url),
        "Connection: close"@,
        "Git-Protocol: version=2"@,
        "Accept: */*"@,
    ]
}

proof fn lemma_middle()
    ensures
        " HTTP/1.1\r\nHost: "@ == " HTTP/1.1"@ + seq!['\r', '\n'] + "Host: "@,
        "\r\nConnection: close\r\nGit-Protocol: version=2\r\nAccept: */*\r\n"@ == seq!['\r', '\n']
            + "Connection: close"@ + seq!['\r', '\n'] + "Git-Protocol: version=2"@ + seq!['\r', '\n']
            + "Accept: */*"@ + seq!['\r', '\n'],
        "\r\nContent-Length: "@ == seq!['\r', '\n'] + "Content-Length: "@,
        "\r\n"@ == seq!['\r', '\n'],
        " "@ == seq![' '],
        "/"@ == seq!['/'],
{
    reveal_strlit(" HTTP/1.1\r\nHost: ");
    reveal_strlit(" HTTP/1.1");
    reveal_strlit("Host: ");
    reveal_strlit("\r\nConnection: close\r\nGit-Protocol: version=2\r\nAccept: */*\r\n");
    reveal_strlit("Connection: close");
    reveal_strlit("Git-Protocol: version=2");
    reveal_strlit("Accept: */*");
    reveal_strlit("\r\nContent-Length: ");
    reveal_strlit("Content-Length: ");
    reveal_strlit("\r\n");
    reveal_strlit(" ");
    reveal_strlit("/");
    let end = seq!['\r', '\n'];
    assert(" HTTP/1.1\r\nHost: "@ =~= " HTTP/1.1"@ + end + "Host: "@);
    assert("\r\nConnection: close\r\nGit-Protocol: version=2\r\nAccept: */*\r\n"@ =~= end
        + "Connection: close"@ + end + "Git-Protocol: version=2"@ + end + "Accept: */*"@ + end);
    assert("\r\nContent-Length: "@ =~= end + "Content-Length: "@);
    assert("\r\n"@ =~= end);
    assert(" "@ =~= seq![' ']);
    assert("/"@ =~= seq!['/']);
}

proof fn lemma_request_lines(url: UrlView, rel: Seq<char>, method: Seq<char>)
    ensures
        ended(request_lines(url, rel, method)) == method + " "@ + url.path + "/"@ + rel
            + " HTTP/1.1\r\nHost: "@ + host_text(url)
            + "\r\nConnection: close\r\nGit-Protocol: version=2\r\nAccept: */*\r\n"@,
{
    lemma_middle();
    let end = seq!['\r', '\n'];
    let none = Seq::<Seq<char>>::empty();
    let a = request_line(url, rel, method);
    let b = "Host: "@ + host_text(url);
    let l1 = none.push(a);
    let l2 = l1.push(b);
    let l3 = l2.push("Connection: close"@);
    let l4 = l3.push("Git-Protocol: version=2"@);
    let l5 = l4.push("Accept: */*"@);
    assert(l5 =~= request_lines(url, rel, method));
    lemma_ended(none, a);
    lemma_ended(l1, b);
    lemma_ended(l2, "Connection: close"@);
    lemma_ended(l3, "Git-Protocol: version=2"@);
    lemma_ended(l4, "Accept: */*"@);
    let start = method + " "@ + url.path + "/"@ + rel;
    assert(ended(l1) =~= start + " HTTP/1.1"@ + end);
    assert(ended(l2) =~= start + (" HTTP/1.1"@ + end + "Host: "@) + host_text(url) + end);
    let head = start + (" HTTP/1.1"@ + end + "Host: "@) + host_text(url);
    assert(ended(l5) =~= head + (end + "Connection: close"@ + end + "Git-Protocol: version=2"@ + end
        + "Accept: */*"@ + end));
}

/// A request is made of lines and an empty one: what is asked for, the host, and that the connection
/// is closed and the protocol is of version 2; with a body also its type and how long it is.
pub proof fn requests_are_made_of_lines(url: UrlView, rel: Seq<char>, content_type: Seq<char>, n: nat)
    ensures
        head_text(url, rel, None) == ended(request_lines(url, rel, "GET"@)) + seq!['\r', '\n'],
        head_text(url, rel, Some((content_type, n))) == ended(
            request_lines(url, rel, "POST"@) + seq![
                "Content-Type: "@ + content_type,
                "Content-Length: "@ + decimal_text(n),
            ],
        ) + seq!['\r', '\n'],
{
    lemma_request_lines(url, rel, "GET"@);
    lemma_request_lines(url, rel, "POST"@);
    lemma_middle();
    let end = seq!['\r', '\n'];
    let get = ended(request_lines(url, rel, "GET"@));
    assert(get + Seq::<char>::empty() =~= get);
    let list = request_lines(url, rel, "POST"@);
    let (a, b) = ("Content-Type: "@ + content_type, "Content-Length: "@ + decimal_text(n));
    assert(list + seq![a, b] =~= list.push(a).push(b));
    lemma_ended(list, a);
    lemma_ended(list.push(a), b);
    let post = ended(list);
    assert(ended(list + seq![a, b]) =~= post + ("Content-Type: "@ + content_type + (end
        + "Content-Length: "@) + decimal_text(n) + end));
}

} // verus!
