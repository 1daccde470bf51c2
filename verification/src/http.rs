//! HTTP/1.1 as far as a git client needs it: addresses, requests and responses as bytes. The
//! connection is closed after each response.

use vstd::prelude::*;
use vstd::utf8::{decode_utf8, encode_utf8, valid_utf8};

use crate::bytes::{
    first_text, from_index, lemma_lit, lemma_text_at, lit, owned, text, text_at, up_to,
};
use crate::text::{
    after_text, char_views, chars_from, chars_of, chars_to, cut_first, cut_last, decimal_text,
    equals_but_case, first_of, is_text, last_of, lemma_cut_first, lemma_cut_last,
    lemma_decimal_text, lines, lines_of, number_in, parse_number, push_chars, push_number, readable,
    readable_text, same_but_case, strict, string_of, strip_text, trim,
    trim_end, trimmed, without_end,
};

verus! {

/// Where a repository is served.
pub struct Url {
    pub host: String,
    pub port: u16,
    /// The path of the repository, with the slash before it and none after it.
    pub path: String,
}

pub struct UrlView {
    pub host: Seq<char>,
    pub port: nat,
    pub path: Seq<char>,
}

impl View for Url {
    type V = UrlView;

    open spec fn view(&self) -> UrlView {
        UrlView { host: self.host@, port: self.port as nat, path: self.path@ }
    }
}

// --- addresses ---------------------------------------------------------------------------------------------

/// The host, and the port where there is one. A host in square brackets may hold colons.
pub open spec fn host_and_port(authority: Seq<char>) -> Option<(Seq<char>, Option<Seq<char>>)> {
    if authority.len() > 0 && authority[0] == '[' {
        match cut_first(authority.skip(1), ']') {
            None => None,
            Some((host, after)) => if after.len() == 0 {
                Some((host, None))
            } else if after[0] == ':' {
                Some((host, Some(after.skip(1))))
            } else {
                None
            },
        }
    } else {
        match cut_last(authority, ':') {
            Some((host, port)) => Some((host, Some(port))),
            None => Some((authority, None)),
        }
    }
}

/// The address that a text stands for, or what is wrong with the text.
pub open spec fn url_of(s: Seq<char>) -> core::result::Result<UrlView, Seq<char>> {
    match after_text(s, "http://"@) {
        None => Err("unsupported URL (http:// only): "@ + s),
        Some(rest) => {
            let (authority, path) = match rest.index_of_first('/') {
                Some(i) => (rest.take(i), without_end(rest.skip(i), '/')),
                None => (rest, Seq::empty()),
            };
            match host_and_port(authority) {
                None => Err("invalid URL: "@ + s),
                Some((host, port)) => {
                    let number = match port {
                        Some(p) => number_in(p, 10, 65535),
                        None => Some(80),
                    };
                    match number {
                        None => Err("invalid port: "@ + port->0),
                        Some(port) => if host.len() == 0 {
                            Err("invalid URL: "@ + s)
                        } else {
                            Ok(UrlView { host, port, path })
                        },
                    }
                },
            }
        },
    }
}

/// A host and a port as the `Host` header has them: a host with a colon in square brackets.
pub open spec fn host_text(url: UrlView) -> Seq<char> {
    if url.host.contains(':') {
        "["@ + url.host + "]:"@ + decimal_text(url.port)
    } else {
        url.host + ":"@ + decimal_text(url.port)
    }
}

fn joined(a: &str, b: &[char]) -> (r: String)
    ensures
        r@ == a@ + b@,
{
    let mut out = a.to_owned();
    push_chars(&mut out, b);
    out
}

fn split_authority<'a>(authority: &'a [char]) -> (r: Option<(&'a [char], Option<&'a [char]>)>)
    ensures
        match (r, host_and_port(authority@)) {
            (Some((host, Some(port))), Some((h, Some(p)))) => host@ == h && port@ == p,
            (Some((host, None)), Some((h, None))) => host@ == h,
            (None, None) => true,
            _ => false,
        },
{
    if authority.len() > 0 && authority[0] == '[' {
        let inner = chars_from(authority, 1);
        let i: usize = match first_of(inner, ']') {
            Some(i) => i,
            None => {
                return None;
            },
        };
        let host = chars_to(inner, i);
        let after = chars_from(inner, i + 1);
        if after.len() == 0 {
            Some((host, None))
        } else if after[0] == ':' {
            Some((host, Some(chars_from(after, 1))))
        } else {
            None
        }
    } else {
        match last_of(authority, ':') {
            Some(i) => Some((chars_to(authority, i), Some(chars_from(authority, i + 1)))),
            None => Some((authority, None)),
        }
    }
}

impl Url {
    /// Reads an address. Only `http://` is known.
    pub fn parse(s: &str) -> (r: core::result::Result<Self, String>)
        ensures
            match (r, url_of(s@)) {
                (Ok(url), Ok(u)) => url@ == u,
                (Err(e), Err(f)) => e@ == f,
                _ => false,
            },
    {
        let list = chars_of(s);
        let all = list.as_slice();
        let rest = match strip_text(all, "http://") {
            Some(rest) => rest,
            None => {
                return Err(joined("unsupported URL (http:// only): ", all));
            },
        };
        let (authority, path): (&[char], &[char]) = match first_of(rest, '/') {
            Some(i) => (chars_to(rest, i), trim_end(chars_from(rest, i), '/')),
            None => (rest, chars_from(rest, rest.len())),
        };
        proof {
            assert(rest@.skip(rest@.len() as int) =~= Seq::<char>::empty());
        }
        let (host, port_text) = match split_authority(authority) {
            Some(parts) => parts,
            None => {
                return Err(joined("invalid URL: ", all));
            },
        };
        let port: u16 = match port_text {
            Some(p) => match parse_number(p, 10, 65535) {
                Some(n) => n as u16,
                None => {
                    return Err(joined("invalid port: ", p));
                },
            },
            None => 80,
        };
        if host.len() == 0 {
            return Err(joined("invalid URL: ", all));
        }
        Ok(Url { host: string_of(host), port, path: string_of(path) })
    }

    /// The host and the port for the `Host` header.
    pub fn host_header(&self) -> (r: String)
        ensures
            r@ == host_text(self@),
    {
        let host = chars_of(self.host.as_str());
        let mut out = String::new();
        let colon = first_of(host.as_slice(), ':').is_some();
        proof {
            host@.index_of_first_ensures(':');
        }
        if colon {
            out.append("[");
            out.append(self.host.as_str());
            out.append("]:");
        } else {
            out.append(self.host.as_str());
            out.append(":");
        }
        push_number(&mut out, self.port as u64);
        assert(out@ =~= host_text(self@));
        out
    }
}

/// A host that can be told from the brackets that may stand around it.
pub open spec fn readable_host(host: Seq<char>) -> bool {
    host.len() > 0 && if host.contains(':') {
        !host.contains(']')
    } else {
        host[0] != '['
    }
}

proof fn lemma_host_and_port(u: UrlView)
    requires
        readable_host(u.host),
    ensures
        host_and_port(host_text(u)) == Some((u.host, Some(decimal_text(u.port)))),
{
    let digits = decimal_text(u.port);
    reveal_strlit("[");
    reveal_strlit("]:");
    reveal_strlit(":");
    lemma_decimal_text(u.port);
    if u.host.contains(':') {
        let s = host_text(u);
        let after = seq![':'] + digits;
        assert(s.skip(1) =~= u.host.push(']') + after);
        lemma_cut_first(u.host, ']', after);
        assert(s[0] == '[');
        assert(after.skip(1) =~= digits);
    } else {
        assert(host_text(u) =~= u.host.push(':') + digits);
        assert(!digits.contains(':')) by {
            if digits.contains(':') {
                let i = choose|i: int| 0 <= i < digits.len() && digits[i] == ':';
                assert(digits[i] <= '9');
            }
        }
        lemma_cut_last(u.host, ':', digits);
        assert(host_text(u)[0] == u.host[0]);
    }
}

/// The `Host` header restores what stood in the address: an address made of it and the path is read
/// as the same host, port and path.
pub proof fn host_header_restores_the_address(u: UrlView)
    requires
        readable_host(u.host),
        !u.host.contains('/'),
        u.port <= 65535,
        u.path.len() == 0 || (u.path[0] == '/' && u.path.last() != '/'),
    ensures
        url_of("http://"@ + host_text(u) + u.path) == Ok::<_, Seq<char>>(u),
{
    let host = host_text(u);
    let digits = decimal_text(u.port);
    let s = "http://"@ + host + u.path;
    let rest = host + u.path;
    reveal_strlit("[");
    reveal_strlit("]:");
    reveal_strlit(":");
    lemma_decimal_text(u.port);
    assert(s.take("http://"@.len() as int) =~= "http://"@);
    assert(s.skip("http://"@.len() as int) =~= rest);
    assert(!host.contains('/')) by {
        if host.contains('/') {
            let i = choose|i: int| 0 <= i < host.len() && host[i] == '/';
            let (start, end): (int, int) = if u.host.contains(':') {
                (1, u.host.len() as int + 3)
            } else {
                (0, u.host.len() as int + 1)
            };
            if start <= i < start + u.host.len() {
                assert(u.host[i - start] == '/');
            } else if i >= end {
                assert(digits[i - end] == '/');
            }
        }
    }
    if u.path.len() == 0 {
        assert(rest =~= host);
        rest.index_of_first_ensures('/');
        assert(u.path =~= Seq::<char>::empty());
    } else {
        assert(rest =~= host.push('/') + u.path.skip(1));
        lemma_cut_first(host, '/', u.path.skip(1));
        assert(rest.take(host.len() as int) =~= host);
        assert(rest.skip(host.len() as int) =~= u.path);
    }
    lemma_host_and_port(u);
    assert(digits[0] != '+');
}

// --- requests ----------------------------------------------------------------------------------------------

/// The lines before the body of a request for `rel` below the repository's path.
pub open spec fn head_text(url: UrlView, rel: Seq<char>, body: Option<(Seq<char>, nat)>) -> Seq<char> {
    let method = if body is Some {
        "POST"@
    } else {
        "GET"@
    };
    let sent = match body {
        Some((content_type, len)) => "Content-Type: "@ + content_type + "\r\nContent-Length: "@
            + decimal_text(len) + "\r\n"@,
        None => Seq::empty(),
    };
    method + " "@ + url.path + "/"@ + rel + " HTTP/1.1\r\nHost: "@ + host_text(url)
        + "\r\nConnection: close\r\nGit-Protocol: version=2\r\nAccept: */*\r\n"@ + sent + "\r\n"@
}

/// The lines before the body of a request: `GET` without a body, `POST` with one.
pub fn request_head(url: &Url, rel: &str, body: Option<(&str, &[u8])>) -> (r: String)
    ensures
        r@ == head_text(
            url@,
            rel@,
            match body {
                Some((content_type, data)) => Some((content_type@, data@.len())),
                None => None,
            },
        ),
{
    let mut out = if body.is_some() {
        "POST".to_owned()
    } else {
        "GET".to_owned()
    };
    out.append(" ");
    out.append(url.path.as_str());
    out.append("/");
    out.append(rel);
    out.append(" HTTP/1.1\r\nHost: ");
    out.append(url.host_header().as_str());
    out.append("\r\nConnection: close\r\nGit-Protocol: version=2\r\nAccept: */*\r\n");
    let ghost before = out@;
    if let Some((content_type, data)) = body {
        out.append("Content-Type: ");
        out.append(content_type);
        out.append("\r\nContent-Length: ");
        push_number(&mut out, data.len() as u64);
        out.append("\r\n");
        assert(out@ =~= before + ("Content-Type: "@ + content_type@ + "\r\nContent-Length: "@
            + decimal_text(data@.len()) + "\r\n"@));
    } else {
        assert(out@ =~= before + Seq::<char>::empty());
    }
    out.append("\r\n");
    out
}

/// A request as it is sent.
pub fn request_bytes(url: &Url, rel: &str, body: Option<(&str, &[u8])>) -> (r: Vec<u8>)
    ensures
        r@ == match body {
            Some((content_type, data)) => encode_utf8(
                head_text(url@, rel@, Some((content_type@, data@.len()))),
            ) + data@,
            None => encode_utf8(head_text(url@, rel@, None)),
        },
{
    let head = request_head(url, rel, body);
    let mut out = owned(head.as_str().as_bytes());
    if let Some((_, data)) = body {
        out.extend_from_slice(data);
    }
    out
}

// --- responses ----------------------------------------------------------------------------------------------

/// The second of the fields that spaces separate; empty where there is none.
pub open spec fn second_field(s: Seq<char>) -> Seq<char> {
    match cut_first(s, ' ') {
        None => Seq::empty(),
        Some((_, rest)) => match cut_first(rest, ' ') {
            Some((field, _)) => field,
            None => rest,
        },
    }
}

/// The status in the first line of a response.
pub open spec fn status_of(lines: Seq<Seq<char>>) -> Seq<char> {
    if lines.len() == 0 {
        Seq::empty()
    } else {
        second_field(lines[0])
    }
}

/// What the headers say of the body.
pub struct Framing {
    pub length: Option<nat>,
    pub chunked: bool,
}

/// What one more header line says.
pub open spec fn with_header(f: Framing, line: Seq<char>) -> core::result::Result<Framing, Seq<char>> {
    match cut_first(line, ':') {
        None => Ok(f),
        Some((name, value)) => if same_but_case(name, "content-length"@) {
            match number_in(trimmed(value), 10, usize::MAX as nat) {
                Some(n) => Ok(Framing { length: Some(n), ..f }),
                None => Err("invalid Content-Length"@),
            }
        } else if same_but_case(name, "transfer-encoding"@) && same_but_case(
            trimmed(value),
            "chunked"@,
        ) {
            Ok(Framing { chunked: true, ..f })
        } else {
            Ok(f)
        },
    }
}

/// What the header lines say, from line `i` on.
pub open spec fn framing_from(
    f: Framing,
    lines: Seq<Seq<char>>,
    i: int,
) -> core::result::Result<Framing, Seq<char>>
    decreases lines.len() - i,
{
    if i >= lines.len() {
        Ok(f)
    } else {
        match with_header(f, lines[i]) {
            Ok(g) => framing_from(g, lines, i + 1),
            Err(e) => Err(e),
        }
    }
}

/// The size in the line before a chunk: hexadecimal digits, and after a semicolon what does not
/// matter.
pub open spec fn chunk_size(line: Seq<u8>) -> Option<nat> {
    if !valid_utf8(line) {
        None
    } else {
        let s = decode_utf8(line);
        let digits = match cut_first(s, ';') {
            Some((before, _)) => before,
            None => s,
        };
        number_in(trimmed(digits), 16, usize::MAX as nat)
    }
}

/// What a body in chunks holds.
pub open spec fn unchunked(data: Seq<u8>) -> core::result::Result<Seq<u8>, Seq<char>>
    decreases data.len(),
{
    proof {
        reveal_strlit("\r\n");
        lemma_lit("\r\n");
        lemma_text_at(data, lit("\r\n"), 0);
    }
    match text_at(data, lit("\r\n"), 0) {
        None => Err("truncated chunk size"@),
        Some(i) => match chunk_size(data.take(i)) {
            None => Err("invalid chunk size"@),
            Some(n) => {
                let rest = data.skip(i + 2);
                if n == 0 {
                    Ok(Seq::empty())
                } else if n > rest.len() {
                    Err("truncated chunk"@)
                } else if n + 2 > rest.len() {
                    Err("truncated chunk terminator"@)
                } else {
                    match unchunked(rest.skip(n as int + 2)) {
                        Ok(more) => Ok(rest.take(n as int) + more),
                        Err(e) => Err(e),
                    }
                }
            },
        },
    }
}

/// The body that a response holds, from the lines before it and the bytes after them.
pub open spec fn body_of(head: Seq<char>, body: Seq<u8>) -> core::result::Result<Seq<u8>, Seq<char>> {
    let list = lines(head);
    if status_of(list) != "200"@ {
        Err("HTTP "@ + status_of(list))
    } else {
        match framing_from(Framing { length: None, chunked: false }, list, 1) {
            Err(e) => Err(e),
            Ok(f) => if f.chunked {
                unchunked(body)
            } else {
                match f.length {
                    Some(n) => if n <= body.len() {
                        Ok(body.take(n as int))
                    } else {
                        Err("truncated HTTP body"@)
                    },
                    None => Ok(body),
                }
            },
        }
    }
}

/// The body that a response holds, or why it has none.
pub open spec fn response_body(raw: Seq<u8>) -> core::result::Result<Seq<u8>, Seq<char>> {
    match text_at(raw, lit("\r\n\r\n"), 0) {
        None => Err("truncated HTTP response"@),
        Some(i) => body_of(readable_text(raw.take(i)), raw.skip(i + 4)),
    }
}

/// The result is the text or the bytes that are asked for.
pub open spec fn gives(
    r: core::result::Result<Vec<u8>, String>,
    s: core::result::Result<Seq<u8>, Seq<char>>,
) -> bool {
    match (r, s) {
        (Ok(v), Ok(w)) => v@ == w,
        (Err(e), Err(f)) => e@ == f,
        _ => false,
    }
}

fn second<'a>(s: &'a [char]) -> (r: &'a [char])
    ensures
        r@ == second_field(s@),
{
    let i: usize = match first_of(s, ' ') {
        Some(i) => i,
        None => {
            assert(s@.skip(s@.len() as int) =~= Seq::<char>::empty());
            return chars_from(s, s.len());
        },
    };
    let rest = chars_from(s, i + 1);
    match first_of(rest, ' ') {
        Some(k) => chars_to(rest, k),
        None => rest,
    }
}

fn size_of_chunk(line: &[u8]) -> (r: Option<usize>)
    ensures
        match r {
            Some(n) => chunk_size(line@) == Some(n as nat),
            None => chunk_size(line@) is None,
        },
{
    let s = match strict(line) {
        Some(s) => s,
        None => {
            return None;
        },
    };
    let list = chars_of(s.as_str());
    let digits = match first_of(list.as_slice(), ';') {
        Some(i) => chars_to(list.as_slice(), i),
        None => list.as_slice(),
    };
    match parse_number(trim(digits), 16, usize::MAX as u64) {
        Some(n) => Some(n as usize),
        None => None,
    }
}

/// Puts a body in chunks together.
pub fn decode_chunked(data: &[u8]) -> (r: core::result::Result<Vec<u8>, String>)
    ensures
        gives(r, unchunked(data@)),
{
    let mut out: Vec<u8> = Vec::new();
    let mut rest = data;
    assert(match unchunked(data@) {
        Ok(all) => Seq::<u8>::empty() + all =~= all,
        Err(_) => true,
    });
    loop
        invariant
            match (unchunked(data@), unchunked(rest@)) {
                (Ok(all), Ok(more)) => all == out@ + more,
                (Err(e), Err(f)) => e == f,
                _ => false,
            },
        decreases rest@.len(),
    {
        proof {
            reveal_strlit("\r\n");
            lemma_lit("\r\n");
        }
        let i: usize = match first_text(rest, text("\r\n")) {
            Some(i) => i,
            None => {
                return Err("truncated chunk size".to_owned());
            },
        };
        let n: usize = match size_of_chunk(up_to(rest, i)) {
            Some(n) => n,
            None => {
                return Err("invalid chunk size".to_owned());
            },
        };
        let after = from_index(rest, i + 2);
        if n == 0 {
            assert(out@ + Seq::<u8>::empty() =~= out@);
            return Ok(out);
        }
        if n > after.len() {
            return Err("truncated chunk".to_owned());
        }
        if after.len() - n < 2 {
            return Err("truncated chunk terminator".to_owned());
        }
        let ghost before = out@;
        out.extend_from_slice(up_to(after, n));
        rest = from_index(after, n + 2);
        proof {
            if let Ok(more) = unchunked(rest@) {
                assert(out@ + more =~= before + (after@.take(n as int) + more));
            }
        }
    }
}

/// The body of a response, from the lines before it and the bytes after them.
pub fn read_body(head: &str, body: &[u8]) -> (r: core::result::Result<Vec<u8>, String>)
    ensures
        gives(r, body_of(head@, body@)),
{
    let list = chars_of(head);
    let all = lines_of(list.as_slice());
    let ghost views = lines(head@);
    let mut status: &[char] = chars_from(list.as_slice(), list.len());
    assert(status@ =~= Seq::<char>::empty());
    if all.len() > 0 {
        status = second(all[0]);
        assert(char_views(all@)[0] == all@[0]@);
    }
    if !is_text(status, "200") {
        return Err(joined("HTTP ", status));
    }
    let mut length: Option<usize> = None;
    let mut chunked = false;
    let ghost mut f = Framing { length: None, chunked: false };
    let mut i: usize = 1;
    while i < all.len()
        invariant
            1 <= i,
            views == char_views(all@),
            framing_from(Framing { length: None, chunked: false }, views, 1) == framing_from(
                f,
                views,
                i as int,
            ),
            f.chunked == chunked,
            f.length == (match length {
                Some(n) => Some(n as nat),
                None => None,
            }),
            views == lines(head@),
            status_of(views) == "200"@,
        decreases all.len() - i,
    {
        let line = all[i];
        assert(views[i as int] == line@);
        if let Some(k) = first_of(line, ':') {
            let name = chars_to(line, k);
            let value = trim(chars_from(line, k + 1));
            if equals_but_case(name, "content-length") {
                match parse_number(value, 10, usize::MAX as u64) {
                    Some(n) => {
                        length = Some(n as usize);
                    },
                    None => {
                        return Err("invalid Content-Length".to_owned());
                    },
                }
            } else if equals_but_case(name, "transfer-encoding") && equals_but_case(value, "chunked") {
                chunked = true;
            }
        }
        proof {
            f = with_header(f, line@)->Ok_0;
        }
        i += 1;
    }
    if chunked {
        return decode_chunked(body);
    }
    if let Some(n) = length {
        if n <= body.len() {
            return Ok(owned(up_to(body, n)));
        }
        return Err("truncated HTTP body".to_owned());
    }
    Ok(owned(body))
}

/// The body of a response with status 200.
pub fn parse_response(raw: &[u8]) -> (r: core::result::Result<Vec<u8>, String>)
    ensures
        gives(r, response_body(raw@)),
{
    proof {
        reveal_strlit("\r\n\r\n");
        lemma_lit("\r\n\r\n");
    }
    let i: usize = match first_text(raw, text("\r\n\r\n")) {
        Some(i) => i,
        None => {
            return Err("truncated HTTP response".to_owned());
        },
    };
    let head = readable(up_to(raw, i));
    read_body(head.as_str(), from_index(raw, i + 4))
}

} // verus!
