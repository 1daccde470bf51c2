use tig::http::{decode_chunked, parse_response, read_body, request_bytes, request_head, Url};

#[test]
fn url_parse() {
    let u = Url::parse("http://example.com:8080/path/repo.git/").ok().unwrap();
    assert_eq!(u.host, "example.com");
    assert_eq!(u.port, 8080);
    assert_eq!(u.path, "/path/repo.git");
    assert_eq!(u.host_header(), "example.com:8080");

    assert!(Url::parse("https://example.com/x").is_err());
    assert!(Url::parse("http://:80/").is_err());
}

#[test]
fn url_parse_ipv6() {
    let u = Url::parse("http://[::1]:8000/repo.git").ok().unwrap();
    assert_eq!(u.host, "::1");
    assert_eq!(u.port, 8000);
    assert_eq!(u.host_header(), "[::1]:8000");

    let u = Url::parse("http://[2001:db8::1]/repo.git").ok().unwrap();
    assert_eq!(u.host, "2001:db8::1");
    assert_eq!(u.port, 80);
    assert_eq!(u.host_header(), "[2001:db8::1]:80");

    assert!(Url::parse("http://[::1/x").is_err());
    assert!(Url::parse("http://[::1]8000/x").is_err());
}

#[test]
fn response_content_length() {
    let raw = b"HTTP/1.1 200 OK\r\nContent-Length: 5\r\n\r\nhellorest";
    assert_eq!(parse_response(raw).unwrap(), b"hello");
}

#[test]
fn response_chunked() {
    let raw = b"HTTP/1.1 200 OK\r\nTransfer-Encoding: chunked\r\n\r\n5\r\nhello\r\n1\r\n!\r\n0\r\n\r\n";
    assert_eq!(parse_response(raw).unwrap(), b"hello!");
}

#[test]
fn response_non_200() {
    let raw = b"HTTP/1.1 404 Not Found\r\n\r\n";
    assert_eq!(parse_response(raw).unwrap_err(), "HTTP 404");
}

fn url_error(s: &str) -> String {
    Url::parse(s).err().unwrap()
}

#[test]
fn url_errors_say_what_is_wrong() {
    assert_eq!(
        url_error("https://example.com/x"),
        "unsupported URL (http:// only): https://example.com/x"
    );
    assert_eq!(url_error("http://[::1/x"), "invalid URL: http://[::1/x");
    assert_eq!(url_error("http://[::1]8000/x"), "invalid URL: http://[::1]8000/x");
    assert_eq!(url_error("http://:80/"), "invalid URL: http://:80/");
    assert_eq!(url_error("http://h:65536/"), "invalid port: 65536");
    assert_eq!(url_error("http://h:/"), "invalid port: ");
    assert_eq!(url_error("http://h:-1/"), "invalid port: -1");
    // The port is looked at before the host.
    assert_eq!(url_error("http://:x/"), "invalid port: x");
}

#[test]
fn url_parts() {
    let u = Url::parse("http://h").ok().unwrap();
    assert_eq!((u.host.as_str(), u.port, u.path.as_str()), ("h", 80, ""));
    let u = Url::parse("http://h:+0080//").ok().unwrap();
    assert_eq!((u.host.as_str(), u.port, u.path.as_str()), ("h", 80, ""));
    let u = Url::parse("http://a:b:65535/x//y//").ok().unwrap();
    assert_eq!((u.host.as_str(), u.port, u.path.as_str()), ("a:b", 65535, "/x//y"));
    let u = Url::parse("http://é/ü").ok().unwrap();
    assert_eq!((u.host.as_str(), u.path.as_str()), ("é", "/ü"));
}

#[test]
fn host_header_restores_addresses() {
    for s in ["http://example.com:8080/a/b.git", "http://[::1]:80/r", "http://h:1"] {
        let u = Url::parse(s).ok().unwrap();
        assert_eq!(format!("http://{}{}", u.host_header(), u.path), s);
        let again = Url::parse(&format!("http://{}{}", u.host_header(), u.path)).ok().unwrap();
        assert_eq!((again.host, again.port, again.path), (u.host, u.port, u.path));
    }
}

#[test]
fn requests_are_written_out() {
    let u = Url::parse("http://h:8080/r.git").ok().unwrap();
    assert_eq!(
        request_head(&u, "info/refs?service=git-upload-pack", None),
        "GET /r.git/info/refs?service=git-upload-pack HTTP/1.1\r\nHost: h:8080\r\n\
         Connection: close\r\nGit-Protocol: version=2\r\nAccept: */*\r\n\r\n"
    );
    assert_eq!(
        request_bytes(&u, "git-upload-pack", Some(("text/plain", b"\x00\xff!"))),
        b"POST /r.git/git-upload-pack HTTP/1.1\r\nHost: h:8080\r\nConnection: close\r\n\
          Git-Protocol: version=2\r\nAccept: */*\r\nContent-Type: text/plain\r\n\
          Content-Length: 3\r\n\r\n\x00\xff!"
    );
}

#[test]
fn response_heads() {
    assert_eq!(parse_response(b"HTTP/1.1 200 OK\r\n").unwrap_err(), "truncated HTTP response");
    assert_eq!(parse_response(b"\r\n\r\n").unwrap_err(), "HTTP ");
    assert_eq!(parse_response(b"HTTP/1.1\r\n\r\n").unwrap_err(), "HTTP ");
    assert_eq!(parse_response(b"HTTP/1.1 200 OK\r\n\r\nall of it").unwrap(), b"all of it");
    assert_eq!(
        parse_response(b"HTTP/1.1 200 OK\r\ncontent-LENGTH: \t 2 \r\nno colon\r\n\r\nabc").unwrap(),
        b"ab"
    );
    assert_eq!(
        parse_response(b"HTTP/1.1 200 OK\r\nContent-Length: x\r\n\r\n").unwrap_err(),
        "invalid Content-Length"
    );
    assert_eq!(
        parse_response(b"HTTP/1.1 200 OK\r\nContent-Length: 4\r\n\r\nabc").unwrap_err(),
        "truncated HTTP body"
    );
    // Chunks count more than a length.
    assert_eq!(
        parse_response(
            b"HTTP/1.1 200 OK\r\nContent-Length: 1\r\nTransfer-Encoding: Chunked\r\n\r\n0\r\n"
        )
        .unwrap(),
        b""
    );
}

#[test]
fn response_head_that_is_not_utf8() {
    // The status is decoded with replacement characters.
    assert_eq!(
        parse_response(b"HTTP/1.1 \xff\r\n\r\n").unwrap_err(),
        "HTTP \u{fffd}"
    );
    assert_eq!(parse_response(b"HTTP/1.1 200 \xff\r\n\r\nx").unwrap(), b"x");
}

#[test]
fn bodies_from_decoded_heads() {
    assert_eq!(read_body("HTTP/1.1 200 OK\nContent-Length: 1", b"ab").unwrap(), b"a");
    assert_eq!(read_body("", b"ab").unwrap_err(), "HTTP ");
    assert_eq!(read_body("HTTP/1.1 500", b"").unwrap_err(), "HTTP 500");
}

#[test]
fn chunks() {
    assert_eq!(decode_chunked(b" A ;x=1\r\n0123456789\r\n0\r\n\r\n").unwrap(), b"0123456789");
    assert_eq!(decode_chunked(b"+2\r\nab..0\r\n").unwrap(), b"ab");
    assert_eq!(decode_chunked(b"5").unwrap_err(), "truncated chunk size");
    assert_eq!(decode_chunked(b"g\r\n").unwrap_err(), "invalid chunk size");
    assert_eq!(decode_chunked(b"\r\n").unwrap_err(), "invalid chunk size");
    assert_eq!(decode_chunked(b"\xff\r\n").unwrap_err(), "invalid chunk size");
    assert_eq!(decode_chunked(b"fffffffffffffffff\r\n").unwrap_err(), "invalid chunk size");
    assert_eq!(decode_chunked(b"3\r\nab").unwrap_err(), "truncated chunk");
    assert_eq!(decode_chunked(b"2\r\nab\r").unwrap_err(), "truncated chunk terminator");
    assert_eq!(decode_chunked(b"2\r\nab\r\n").unwrap_err(), "truncated chunk size");
    // White space of Unicode around a size does not matter.
    assert_eq!(decode_chunked("\u{3000}1\u{a0}\r\nx\r\n0\r\n".as_bytes()).unwrap(), b"x");
}
