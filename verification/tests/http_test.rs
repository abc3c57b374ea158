use rproxy::http::{
    scan_head, upstream_head, HeadBuffer, HeaderKey, HeaderMap, HeadersParseError, Request,
    StatusCode, MAX_HEAD_LEN,
};

fn text(code: StatusCode) -> String {
    String::from_utf8(code.as_bytes().to_vec()).unwrap()
}

#[test]
fn status_responses() {
    assert_eq!(
        text(StatusCode::BadRequest),
        "HTTP/1.1 400 Bad Request\r\nContent-Length: 0\r\nConnection: close\r\n\r\n"
    );
    assert_eq!(
        text(StatusCode::Unauthorized(true)),
        "HTTP/1.1 401 Unauthorized\r\nWWW-Authenticate: Basic realm=\"Proxy\"\r\nContent-Length: 0\r\nConnection: close\r\n\r\n"
    );
    assert_eq!(
        text(StatusCode::Unauthorized(false)),
        "HTTP/1.1 401 Unauthorized\r\nContent-Length: 0\r\nConnection: close\r\n\r\n"
    );
    assert_eq!(
        text(StatusCode::Forbidden),
        "HTTP/1.1 403 Forbidden\r\nContent-Length: 0\r\nConnection: close\r\n\r\n"
    );
    assert_eq!(
        text(StatusCode::NotFound),
        "HTTP/1.1 404 Not Found\r\nContent-Length: 0\r\nConnection: close\r\n\r\n"
    );
    assert_eq!(
        text(StatusCode::RequestTimeout),
        "HTTP/1.1 408 Request Timeout\r\nContent-Length: 0\r\nConnection: close\r\n\r\n"
    );
    assert_eq!(
        text(StatusCode::HeadersTooLarge),
        "HTTP/1.1 431 Request Header Fields Too Large\r\nContent-Length: 0\r\nConnection: close\r\n\r\n"
    );
    assert_eq!(
        text(StatusCode::BadGateway),
        "HTTP/1.1 502 Bad Gateway\r\nContent-Length: 0\r\nConnection: close\r\n\r\n"
    );
    assert_eq!(
        text(StatusCode::GatewayTimeout),
        "HTTP/1.1 504 Gateway Timeout\r\nContent-Length: 0\r\nConnection: close\r\n\r\n"
    );
}

#[test]
fn parse_errors_map_to_statuses() {
    assert_eq!(HeadersParseError::TooLarge.to_status_code(), StatusCode::HeadersTooLarge);
    assert_eq!(HeadersParseError::Invalid.to_status_code(), StatusCode::BadRequest);
    assert_eq!(HeadersParseError::TooLarge.message(), "Header Fields Too Large");
    assert_eq!(HeadersParseError::Invalid.message(), "Bad Request");
}

#[test]
fn header_keys_ignore_case() {
    assert!(HeaderKey(b"Content-Type") == HeaderKey(b"content-TYPE"));
    assert!(HeaderKey(b"Host") != HeaderKey(b"Hosts"));
    assert!(HeaderKey(b"a") != HeaderKey(b"b"));
}

#[test]
fn header_map_set_then_get() {
    let mut m = HeaderMap::new();
    assert_eq!(m.get(&HeaderKey(b"host")), None);
    m.insert(HeaderKey(b"Host"), b"one");
    m.insert(HeaderKey(b"X-Other"), b"x");
    assert_eq!(m.get(&HeaderKey(b"HOST")), Some(&b"one"[..]));
    m.insert(HeaderKey(b"host"), b"two");
    assert_eq!(m.get(&HeaderKey(b"Host")), Some(&b"two"[..]));
    assert_eq!(m.get(&HeaderKey(b"x-other")), Some(&b"x"[..]));
}

#[test]
fn request_line_and_headers() {
    let buf = b"GET /target?q=1 HTTP/1.1\r\nHost: localhost:8080\r\nX-Api-Key:  k1 \r\n\r\nbody";
    let req = Request::new(buf).unwrap();
    assert_eq!(req.method, b"GET");
    assert_eq!(req.path, b"/target?q=1");
    assert_eq!(req.headers.get(&HeaderKey(b"host")), Some(&b"localhost:8080"[..]));
    assert_eq!(req.headers.get(&HeaderKey(b"x-api-key")), Some(&b"k1"[..]));
    assert_eq!(req.headers.get(&HeaderKey(b"body")), None);
}

#[test]
fn request_line_without_space_is_refused() {
    assert!(Request::new(b"xxx\r\n\r\n").is_none());
    assert!(Request::new(b"").is_none());
    assert!(Request::new(b"\r\nGET / HTTP/1.1\r\n").is_none());
}

#[test]
fn request_line_pieces() {
    let req = Request::new(b"GET  /x HTTP/1.1").unwrap();
    assert_eq!(req.method, b"GET");
    assert_eq!(req.path, b"");
    let req = Request::new(b"GET /only").unwrap();
    assert_eq!(req.path, b"/only");
}

#[test]
fn later_header_replaces_earlier() {
    let req = Request::new(b"GET / HTTP/1.1\nHost: a\nHOST: b\n\n").unwrap();
    assert_eq!(req.headers.get(&HeaderKey(b"Host")), Some(&b"b"[..]));
}

#[test]
fn header_block_skips_leading_blank_lines_and_stops_at_next() {
    let req = Request::new(b"GET / HTTP/1.1\r\n\r\n\r\nA: 1\r\nbroken line\r\nB : 2:3\r\n\r\nC: 4\r\n").unwrap();
    assert_eq!(req.headers.get(&HeaderKey(b"a")), Some(&b"1"[..]));
    assert_eq!(req.headers.get(&HeaderKey(b"b")), Some(&b"2:3"[..]));
    assert_eq!(req.headers.get(&HeaderKey(b"c")), None);
    assert_eq!(req.headers.get(&HeaderKey(b"broken line")), None);
}

#[test]
fn head_scan_finds_first_blank_line() {
    assert_eq!(scan_head(b"GET / HTTP/1.1\r\nHost: a\r\n"), Ok(None));
    assert_eq!(scan_head(b"GET / HTTP/1.1\r\n\r\nX\r\n\r\n"), Ok(Some(18)));
    assert_eq!(scan_head(b""), Ok(None));
    let big = vec![b'a'; MAX_HEAD_LEN];
    assert_eq!(scan_head(&big), Err(HeadersParseError::TooLarge));
    let mut just_under = vec![b'a'; MAX_HEAD_LEN - 5];
    just_under.extend_from_slice(b"\r\n\r\n");
    assert_eq!(scan_head(&just_under), Ok(Some(MAX_HEAD_LEN - 1)));
}

#[test]
fn head_buffer_collects_chunks() {
    let mut b = HeadBuffer::new();
    assert_eq!(b.receive(b"GET / HTTP/1.1\r\nHo"), Ok(None));
    assert_eq!(b.receive(b"st: a\r\n\r"), Ok(None));
    assert_eq!(b.receive(b"\nrest"), Ok(Some(27)));
    assert_eq!(b.as_slice(), b"GET / HTTP/1.1\r\nHost: a\r\n\r\nrest");
    assert_eq!(b.receive(b""), Err(HeadersParseError::Invalid));
    assert_eq!(b.into_bytes().len(), 31);
}

#[test]
fn head_buffer_without_end_is_invalid_on_close() {
    let mut b = HeadBuffer::new();
    assert_eq!(b.receive(b"GET /buba HTTP/1.1\r\nHost: localhost:8080\r\n"), Ok(None));
    assert_eq!(b.receive(b""), Err(HeadersParseError::Invalid));
}

#[test]
fn upstream_head_adds_request_id() {
    let head = b"GET / HTTP/1.1\r\nHost: a\r\n\r\n";
    let out = upstream_head(head, head.len(), "id-1");
    assert_eq!(out, b"GET / HTTP/1.1\r\nHost: a\r\nX-Request-ID: id-1\r\n\r\n".to_vec());
}

#[test]
fn head_end_stays_put_as_bytes_arrive() {
    let mut b = HeadBuffer::new();
    assert_eq!(b.receive(b"GET / HTTP/1.1\r\n\r\n"), Ok(Some(18)));
    assert_eq!(b.receive(b"more\r\n\r\n"), Ok(Some(18)));
}

#[test]
fn crlf_and_lf_heads_parse_alike() {
    let crlf = b"GET /a HTTP/1.1\r\nHost: h\r\nX-K: v \r\n\r\n";
    let lf = b"GET /a HTTP/1.1\nHost: h\nX-K: v \n\n";
    let a = Request::new(crlf).unwrap();
    let b = Request::new(lf).unwrap();
    assert_eq!(a.method, b.method);
    assert_eq!(a.path, b.path);
    for name in [&b"host"[..], b"x-k", b"other"] {
        assert_eq!(a.headers.get(&HeaderKey(name)), b.headers.get(&HeaderKey(name)));
    }
}
