use zep::{
    declared_length, is_chunked, parse_request, serialize_response, ChunkError, HeaderMap, Method,
    ParsingError, Response, StatusCode, StreamWriter, Version,
};

fn parse(bytes: &[u8]) -> Result<zep::Request, ParsingError> {
    parse_request(bytes, "127.0.0.1:4000".to_string(), None)
}

#[test]
fn parses_request_line_and_headers() {
    let req = parse(b"GET /users/42 HTTP/1.1\r\nHost: example.com\r\nAccept: */*\r\n\r\n").unwrap();
    assert_eq!(req.method, Method::GET);
    assert_eq!(req.path, "/users/42");
    assert_eq!(req.version, Version::Http11);
    assert_eq!(req.headers.get("Host").unwrap(), "example.com");
    assert_eq!(req.headers.get("Accept").unwrap(), "*/*");
    assert_eq!(req.headers.len(), 2);
    assert_eq!(req.remote_addr, "127.0.0.1:4000");
    assert_eq!(req.params.len(), 0);
    assert!(req.body.is_none());
    assert!(req.stream.is_none());
}

#[test]
fn other_method_and_version() {
    let req = parse(b"PATCH   /x   HTTP/9\r\n\r\n").unwrap();
    assert!(matches!(&req.method, Method::Other(m) if m == "PATCH"));
    assert_eq!(req.method.to_str(), "OTHER");
    assert_eq!(req.path, "/x");
    assert_eq!(req.version, Version::Other);
}

#[test]
fn fixed_body_bounded_by_what_was_read() {
    let req = parse(b"POST /f HTTP/1.0\r\ncontent-LENGTH: 5\r\n\r\nhello world").unwrap();
    assert_eq!(req.method, Method::POST);
    assert_eq!(req.body, Some(b"hello".to_vec()));
    let short = parse(b"POST /f HTTP/1.0\r\nContent-Length: 50\r\n\r\nhi").unwrap();
    assert_eq!(short.body, Some(b"hi".to_vec()));
    let bad = parse(b"POST /f HTTP/1.0\r\nContent-Length: five\r\n\r\nhi").unwrap();
    assert!(bad.body.is_none());
}

#[test]
fn chunked_body_becomes_a_stream() {
    let bytes = b"PUT /up HTTP/1.1\r\nTransfer-Encoding: gzip, Chunked\r\nContent-Length: 3\r\n\r\n3\r\nabc\r\n0\r\n\r\n";
    let req = parse(bytes).unwrap();
    assert!(req.body.is_none());
    let mut stream = req.stream.unwrap();
    assert_eq!(stream.next_chunk(), Ok(Some(b"abc".to_vec())));
    assert_eq!(stream.next_chunk(), Ok(None));
    assert_eq!(stream.next_chunk(), Err(ChunkError::UnexpectedEof));
}

#[test]
fn parse_errors() {
    assert_eq!(parse(b"").err(), Some(ParsingError::ConnectionClosed));
    assert_eq!(parse(b"GET / HTTP/1.1\r\nHost: x\r\n").err(), Some(ParsingError::InvalidHeaders));
    assert_eq!(parse(b"GET /\xff HTTP/1.1\r\n\r\n").err(), Some(ParsingError::Utf8));
    assert_eq!(parse(b"\r\n\r\nGET / HTTP/1.1").err(), Some(ParsingError::EmptyRequestLine));
    assert_eq!(parse(b"  \r\n\r\n").err(), Some(ParsingError::MissingMethod));
    assert_eq!(parse(b"GET\r\n\r\n").err(), Some(ParsingError::MissingPath));
    assert_eq!(parse(b"GET /\r\n\r\n").err(), Some(ParsingError::MissingVersion));
}

#[test]
fn header_lines_without_separator_are_skipped() {
    let req = parse(b"GET / HTTP/1.1\r\nnonsense\r\nA: 1\r\nA: 2\r\n\r\n").unwrap();
    assert_eq!(req.headers.len(), 1);
    assert_eq!(req.headers.get("A").unwrap(), "2");
}

#[test]
fn non_ascii_path_is_kept() {
    let req = parse("GET /caf\u{e9} HTTP/1.1\r\n\r\n".as_bytes()).unwrap();
    assert_eq!(req.path, "/caf\u{e9}");
}

#[test]
fn chunked_and_length_detection() {
    let mut h = HeaderMap::new();
    h.insert("transfer-encoding".to_string(), "identity".to_string());
    assert!(!is_chunked(&h));
    h.insert("transfer-encoding".to_string(), " chunked ".to_string());
    assert!(is_chunked(&h));
    let mut l = HeaderMap::new();
    assert_eq!(declared_length(&l), None);
    l.insert("Content-Length".to_string(), "+12".to_string());
    assert_eq!(declared_length(&l), Some(12));
}

#[test]
fn serializes_fixed_body() {
    let resp = Response::ok(b"hi");
    assert_eq!(
        serialize_response(&resp),
        b"HTTP/1.1 200 OK\r\nContent-Length: 2\r\n\r\nhi".to_vec()
    );
}

#[test]
fn serializes_headers_and_empty_body() {
    let resp = Response::error().header("Retry-After", "5");
    assert_eq!(
        serialize_response(&resp),
        b"HTTP/1.1 500 Internal Server Error\r\nRetry-After: 5\r\nContent-Length: 0\r\n\r\n".to_vec()
    );
}

#[test]
fn keeps_given_content_length() {
    let resp = Response::new(StatusCode::Custom(418)).header("content-length", "3");
    assert_eq!(
        serialize_response(&resp),
        b"HTTP/1.1 418 Custom Code\r\ncontent-length: 3\r\n\r\n".to_vec()
    );
}

#[test]
fn serializes_not_found() {
    assert_eq!(
        serialize_response(&Response::not_found()),
        b"HTTP/1.1 404 Not Found\r\nContent-Length: 13\r\n\r\n404 Not Found".to_vec()
    );
}

#[test]
fn streamed_response_head() {
    let resp = Response::stream(StatusCode::OK, StreamWriter::from_bytes(b"abc".to_vec()));
    assert_eq!(
        serialize_response(&resp),
        b"HTTP/1.1 200 OK\r\nTransfer-Encoding: chunked\r\n\r\n".to_vec()
    );
    let mut writer = resp.stream.unwrap();
    assert_eq!(writer.next_chunk(), Some(b"3\r\nabc\r\n".to_vec()));
}

#[test]
fn unicode_white_space_separates_words() {
    let req = parse("GET\u{3000}/wide\u{a0}HTTP/1.1\r\nHost: x\r\n\r\n".as_bytes()).unwrap();
    assert_eq!(req.method, Method::GET);
    assert_eq!(req.path, "/wide");
    assert_eq!(req.version, Version::Http11);
    let spaced = parse("\u{2003}PUT /p\u{85}HTTP/2 \r\n\r\n".as_bytes()).unwrap();
    assert_eq!(spaced.method, Method::PUT);
    assert_eq!(spaced.path, "/p");
    assert_eq!(spaced.version, Version::Http2);
    let non_space = parse("GET /caf\u{e9}\u{2030} HTTP/1.1\r\n\r\n".as_bytes()).unwrap();
    assert_eq!(non_space.path, "/caf\u{e9}\u{2030}");
}

#[test]
fn unicode_white_space_around_codings() {
    let mut h = HeaderMap::new();
    h.insert("Transfer-Encoding".to_string(), "gzip,\u{a0}chunked\u{3000}".to_string());
    assert!(is_chunked(&h));
}
