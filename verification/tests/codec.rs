use httpflow::http::{get_content_length, parse_request, parse_response, Header, ParseError};
use std::io::Write;

fn bytes(s: &str) -> Vec<u8> {
    s.as_bytes().to_vec()
}

#[test]
fn request_round_trip() {
    let buf = bytes("GET /foo HTTP/1.1\r\nHost: x\r\nContent-Length: 5\r\n\r\nhello");
    let req = parse_request(&buf).unwrap();
    assert_eq!(req.method, "GET");
    assert_eq!(req.path, "/foo");
    assert_eq!(req.version, "1.1");
    assert_eq!(req.headers.len(), 2);
    assert_eq!(req.headers[0].name, "Host");
    assert_eq!(req.headers[0].value, "x");
    assert_eq!(req.headers[1].name, "Content-Length");
    assert_eq!(req.headers[1].value, "5");
    assert_eq!(req.body.as_deref(), Some("hello"));
}

#[test]
fn request_without_body() {
    let buf = bytes("GET / HTTP/1.0\r\nHost: example\r\n\r\n");
    let req = parse_request(&buf).unwrap();
    assert_eq!(req.method, "GET");
    assert_eq!(req.path, "/");
    assert_eq!(req.version, "1.0");
    assert!(req.body.is_none());
}

#[test]
fn request_content_length_zero_has_no_body() {
    let buf = bytes("POST /p HTTP/1.1\r\nContent-Length: 0\r\n\r\n");
    let req = parse_request(&buf).unwrap();
    assert!(req.body.is_none());
}

#[test]
fn request_content_length_case_insensitive() {
    let buf = bytes("POST /p HTTP/1.1\r\ncOnTeNt-LeNgTh: 2\r\n\r\nokextra");
    let req = parse_request(&buf).unwrap();
    assert_eq!(req.body.as_deref(), Some("ok"));
}

#[test]
fn request_unparseable_content_length_means_no_body() {
    let buf = bytes("POST /p HTTP/1.1\r\nContent-Length: abc\r\n\r\nhello");
    let req = parse_request(&buf).unwrap();
    assert!(req.body.is_none());
}

#[test]
fn request_truncated_header_block() {
    let buf = bytes("GET / HTTP/1.1\r\nHost: x");
    match parse_request(&buf) {
        Err(ParseError::Truncated) => {}
        other => panic!("expected Truncated, got {:?}", other),
    }
}

#[test]
fn request_truncated_body() {
    let buf = bytes("POST /p HTTP/1.1\r\nContent-Length: 10\r\n\r\nabc");
    match parse_request(&buf) {
        Err(ParseError::Truncated) => {}
        other => panic!("expected Truncated, got {:?}", other),
    }
}

#[test]
fn request_duplicate_headers_last_wins() {
    let buf = bytes("GET / HTTP/1.1\r\nX-Id: 1\r\nX-Id: 2\r\n\r\n");
    let req = parse_request(&buf).unwrap();
    let values: Vec<&str> = req
        .headers
        .iter()
        .filter(|h| h.name == "X-Id")
        .map(|h| h.value.as_str())
        .collect();
    assert_eq!(values, vec!["2"]);
}

#[test]
fn request_header_value_is_trimmed() {
    let buf = bytes("GET / HTTP/1.1\r\nHost:   spaced out  \r\n\r\n");
    let req = parse_request(&buf).unwrap();
    assert_eq!(req.headers[0].value, "spaced out");
}

#[test]
fn request_malformed_line() {
    let buf = bytes("GETHTTP\r\n\r\n");
    match parse_request(&buf) {
        Err(ParseError::Malformed) => {}
        other => panic!("expected Malformed, got {:?}", other),
    }
}

#[test]
fn request_body_bad_utf8_degrades_to_sentinel() {
    let mut buf = bytes("POST /p HTTP/1.1\r\nContent-Length: 2\r\n\r\n");
    buf.push(0xff);
    buf.push(0xfe);
    let req = parse_request(&buf).unwrap();
    assert_eq!(req.body.as_deref(), Some("Body encoding error"));
}

#[test]
fn reparse_is_idempotent() {
    let buf = bytes("GET /foo HTTP/1.1\r\nHost: x\r\nContent-Length: 5\r\n\r\nhello");
    let first = parse_request(&buf).unwrap();
    let second = parse_request(&buf).unwrap();
    assert_eq!(first.method, second.method);
    assert_eq!(first.path, second.path);
    assert_eq!(first.version, second.version);
    assert_eq!(first.headers.len(), second.headers.len());
    for (a, b) in first.headers.iter().zip(second.headers.iter()) {
        assert_eq!(a.name, b.name);
        assert_eq!(a.value, b.value);
    }
    assert_eq!(first.body, second.body);
}

#[test]
fn response_plain_body() {
    let buf = bytes("HTTP/1.1 200 OK\r\nContent-Length: 5\r\n\r\nworld");
    let resp = parse_response(&buf).unwrap();
    assert_eq!(resp.version, "1.1");
    assert_eq!(resp.code, 200);
    assert_eq!(resp.reason.as_deref(), Some("OK"));
    assert_eq!(resp.body.as_deref(), Some("world"));
}

#[test]
fn response_without_reason() {
    let buf = bytes("HTTP/1.1 404\r\n\r\n");
    let resp = parse_response(&buf).unwrap();
    assert_eq!(resp.code, 404);
    assert!(resp.reason.is_none());
    assert!(resp.body.is_none());
}

#[test]
fn response_content_length_zero_gives_empty_body() {
    let buf = bytes("HTTP/1.1 204 No Content\r\nContent-Length: 0\r\n\r\n");
    let resp = parse_response(&buf).unwrap();
    assert_eq!(resp.body.as_deref(), Some(""));
}

#[test]
fn response_gzip_round_trip() {
    let mut enc = flate2::write::GzEncoder::new(Vec::new(), flate2::Compression::default());
    enc.write_all(b"plain text").unwrap();
    let gz = enc.finish().unwrap();
    let head = format!(
        "HTTP/1.1 200 OK\r\nContent-Length: {}\r\nContent-Encoding: gzip\r\n\r\n",
        gz.len()
    );
    let mut buf = bytes(&head);
    buf.extend_from_slice(&gz);
    let resp = parse_response(&buf).unwrap();
    assert_eq!(resp.code, 200);
    assert_eq!(resp.body.as_deref(), Some("plain text"));
}

#[test]
fn response_unknown_encoding_rejected() {
    let buf = bytes("HTTP/1.1 200 OK\r\nContent-Length: 3\r\nContent-Encoding: br\r\n\r\nabc");
    match parse_response(&buf) {
        Err(ParseError::UnknownContentEncoding(e)) => assert_eq!(e, "br"),
        other => panic!("expected UnknownContentEncoding, got {:?}", other),
    }
}

#[test]
fn response_bad_gzip_is_decompression_failure() {
    let buf = bytes("HTTP/1.1 200 OK\r\nContent-Length: 4\r\nContent-Encoding: gzip\r\n\r\njunk");
    match parse_response(&buf) {
        Err(ParseError::DecompressionFailure) => {}
        other => panic!("expected DecompressionFailure, got {:?}", other),
    }
}

#[test]
fn response_body_bad_utf8_degrades_to_sentinel() {
    let mut buf = bytes("HTTP/1.1 200 OK\r\nContent-Length: 1\r\n\r\n");
    buf.push(0xff);
    let resp = parse_response(&buf).unwrap();
    assert_eq!(resp.body.as_deref(), Some("Encoding error"));
}

#[test]
fn response_truncated() {
    let buf = bytes("HTTP/1.1 200 OK\r\nContent-Len");
    match parse_response(&buf) {
        Err(ParseError::Truncated) => {}
        other => panic!("expected Truncated, got {:?}", other),
    }
}

#[test]
fn response_code_too_large_is_malformed() {
    let buf = bytes("HTTP/1.1 99999 Strange\r\n\r\n");
    match parse_response(&buf) {
        Err(ParseError::Malformed) => {}
        other => panic!("expected Malformed, got {:?}", other),
    }
}

fn header(name: &str, value: &str) -> Header {
    Header {
        name: name.to_string(),
        value: value.to_string(),
    }
}

#[test]
fn content_length_lookup() {
    let headers = vec![header("Host", "x"), header("CONTENT-length", "42")];
    assert_eq!(get_content_length(&headers), Some(42));
}

#[test]
fn content_length_absent() {
    let headers = vec![header("Host", "x")];
    assert_eq!(get_content_length(&headers), None);
}

#[test]
fn content_length_first_match_decides() {
    let headers = vec![header("Content-Length", "bad"), header("content-length", "7")];
    assert_eq!(get_content_length(&headers), None);
}

#[test]
fn content_length_huge_value_is_ignored() {
    let headers = vec![header("Content-Length", "99999999999999999999999999")];
    assert_eq!(get_content_length(&headers), None);
}
