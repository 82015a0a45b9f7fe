//! Tests of the response builders and the serializer: exact wire bytes,
//! sorted headers, last-write-wins overwriting, and determinism.

use http_wire::http::{Response, Status, StatusLine, Version};
use http_wire::ser::Serialize;

#[test]
fn test_version_to_string() {
    let ver = Version { major: 1, minor: 1 };
    assert_eq!(ver.to_bytes(), b"HTTP/1.1".to_vec());
}

#[test]
fn test_status_line_to_string() {
    let status_line = StatusLine {
        version: Version { major: 1, minor: 1 },
        status: Status::Okay,
    };
    assert_eq!(status_line.to_bytes(), b"HTTP/1.1 200 OK\r\n".to_vec());

    let status_line = StatusLine::default();
    assert_eq!(
        status_line.to_bytes(),
        b"HTTP/1.1 500 Internal Server Error\r\n".to_vec()
    );
}

#[test]
fn test_response_to_bytes() {
    let resp = Response::new(Status::Okay);
    assert_eq!(resp.to_bytes(), b"HTTP/1.1 200 OK\r\n\r\n".to_vec());

    let resp = Response::new(Status::Okay).with_body(b"abc", b"text/plain");
    assert_eq!(
        resp.to_bytes(),
        b"HTTP/1.1 200 OK\r\ncontent-length: 3\r\ncontent-type: text/plain\r\n\r\nabc".to_vec()
    );
}

#[test]
fn scenario_with_body_exact_bytes() {
    let resp = Response::new(Status::Okay).with_body(b"abc", b"text/plain");
    assert_eq!(
        resp.to_bytes(),
        b"HTTP/1.1 200 OK\r\ncontent-length: 3\r\ncontent-type: text/plain\r\n\r\nabc".to_vec()
    );
}

#[test]
fn test_header_overwrite() {
    // Last write wins: the serialized output holds `x: b` exactly once and
    // `a` nowhere.
    let resp = Response::new(Status::Okay)
        .with_header(b"X", b"a")
        .with_header(b"X", b"b");
    assert_eq!(resp.to_bytes(), b"HTTP/1.1 200 OK\r\nx: b\r\n\r\n".to_vec());
}

#[test]
fn test_headers_sorted_and_lowercased() {
    // Insertion order does not show in the output: headers come out sorted
    // by their lower-cased names, values lower-cased too.
    let resp = Response::new(Status::NotFound)
        .with_header(b"Zeta", b"One")
        .with_header(b"alpha", b"TWO");
    assert_eq!(
        resp.to_bytes(),
        b"HTTP/1.1 404 NOT FOUND\r\nalpha: two\r\nzeta: one\r\n\r\n".to_vec()
    );
}

#[test]
fn test_serialize_deterministic() {
    let build = || {
        Response::new(Status::Created)
            .with_header(b"B", b"2")
            .with_header(b"A", b"1")
            .with_body(b"xy", b"text/plain")
    };
    let first = build().to_bytes();
    let second = build().to_bytes();
    assert_eq!(first, second);
    assert_eq!(
        first,
        b"HTTP/1.1 201 Created\r\na: 1\r\nb: 2\r\ncontent-length: 2\r\ncontent-type: text/plain\r\n\r\nxy"
            .to_vec()
    );
}

#[test]
fn test_status_codes_and_reasons() {
    assert_eq!(Status::Okay.code(), 200);
    assert_eq!(Status::Okay.text(), "OK");
    assert_eq!(Status::Created.code(), 201);
    assert_eq!(Status::Created.text(), "Created");
    assert_eq!(Status::BadRequest.code(), 400);
    assert_eq!(Status::BadRequest.text(), "Bad Request");
    assert_eq!(Status::NotFound.code(), 404);
    assert_eq!(Status::NotFound.text(), "NOT FOUND");
    assert_eq!(Status::Internal.code(), 500);
    assert_eq!(Status::Internal.text(), "Internal Server Error");
}

#[test]
fn test_default_response() {
    let resp = Response::default();
    assert_eq!(
        resp.to_bytes(),
        b"HTTP/1.1 500 Internal Server Error\r\n\r\n".to_vec()
    );
}

#[test]
fn test_multi_digit_version_serialization() {
    let ver = Version { major: 10, minor: 250 };
    assert_eq!(ver.to_bytes(), b"HTTP/10.250".to_vec());
}

#[test]
fn test_with_body_overwrites_framing_headers() {
    // `with_body` inserts its own framing headers over earlier ones.
    let resp = Response::new(Status::Okay)
        .with_header(b"Content-Type", b"text/html")
        .with_body(b"hi", b"application/octet-stream");
    assert_eq!(
        resp.to_bytes(),
        b"HTTP/1.1 200 OK\r\ncontent-length: 2\r\ncontent-type: application/octet-stream\r\n\r\nhi"
            .to_vec()
    );
}
