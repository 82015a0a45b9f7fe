//! Tests of the request parser: the grammar scenarios, the error taxonomy,
//! and the boundary between an absent and an empty body.

use http_wire::grammar::ParseError;
use http_wire::headers::Headers;
use http_wire::http::{Method, Request, RequestLine, Version};

#[test]
fn test_version_parser() {
    let input = b"HTTP/1.1";

    let (ver, used) = Version::parser(input).unwrap();
    assert!(used == input.len());
    assert_eq!(
        ver,
        Version {
            major: 1,
            minor: 1
        }
    );
}

#[test]
fn test_request_line_parser() {
    let input = b"GET /index.html HTTP/1.1\r\n";

    let (req_line, used) = RequestLine::parser(input).unwrap();
    assert!(used == input.len());
    assert_eq!(
        req_line,
        RequestLine {
            method: Method::Get,
            path: b"/index.html".to_vec(),
            version: Version {
                major: 1,
                minor: 1
            },
        }
    );
}

#[test]
fn test_request_parser() {
    let input = b"GET /index.html HTTP/1.1\r\nHost: localhost:4221\r\nUser-Agent: curl/7.64.1\r\n\r\n";
    let (req, used) = Request::parser(input).unwrap();
    assert!(used == input.len());

    let mut expected_headers = Headers::new();
    expected_headers.insert(b"host".to_vec(), b"localhost:4221".to_vec());
    expected_headers.insert(b"user-agent".to_vec(), b"curl/7.64.1".to_vec());
    assert_eq!(
        req,
        Request {
            req_line: RequestLine {
                method: Method::Get,
                path: b"/index.html".to_vec(),
                version: Version {
                    major: 1,
                    minor: 1
                },
            },
            headers: expected_headers,
            body: None,
        }
    );
}

#[test]
fn scenario_get_index() {
    let input = b"GET /index.html HTTP/1.1\r\nHost: localhost:4221\r\nUser-Agent: curl/7.64.1\r\n\r\n";
    let (req, _) = Request::parser(input).unwrap();
    assert_eq!(req.req_line.method, Method::Get);
    assert_eq!(req.req_line.path, b"/index.html".to_vec());
    assert_eq!(
        req.req_line.version,
        Version {
            major: 1,
            minor: 1
        }
    );
    assert_eq!(req.headers.len(), 2);
    assert_eq!(req.headers.get(b"host"), Some(&b"localhost:4221".to_vec()));
    assert_eq!(
        req.headers.get(b"user-agent"),
        Some(&b"curl/7.64.1".to_vec())
    );
    assert_eq!(req.body, None);
}

#[test]
fn scenario_missing_blank_line() {
    // Without the blank line after the headers the request is incomplete,
    // not a valid request with unparsed remainder.
    let input = b"GET / HTTP/1.1\r\nHost: x\r\n";
    assert_eq!(Request::parser(input), Err(ParseError::Incomplete));
}

#[test]
fn scenario_version_overflow() {
    // 300 does not fit an unsigned byte.
    let input = b"GET / HTTP/300.1\r\n\r\n";
    assert_eq!(Request::parser(input), Err(ParseError::BadVersion));
}

#[test]
fn test_bad_method() {
    let input = b"FETCH / HTTP/1.1\r\n\r\n";
    assert_eq!(Request::parser(input), Err(ParseError::BadMethod));
}

#[test]
fn test_bad_request_line() {
    // No whitespace after the method token.
    let input = b"GET/ HTTP/1.1\r\n\r\n";
    assert_eq!(Request::parser(input), Err(ParseError::BadRequestLine));
}

#[test]
fn test_bad_header_line() {
    // A header line without the exact `: ` separator.
    let input = b"GET / HTTP/1.1\r\nHost x\r\n\r\n";
    assert_eq!(Request::parser(input), Err(ParseError::BadHeaderLine));
}

#[test]
fn test_incomplete_after_request_line() {
    let input = b"GET / HTTP/1.1\r\n";
    assert_eq!(Request::parser(input), Err(ParseError::Incomplete));
}

#[test]
fn test_version_errors() {
    assert_eq!(Version::parser(b"HTT"), Err(ParseError::Incomplete));
    assert_eq!(Version::parser(b"HTTPX1.1"), Err(ParseError::BadRequestLine));
    assert_eq!(Version::parser(b"HTTP/x.1"), Err(ParseError::BadVersion));
    assert_eq!(Version::parser(b"HTTP/1."), Err(ParseError::Incomplete));
    assert_eq!(Version::parser(b"HTTP/1.x"), Err(ParseError::BadVersion));
    let (v, used) = Version::parser(b"HTTP/0.255").unwrap();
    assert_eq!(
        v,
        Version {
            major: 0,
            minor: 255
        }
    );
    assert_eq!(used, 10);
}

#[test]
fn test_method_parser() {
    let (m, n) = Method::parser(b"DELETE /x HTTP/1.1\r\n").unwrap();
    assert_eq!(m, Method::Delete);
    assert_eq!(n, 6);
    assert_eq!(Method::parser(b"get / HTTP/1.1\r\n"), Err(ParseError::BadMethod));
}

#[test]
fn boundary_blank_line_no_body() {
    let input = b"GET / HTTP/1.1\r\n\r\n";
    let (req, used) = Request::parser(input).unwrap();
    assert_eq!(used, input.len());
    assert_eq!(req.body, None);
}

#[test]
fn boundary_blank_line_whitespace_body() {
    // A single trailing byte, even whitespace, is a present body.
    let input = b"GET / HTTP/1.1\r\n\r\n ";
    let (req, _) = Request::parser(input).unwrap();
    assert_eq!(req.body, Some(b" ".to_vec()));
}

#[test]
fn test_body_bytes_verbatim() {
    let input = b"POST /files/a HTTP/1.1\r\nContent-Length: 5\r\n\r\nhello";
    let (req, _) = Request::parser(input).unwrap();
    assert_eq!(req.req_line.method, Method::Post);
    assert_eq!(req.body, Some(b"hello".to_vec()));
}

#[test]
fn test_case_folding() {
    // Differently cased spellings of one header name land on the same
    // lower-cased entry.
    let upper = b"GET / HTTP/1.1\r\nUser-Agent: curl\r\n\r\n";
    let lower = b"GET / HTTP/1.1\r\nuser-agent: curl\r\n\r\n";
    let shout = b"GET / HTTP/1.1\r\nUSER-AGENT: curl\r\n\r\n";
    let (r1, _) = Request::parser(upper).unwrap();
    let (r2, _) = Request::parser(lower).unwrap();
    let (r3, _) = Request::parser(shout).unwrap();
    assert_eq!(r1.headers.get(b"user-agent"), Some(&b"curl".to_vec()));
    assert_eq!(r1.headers, r2.headers);
    assert_eq!(r2.headers, r3.headers);
}

#[test]
fn test_duplicate_header_last_wins() {
    let input = b"GET / HTTP/1.1\r\nX-K: a\r\nX-K: b\r\n\r\n";
    let (req, _) = Request::parser(input).unwrap();
    assert_eq!(req.headers.len(), 1);
    assert_eq!(req.headers.get(b"x-k"), Some(&b"b".to_vec()));
}

#[test]
fn test_get_content_length() {
    let with = b"POST /f HTTP/1.1\r\nContent-Length: 5\r\n\r\nhello";
    let (req, _) = Request::parser(with).unwrap();
    assert_eq!(req.get_content_length(), Some(5));

    let missing = b"GET / HTTP/1.1\r\n\r\n";
    let (req, _) = Request::parser(missing).unwrap();
    assert_eq!(req.get_content_length(), None);

    let junk = b"GET / HTTP/1.1\r\nContent-Length: abc\r\n\r\n";
    let (req, _) = Request::parser(junk).unwrap();
    assert_eq!(req.get_content_length(), None);

    let plus = b"GET / HTTP/1.1\r\nContent-Length: +7\r\n\r\n";
    let (req, _) = Request::parser(plus).unwrap();
    assert_eq!(req.get_content_length(), Some(7));

    let huge = b"GET / HTTP/1.1\r\nContent-Length: 99999999999999999999999999\r\n\r\n";
    let (req, _) = Request::parser(huge).unwrap();
    assert_eq!(req.get_content_length(), None);
}

#[test]
fn roundtrip_synthetic_request() {
    // A synthetic request rendered canonically parses back to exactly the
    // value it was built from.
    let input = b"PATCH /a/b%20c HTTP/2.0\r\naccept: */*\r\nhost: h\r\n\r\nbody";
    let (req, used) = Request::parser(input).unwrap();
    let mut expected_headers = Headers::new();
    expected_headers.insert(b"accept".to_vec(), b"*/*".to_vec());
    expected_headers.insert(b"host".to_vec(), b"h".to_vec());
    let expected = Request {
        req_line: RequestLine {
            method: Method::Patch,
            path: b"/a/b%20c".to_vec(),
            version: Version {
                major: 2,
                minor: 0
            },
        },
        headers: expected_headers,
        body: Some(b"body".to_vec()),
    };
    assert_eq!(req, expected);
    assert_eq!(used, input.len());
}

#[test]
fn test_empty_header_value() {
    // The value is the possibly empty run up to the CRLF.
    let input = b"GET / HTTP/1.1\r\nX-Empty: \r\n\r\n";
    let (req, _) = Request::parser(input).unwrap();
    assert_eq!(req.headers.get(b"x-empty"), Some(&b"".to_vec()));
}

#[test]
fn test_tabs_and_space_runs() {
    // One or more spaces or tabs separate the request-line tokens.
    let input = b"GET\t/a  \t HTTP/1.1\r\n\r\n";
    let (req, used) = Request::parser(input).unwrap();
    assert_eq!(used, input.len());
    assert_eq!(req.req_line.path, b"/a".to_vec());
}

#[test]
fn test_lone_cr_is_incomplete() {
    let input = b"GET / HTTP/1.1\r\n\r";
    assert_eq!(Request::parser(input), Err(ParseError::Incomplete));
}

#[test]
fn test_version_default() {
    assert_eq!(
        Version::default(),
        Version {
            major: 1,
            minor: 1
        }
    );
}
