//! The wire grammar of a request, stated as specification functions over
//! byte strings. The executable parser in `http` is proved equal to these
//! functions; each one consumes a suffix of the input and either yields a
//! value with the number of bytes consumed or the error the grammar stage
//! owes.

use vstd::prelude::*;

use crate::headers::{insert_pair, lookup};
use crate::http::{Method, Version};
use crate::wire::{
    digit_run, digits_value, find_crlf, is_digit, lemma_find_crlf_some, lemma_name_run_bounds,
    lower_bytes, name_run, path_run, space_run, CR, LF, COLON, SP, PLUS,
};

verus! {

/// Why a parse failed. Every failure aborts the whole parse; there is no
/// partial recovery.
#[derive(Clone, Copy, Debug, PartialEq, Eq, Structural)]
pub enum ParseError {
    /// The first token is none of the nine known methods.
    BadMethod,
    /// Malformed whitespace, `HTTP/` literal or line ending in the request
    /// line.
    BadRequestLine,
    /// Non-numeric or overflowing version digits, or a malformed dot.
    BadVersion,
    /// A malformed header name, separator or line.
    BadHeaderLine,
    /// A grammar stage reached the end of the buffer before its expected
    /// terminator.
    Incomplete,
}

/// Wire token of each method.
pub open spec fn tok(m: Method) -> Seq<u8> {
    match m {
        Method::Get => seq![71u8, 69u8, 84u8],
        Method::Head => seq![72u8, 69u8, 65u8, 68u8],
        Method::Post => seq![80u8, 79u8, 83u8, 84u8],
        Method::Put => seq![80u8, 85u8, 84u8],
        Method::Delete => seq![68u8, 69u8, 76u8, 69u8, 84u8, 69u8],
        Method::Connect => seq![67u8, 79u8, 78u8, 78u8, 69u8, 67u8, 84u8],
        Method::Options => seq![79u8, 80u8, 84u8, 73u8, 79u8, 78u8, 83u8],
        Method::Trace => seq![84u8, 82u8, 65u8, 67u8, 69u8],
        Method::Patch => seq![80u8, 65u8, 84u8, 67u8, 72u8],
    }
}

/// The literal `HTTP/`.
pub open spec fn lit_http() -> Seq<u8> {
    seq![72u8, 84u8, 84u8, 80u8, 47u8]
}

/// The literal `\r\n`.
pub open spec fn crlf() -> Seq<u8> {
    seq![CR, LF]
}

/// The lower-cased header name `content-length`.
pub open spec fn cl_key() -> Seq<u8> {
    seq![99u8, 111u8, 110u8, 116u8, 101u8, 110u8, 116u8, 45u8, 108u8, 101u8, 110u8, 103u8, 116u8, 104u8]
}

/// The lower-cased header name `content-type`.
pub open spec fn ct_key() -> Seq<u8> {
    seq![99u8, 111u8, 110u8, 116u8, 101u8, 110u8, 116u8, 45u8, 116u8, 121u8, 112u8, 101u8]
}

/// `t` is a prefix of `s`.
pub open spec fn starts_with(s: Seq<u8>, t: Seq<u8>) -> bool {
    t.len() <= s.len() && s.subrange(0, t.len() as int) == t
}

/// Consume the literal `t`, or fail: with `Incomplete` when the input ended
/// inside the literal, with `e` otherwise.
pub open spec fn parse_lit(s: Seq<u8>, t: Seq<u8>, e: ParseError) -> Result<int, ParseError> {
    if starts_with(s, t) {
        Ok(t.len() as int)
    } else if s.len() < t.len() && s == t.subrange(0, s.len() as int) {
        Err(ParseError::Incomplete)
    } else {
        Err(e)
    }
}

/// Consume one method token. The token set is prefix-free, so at most one
/// branch can match.
pub open spec fn parse_method(s: Seq<u8>) -> Result<(Method, int), ParseError> {
    if starts_with(s, tok(Method::Get)) {
        Ok((Method::Get, tok(Method::Get).len() as int))
    } else if starts_with(s, tok(Method::Head)) {
        Ok((Method::Head, tok(Method::Head).len() as int))
    } else if starts_with(s, tok(Method::Post)) {
        Ok((Method::Post, tok(Method::Post).len() as int))
    } else if starts_with(s, tok(Method::Put)) {
        Ok((Method::Put, tok(Method::Put).len() as int))
    } else if starts_with(s, tok(Method::Delete)) {
        Ok((Method::Delete, tok(Method::Delete).len() as int))
    } else if starts_with(s, tok(Method::Connect)) {
        Ok((Method::Connect, tok(Method::Connect).len() as int))
    } else if starts_with(s, tok(Method::Options)) {
        Ok((Method::Options, tok(Method::Options).len() as int))
    } else if starts_with(s, tok(Method::Trace)) {
        Ok((Method::Trace, tok(Method::Trace).len() as int))
    } else if starts_with(s, tok(Method::Patch)) {
        Ok((Method::Patch, tok(Method::Patch).len() as int))
    } else {
        Err(ParseError::BadMethod)
    }
}

/// Consume one or more horizontal whitespace bytes, greedily.
pub open spec fn parse_space(s: Seq<u8>) -> Result<int, ParseError> {
    let n = space_run(s);
    if n > 0 {
        Ok(n)
    } else if s.len() == 0 {
        Err(ParseError::Incomplete)
    } else {
        Err(ParseError::BadRequestLine)
    }
}

/// Consume one or more digits and read them as an unsigned byte; a value
/// over 255 is a version error, not a truncation.
pub open spec fn parse_u8_num(s: Seq<u8>) -> Result<(u8, int), ParseError> {
    let n = digit_run(s);
    if n == 0 {
        if s.len() == 0 {
            Err(ParseError::Incomplete)
        } else {
            Err(ParseError::BadVersion)
        }
    } else if digits_value(s.subrange(0, n)) > 255 {
        Err(ParseError::BadVersion)
    } else {
        Ok((digits_value(s.subrange(0, n)) as u8, n))
    }
}

/// Consume `HTTP/<major>.<minor>`.
pub open spec fn parse_version(s: Seq<u8>) -> Result<(Version, int), ParseError> {
    match parse_lit(s, lit_http(), ParseError::BadRequestLine) {
        Err(e) => Err(e),
        Ok(a) => match parse_u8_num(s.skip(a)) {
            Err(e) => Err(e),
            Ok((major, b)) => match parse_lit(s.skip(a + b), seq![46u8], ParseError::BadVersion) {
                Err(e) => Err(e),
                Ok(c) => match parse_u8_num(s.skip(a + b + c)) {
                    Err(e) => Err(e),
                    Ok((minor, d)) => Ok((Version { major, minor }, a + b + c + d)),
                },
            },
        },
    }
}

/// Consume the whole request line, up to and including its CRLF.
pub open spec fn parse_request_line(s: Seq<u8>) -> Result<((Method, Seq<u8>, Version), int), ParseError> {
    match parse_method(s) {
        Err(e) => Err(e),
        Ok((m, a)) => match parse_space(s.skip(a)) {
            Err(e) => Err(e),
            Ok(b) => {
                let p = path_run(s.skip(a + b));
                let path = s.subrange(a + b, a + b + p);
                match parse_space(s.skip(a + b + p)) {
                    Err(e) => Err(e),
                    Ok(c) => match parse_version(s.skip(a + b + p + c)) {
                        Err(e) => Err(e),
                        Ok((ver, d)) => match parse_lit(
                            s.skip(a + b + p + c + d),
                            crlf(),
                            ParseError::BadRequestLine,
                        ) {
                            Err(e) => Err(e),
                            Ok(f) => Ok(((m, path, ver), a + b + p + c + d + f)),
                        },
                    },
                }
            },
        },
    }
}

/// Consume header lines until the blank line, folding each name to lower
/// case and inserting into `acc` (last write wins). The blank line is
/// consumed; reaching the end of the buffer instead is `Incomplete`.
pub open spec fn parse_headers(s: Seq<u8>, acc: Seq<(Seq<u8>, Seq<u8>)>) -> Result<
    (Seq<(Seq<u8>, Seq<u8>)>, int),
    ParseError,
>
    decreases s.len(),
    via parse_headers_decreases
{
    if s.len() == 0 {
        Err(ParseError::Incomplete)
    } else if s[0] == CR {
        if s.len() == 1 {
            Err(ParseError::Incomplete)
        } else if s[1] == LF {
            Ok((acc, 2))
        } else {
            Err(ParseError::BadHeaderLine)
        }
    } else {
        let n = name_run(s);
        if n == 0 {
            Err(ParseError::BadHeaderLine)
        } else if n == s.len() {
            Err(ParseError::Incomplete)
        } else if s[n] != COLON {
            Err(ParseError::BadHeaderLine)
        } else if n + 1 == s.len() {
            Err(ParseError::Incomplete)
        } else if s[n + 1] != SP {
            Err(ParseError::BadHeaderLine)
        } else {
            match find_crlf(s.skip(n + 2)) {
                None => Err(ParseError::Incomplete),
                Some(k) => {
                    let key = lower_bytes(s.subrange(0, n));
                    let val = s.subrange(n + 2, n + 2 + k);
                    match parse_headers(s.skip(n + 2 + k + 2), insert_pair(acc, key, val)) {
                        Err(e) => Err(e),
                        Ok((hs, c)) => Ok((hs, n + 2 + k + 2 + c)),
                    }
                },
            }
        }
    }
}

#[via_fn]
proof fn parse_headers_decreases(s: Seq<u8>, acc: Seq<(Seq<u8>, Seq<u8>)>) {
    if s.len() > 0 && s[0] != CR {
        lemma_name_run_bounds(s);
        let n = name_run(s);
        if 0 < n && n + 1 < s.len() && s[n] == COLON && s[n + 1] == SP {
            match find_crlf(s.skip(n + 2)) {
                None => {},
                Some(k) => {
                    lemma_find_crlf_some(s.skip(n + 2), k);
                },
            }
        }
    }
}

/// Shift the consumed count of a header-block result by `d`: the form a
/// partial parse takes when its suffix starts `d` bytes into the buffer.
pub open spec fn hdr_shift(
    r: Result<(Seq<(Seq<u8>, Seq<u8>)>, int), ParseError>,
    d: int,
) -> Result<(Seq<(Seq<u8>, Seq<u8>)>, int), ParseError> {
    match r {
        Ok((h, c)) => Ok((h, c + d)),
        Err(e) => Err(e),
    }
}

/// The two builder-inserted header names are already lower case.
pub proof fn lemma_keys_lower()
    ensures
        lower_bytes(ct_key()) == ct_key(),
        lower_bytes(cl_key()) == cl_key(),
{
    crate::wire::lemma_lower_bytes(ct_key());
    crate::wire::lemma_lower_bytes(cl_key());
    assert(ct_key()[0] == 99u8);
    assert(ct_key()[1] == 111u8);
    assert(ct_key()[2] == 110u8);
    assert(ct_key()[3] == 116u8);
    assert(ct_key()[4] == 101u8);
    assert(ct_key()[5] == 110u8);
    assert(ct_key()[6] == 116u8);
    assert(ct_key()[7] == 45u8);
    assert(ct_key()[8] == 116u8);
    assert(ct_key()[9] == 121u8);
    assert(ct_key()[10] == 112u8);
    assert(ct_key()[11] == 101u8);
    assert(cl_key()[0] == 99u8);
    assert(cl_key()[1] == 111u8);
    assert(cl_key()[2] == 110u8);
    assert(cl_key()[3] == 116u8);
    assert(cl_key()[4] == 101u8);
    assert(cl_key()[5] == 110u8);
    assert(cl_key()[6] == 116u8);
    assert(cl_key()[7] == 45u8);
    assert(cl_key()[8] == 108u8);
    assert(cl_key()[9] == 101u8);
    assert(cl_key()[10] == 110u8);
    assert(cl_key()[11] == 103u8);
    assert(cl_key()[12] == 116u8);
    assert(cl_key()[13] == 104u8);
    assert(lower_bytes(ct_key()) =~= ct_key());
    assert(lower_bytes(cl_key()) =~= cl_key());
}

/// The mathematical content of a parsed request.
pub ghost struct ReqModel {
    pub method: Method,
    pub path: Seq<u8>,
    pub version: Version,
    pub headers: Seq<(Seq<u8>, Seq<u8>)>,
    pub body: Option<Seq<u8>>,
}

/// The whole request grammar: request line, header block, blank line, then
/// every remaining byte as the body (absent when nothing remains). A
/// successful parse consumes the entire buffer.
pub open spec fn spec_parse_request(s: Seq<u8>) -> Result<ReqModel, ParseError> {
    match parse_request_line(s) {
        Err(e) => Err(e),
        Ok(((m, path, ver), a)) => match parse_headers(s.skip(a), Seq::empty()) {
            Err(e) => Err(e),
            Ok((hs, b)) => {
                let rest = s.skip(a + b);
                Ok(
                    ReqModel {
                        method: m,
                        path,
                        version: ver,
                        headers: hs,
                        body: if rest.len() > 0 {
                            Some(rest)
                        } else {
                            None
                        },
                    },
                )
            },
        },
    }
}

/// Every byte is a decimal digit.
pub open spec fn all_digits(t: Seq<u8>) -> bool {
    forall|i: int| 0 <= i < t.len() ==> is_digit(#[trigger] t[i])
}

/// A non-empty digit string read as a number; anything else is absence.
pub open spec fn digits_opt(t: Seq<u8>) -> Option<int> {
    if t.len() >= 1 && all_digits(t) {
        Some(digits_value(t))
    } else {
        None
    }
}

/// What `str::parse::<usize>` accepts of a header value: an optional plus
/// sign, then one or more digits; anything else, or a value over
/// `usize::MAX`, is absence.
pub open spec fn num_str_value(s: Seq<u8>) -> Option<int> {
    if s.len() > 0 && s[0] == PLUS {
        digits_opt(s.skip(1))
    } else {
        digits_opt(s)
    }
}

/// The declared content length of a request: the `content-length` header
/// read as an unsigned integer, absence when missing or malformed.
pub open spec fn spec_content_length(h: Seq<(Seq<u8>, Seq<u8>)>) -> Option<usize> {
    match lookup(h, cl_key()) {
        None => None,
        Some(v) => match num_str_value(v) {
            None => None,
            Some(n) => if n <= usize::MAX {
                Some(n as usize)
            } else {
                None
            },
        },
    }
}

} // verus!
