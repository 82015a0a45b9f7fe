//! The HTTP data model: methods, versions, request lines, requests,
//! statuses, status lines and responses, together with the verified request
//! parser and the verified response builders.

use vstd::prelude::*;

use crate::grammar::{
    cl_key, crlf, ct_key, lit_http, parse_lit, parse_method, parse_u8_num, parse_version, tok,
    ParseError,
};
use crate::headers::Headers;
use crate::wire::{
    digits_value, is_digit, lemma_digits_value_prefix_mono, scan_digits,
    COLON, CR, DIGIT_0, DOT, LF, SP,
};

verus! {

/// The nine request methods of the closed wire grammar. An unknown token is
/// a parse failure, never a variant.
#[derive(Clone, Copy, Debug, PartialEq, Eq, Structural)]
pub enum Method {
    Get,
    Head,
    Post,
    Put,
    Delete,
    Connect,
    Options,
    Trace,
    Patch,
}

/// An HTTP/1.x protocol version: `HTTP/<major>.<minor>` on the wire, each
/// field an unsigned byte.
#[derive(Clone, Copy, Debug, PartialEq, Eq, Structural)]
pub struct Version {
    pub major: u8,
    pub minor: u8,
}

impl Default for Version {
    /// The implicit version of a freshly built response: 1.1.
    fn default() -> (v: Version)
        ensures
            v == (Version { major: 1, minor: 1 }),
    {
        Version { major: 1, minor: 1 }
    }
}

/// The first line of a request: method, verbatim path, version.
#[derive(Debug, PartialEq, Eq)]
pub struct RequestLine {
    pub method: Method,
    pub path: Vec<u8>,
    pub version: Version,
}

/// A parsed request: request line, header mapping with lower-cased names,
/// and the optional body (every byte after the blank line).
#[derive(Debug, PartialEq, Eq)]
pub struct Request {
    pub req_line: RequestLine,
    pub headers: Headers,
    pub body: Option<Vec<u8>>,
}

/// The closed set of response statuses, each with a fixed code and reason.
#[derive(Clone, Copy, Debug, PartialEq, Eq, Structural)]
pub enum Status {
    Okay,
    Created,
    BadRequest,
    NotFound,
    Internal,
}

impl Default for Status {
    /// An unset status is a server error, never a silent success.
    fn default() -> (s: Status)
        ensures
            s == Status::Internal,
    {
        Status::Internal
    }
}

/// The first line of a response: version and status.
#[derive(Clone, Copy, Debug, PartialEq, Eq, Structural)]
pub struct StatusLine {
    pub version: Version,
    pub status: Status,
}

impl Default for StatusLine {
    /// Version 1.1 with the default (server error) status.
    fn default() -> (sl: StatusLine)
        ensures
            sl == (StatusLine {
                version: Version { major: 1, minor: 1 },
                status: Status::Internal,
            }),
    {
        StatusLine { version: Version { major: 1, minor: 1 }, status: Status::Internal }
    }
}

/// A response under construction: status line, header mapping with
/// lower-cased names and values, optional body.
#[derive(Debug, PartialEq, Eq)]
pub struct Response {
    pub status_line: StatusLine,
    pub headers: Headers,
    pub body: Option<Vec<u8>>,
}

// --- executable wire literals ---------------------------------------------

/// The wire token of a method, as owned bytes.
pub(crate) fn tok_vec(m: Method) -> (v: Vec<u8>)
    ensures
        v@ == tok(m),
{
    let mut v: Vec<u8> = Vec::new();
    match m {
        Method::Get => {
            v.push(71);
            v.push(69);
            v.push(84);
        },
        Method::Head => {
            v.push(72);
            v.push(69);
            v.push(65);
            v.push(68);
        },
        Method::Post => {
            v.push(80);
            v.push(79);
            v.push(83);
            v.push(84);
        },
        Method::Put => {
            v.push(80);
            v.push(85);
            v.push(84);
        },
        Method::Delete => {
            v.push(68);
            v.push(69);
            v.push(76);
            v.push(69);
            v.push(84);
            v.push(69);
        },
        Method::Connect => {
            v.push(67);
            v.push(79);
            v.push(78);
            v.push(78);
            v.push(69);
            v.push(67);
            v.push(84);
        },
        Method::Options => {
            v.push(79);
            v.push(80);
            v.push(84);
            v.push(73);
            v.push(79);
            v.push(78);
            v.push(83);
        },
        Method::Trace => {
            v.push(84);
            v.push(82);
            v.push(65);
            v.push(67);
            v.push(69);
        },
        Method::Patch => {
            v.push(80);
            v.push(65);
            v.push(84);
            v.push(67);
            v.push(72);
        },
    }
    proof {
        assert(v@ =~= tok(m));
    }
    v
}

/// The literal `HTTP/`, as owned bytes.
pub(crate) fn lit_http_vec() -> (v: Vec<u8>)
    ensures
        v@ == lit_http(),
{
    let mut v: Vec<u8> = Vec::new();
    v.push(72);
    v.push(84);
    v.push(84);
    v.push(80);
    v.push(47);
    proof {
        assert(v@ =~= lit_http());
    }
    v
}

/// The literal `.`, as owned bytes.
pub(crate) fn dot_vec() -> (v: Vec<u8>)
    ensures
        v@ == seq![DOT],
{
    let mut v: Vec<u8> = Vec::new();
    v.push(DOT);
    proof {
        assert(v@ =~= seq![DOT]);
    }
    v
}

/// The literal CRLF, as owned bytes.
pub(crate) fn crlf_vec() -> (v: Vec<u8>)
    ensures
        v@ == crlf(),
{
    let mut v: Vec<u8> = Vec::new();
    v.push(CR);
    v.push(LF);
    proof {
        assert(v@ =~= crlf());
    }
    v
}

/// The header name `content-length`, as owned bytes.
pub(crate) fn cl_key_vec() -> (v: Vec<u8>)
    ensures
        v@ == cl_key(),
{
    let mut v: Vec<u8> = Vec::new();
    v.push(99);
    v.push(111);
    v.push(110);
    v.push(116);
    v.push(101);
    v.push(110);
    v.push(116);
    v.push(45);
    v.push(108);
    v.push(101);
    v.push(110);
    v.push(103);
    v.push(116);
    v.push(104);
    proof {
        assert(v@ =~= cl_key());
    }
    v
}

/// The header name `content-type`, as owned bytes.
pub(crate) fn ct_key_vec() -> (v: Vec<u8>)
    ensures
        v@ == ct_key(),
{
    let mut v: Vec<u8> = Vec::new();
    v.push(99);
    v.push(111);
    v.push(110);
    v.push(116);
    v.push(101);
    v.push(110);
    v.push(116);
    v.push(45);
    v.push(116);
    v.push(121);
    v.push(112);
    v.push(101);
    proof {
        assert(v@ =~= ct_key());
    }
    v
}

// --- executable grammar stages ---------------------------------------------

/// Whether `t` is a prefix of `s`.
fn begins_with(s: &[u8], t: &[u8]) -> (b: bool)
    ensures
        b == crate::grammar::starts_with(s@, t@),
{
    if t.len() > s.len() {
        return false;
    }
    let mut i: usize = 0;
    while i < t.len()
        invariant
            i <= t.len() <= s.len(),
            forall|m: int| 0 <= m < i ==> s@[m] == t@[m],
        decreases t.len() - i,
    {
        let x = *vstd::slice::slice_index_get(s, i);
        let y = *vstd::slice::slice_index_get(t, i);
        if x != y {
            proof {
                assert(!crate::grammar::starts_with(s@, t@)) by {
                    if crate::grammar::starts_with(s@, t@) {
                        assert(s@.subrange(0, t@.len() as int)[i as int] == t@[i as int]);
                        assert(s@.subrange(0, t@.len() as int)[i as int] == s@[i as int]);
                    }
                }
            }
            return false;
        }
        i = i + 1;
    }
    proof {
        assert(s@.subrange(0, t@.len() as int) =~= t@);
    }
    true
}

/// Consume the literal `t` at position `from`, as `parse_lit` says.
fn lit_step(s: &[u8], from: usize, t: &[u8], e: ParseError) -> (r: Result<usize, ParseError>)
    requires
        from <= s@.len(),
    ensures
        match r {
            Ok(j) => from <= j <= s@.len() && j - from == t@.len() && parse_lit(
                s@.skip(from as int),
                t@,
                e,
            ) == Ok::<int, ParseError>(j - from),
            Err(err) => parse_lit(s@.skip(from as int), t@, e) == Err::<int, ParseError>(err),
        },
{
    let ghost s2 = s@.skip(from as int);
    let mut i: usize = 0;
    while i < t.len()
        invariant
            from <= s@.len(),
            i <= t.len(),
            i <= s@.len() - from,
            s2 == s@.skip(from as int),
            forall|m: int| 0 <= m < i ==> s2[m] == t@[m],
        decreases t.len() - i,
    {
        if s.len() - from == i {
            proof {
                assert(s2.len() == i < t@.len());
                assert(s2 =~= t@.subrange(0, s2.len() as int));
            }
            return Err(ParseError::Incomplete);
        }
        let x = *vstd::slice::slice_index_get(s, from + i);
        let y = *vstd::slice::slice_index_get(t, i);
        proof {
            assert(s2[i as int] == s@[from + i]);
        }
        if x != y {
            proof {
                assert(!crate::grammar::starts_with(s2, t@)) by {
                    if crate::grammar::starts_with(s2, t@) {
                        assert(s2.subrange(0, t@.len() as int)[i as int] == t@[i as int]);
                        assert(s2.subrange(0, t@.len() as int)[i as int] == s2[i as int]);
                    }
                }
                if s2.len() < t@.len() && s2 == t@.subrange(0, s2.len() as int) {
                    assert(t@.subrange(0, s2.len() as int)[i as int] == t@[i as int]);
                }
            }
            return Err(e);
        }
        i = i + 1;
    }
    let total = s.len();
    proof {
        assert(total == s@.len());
        assert(from + t@.len() <= s@.len());
    }
    proof {
        assert(s2.subrange(0, t@.len() as int) =~= t@);
    }
    Ok(from + t.len())
}

/// Consume one or more digits at `from` and read them as an unsigned byte,
/// as `parse_u8_num` says.
fn u8_num_step(s: &[u8], from: usize) -> (r: Result<(u8, usize), ParseError>)
    requires
        from <= s@.len(),
    ensures
        match r {
            Ok((v, j)) => from <= j <= s@.len() && parse_u8_num(s@.skip(from as int)) == Ok::<
                (u8, int),
                ParseError,
            >((v, j - from)),
            Err(err) => parse_u8_num(s@.skip(from as int)) == Err::<(u8, int), ParseError>(err),
        },
{
    let ghost s2 = s@.skip(from as int);
    let j = scan_digits(s, from);
    proof {
        crate::wire::lemma_digit_run_chars(s2);
    }
    if j == from {
        if from == s.len() {
            return Err(ParseError::Incomplete);
        } else {
            return Err(ParseError::BadVersion);
        }
    }
    let ghost n = j - from;
    let ghost u = s@.subrange(from as int, j as int);
    proof {
        assert(u =~= s2.subrange(0, n as int));
        assert forall|m: int| 0 <= m < u.len() implies is_digit(#[trigger] u[m]) by {
            assert(u[m] == s2[m]);
        }
    }
    let mut acc: u16 = 0;
    let mut i = from;
    proof {
        assert(s@.subrange(from as int, from as int) =~= Seq::<u8>::empty());
    }
    while i < j
        invariant
            from <= i <= j <= s@.len(),
            acc <= 255,
            s2 == s@.skip(from as int),
            n == j - from,
            u == s@.subrange(from as int, j as int),
            forall|m: int| 0 <= m < u.len() ==> is_digit(#[trigger] u[m]),
            n == crate::wire::digit_run(s2),
            acc == digits_value(s@.subrange(from as int, i as int)),
        decreases j - i,
    {
        let b = *vstd::slice::slice_index_get(s, i);
        proof {
            assert(u[i - from] == s@[i as int]);
        }
        let d: u16 = (b - DIGIT_0) as u16;
        let acc2: u16 = acc * 10 + d;
        proof {
            let pre = s@.subrange(from as int, i as int);
            let post = s@.subrange(from as int, i as int + 1);
            assert(post.drop_last() =~= pre);
            assert(post.last() == s@[i as int]);
            assert(digits_value(post) == acc * 10 + d);
        }
        if acc2 > 255 {
            proof {
                lemma_digits_value_prefix_mono(u, i + 1 - from);
                assert(u.subrange(0, i + 1 - from) =~= s@.subrange(from as int, i as int + 1));
                assert(u =~= s2.subrange(0, n as int));
                assert(digits_value(s2.subrange(0, n as int)) > 255);
            }
            return Err(ParseError::BadVersion);
        }
        acc = acc2;
        i = i + 1;
    }
    proof {
        assert(s@.subrange(from as int, j as int) =~= s2.subrange(0, n as int));
        assert(parse_u8_num(s2) == Ok::<(u8, int), ParseError>((acc as u8, n)));
    }
    Ok((acc as u8, j))
}

impl RequestLine {
    /// Read the whole request line from the front of `input`, CRLF
    /// included.
    pub fn parser(input: &[u8]) -> (r: Result<(RequestLine, usize), ParseError>)
        ensures
            match r {
                Ok((rl, n)) => n <= input@.len() && crate::grammar::parse_request_line(input@)
                    == Ok::<((Method, Seq<u8>, Version), int), ParseError>(
                    ((rl.method, rl.path@, rl.version), n as int),
                ),
                Err(e) => crate::grammar::parse_request_line(input@) == Err::<
                    ((Method, Seq<u8>, Version), int),
                    ParseError,
                >(e),
            },
    {
        let (method, a) = match Method::parser(input) {
            Ok(p) => p,
            Err(e) => {
                return Err(e);
            },
        };
        let b = crate::wire::skip_spaces(input, a);
        if b == a {
            if a == input.len() {
                return Err(ParseError::Incomplete);
            } else {
                return Err(ParseError::BadRequestLine);
            }
        }
        let p_end = crate::wire::scan_path(input, b);
        let path = crate::wire::copy_range(input, b, p_end);
        let c = crate::wire::skip_spaces(input, p_end);
        if c == p_end {
            if p_end == input.len() {
                return Err(ParseError::Incomplete);
            } else {
                return Err(ParseError::BadRequestLine);
            }
        }
        let sub = vstd::slice::slice_subrange(input, c, input.len());
        proof {
            assert(sub@ =~= input@.skip(c as int));
        }
        let (version, vrel) = match Version::parser(sub) {
            Ok(p) => p,
            Err(e) => {
                return Err(e);
            },
        };
        let vend = c + vrel;
        let cv = crlf_vec();
        let f = match lit_step(input, vend, cv.as_slice(), ParseError::BadRequestLine) {
            Ok(j) => j,
            Err(e) => {
                return Err(e);
            },
        };
        Ok((RequestLine { method, path, version }, f))
    }
}

/// Read header lines from `start` until the blank line, as `parse_headers`
/// says, folding names to lower case with last write winning.
fn headers_loop(input: &[u8], start: usize) -> (r: Result<(Headers, usize), ParseError>)
    requires
        start <= input@.len(),
    ensures
        match r {
            Ok((h, end)) => start <= end <= input@.len() && h.wf() && crate::grammar::parse_headers(
                input@.skip(start as int),
                Seq::empty(),
            ) == Ok::<(Seq<(Seq<u8>, Seq<u8>)>, int), ParseError>((h@, end - start)),
            Err(e) => crate::grammar::parse_headers(input@.skip(start as int), Seq::empty())
                == Err::<(Seq<(Seq<u8>, Seq<u8>)>, int), ParseError>(e),
        },
{
    let mut hs = Headers::new();
    let mut pos = start;
    loop
        invariant
            start <= pos <= input@.len(),
            hs.wf(),
            crate::grammar::parse_headers(input@.skip(start as int), Seq::empty())
                == crate::grammar::hdr_shift(
                crate::grammar::parse_headers(input@.skip(pos as int), hs@),
                pos - start,
            ),
        decreases input@.len() - pos,
    {
        let ghost s2 = input@.skip(pos as int);
        if pos == input.len() {
            proof {
                assert(s2.len() == 0);
            }
            return Err(ParseError::Incomplete);
        }
        let b0 = *vstd::slice::slice_index_get(input, pos);
        proof {
            assert(s2[0] == input@[pos as int]);
        }
        if b0 == CR {
            if input.len() - pos == 1 {
                proof {
                    assert(s2.len() == 1);
                }
                return Err(ParseError::Incomplete);
            }
            let b1 = *vstd::slice::slice_index_get(input, pos + 1);
            proof {
                assert(s2[1] == input@[pos as int + 1]);
            }
            if b1 == LF {
                proof {
                    assert(crate::grammar::parse_headers(s2, hs@) == Ok::<
                        (Seq<(Seq<u8>, Seq<u8>)>, int),
                        ParseError,
                    >((hs@, 2)));
                }
                return Ok((hs, pos + 2));
            } else {
                return Err(ParseError::BadHeaderLine);
            }
        }
        let j = crate::wire::scan_name(input, pos);
        proof {
            crate::wire::lemma_name_run_bounds(s2);
        }
        if j == pos {
            return Err(ParseError::BadHeaderLine);
        }
        if j == input.len() {
            proof {
                assert(crate::wire::name_run(s2) == s2.len());
            }
            return Err(ParseError::Incomplete);
        }
        let bc = *vstd::slice::slice_index_get(input, j);
        proof {
            assert(s2[j - pos] == input@[j as int]);
        }
        if bc != COLON {
            return Err(ParseError::BadHeaderLine);
        }
        if input.len() - j == 1 {
            proof {
                assert(crate::wire::name_run(s2) + 1 == s2.len());
            }
            return Err(ParseError::Incomplete);
        }
        let bsp = *vstd::slice::slice_index_get(input, j + 1);
        proof {
            assert(s2[j + 1 - pos] == input@[j as int + 1]);
        }
        if bsp != SP {
            return Err(ParseError::BadHeaderLine);
        }
        let vstart = j + 2;
        proof {
            assert(s2.skip(j + 2 - pos) =~= input@.skip(vstart as int));
        }
        let kabs = match crate::wire::find_crlf_from(input, vstart) {
            Some(k) => k,
            None => {
                return Err(ParseError::Incomplete);
            },
        };
        let key = crate::wire::lower_range(input, pos, j);
        let value = crate::wire::copy_range(input, vstart, kabs);
        proof {
            assert(s2.subrange(0, j - pos) =~= input@.subrange(pos as int, j as int));
            assert(s2.subrange(j + 2 - pos, kabs - pos) =~= input@.subrange(
                vstart as int,
                kabs as int,
            ));
        }
        let ghost hs_before = hs@;
        hs.insert(key, value);
        let pos2 = kabs + 2;
        proof {
            let n = j - pos;
            let k = kabs - vstart;
            assert(s2.skip(n + 2 + k + 2) =~= input@.skip(pos2 as int));
            assert(crate::grammar::parse_headers(s2, hs_before) == crate::grammar::hdr_shift(
                crate::grammar::parse_headers(input@.skip(pos2 as int), hs@),
                n + 2 + k + 2,
            )) by {
                match crate::grammar::parse_headers(input@.skip(pos2 as int), hs@) {
                    Ok(p) => {},
                    Err(e) => {},
                }
            }
            assert(crate::grammar::hdr_shift(
                crate::grammar::hdr_shift(
                    crate::grammar::parse_headers(input@.skip(pos2 as int), hs@),
                    n + 2 + k + 2,
                ),
                pos - start,
            ) == crate::grammar::hdr_shift(
                crate::grammar::parse_headers(input@.skip(pos2 as int), hs@),
                pos2 - start,
            )) by {
                match crate::grammar::parse_headers(input@.skip(pos2 as int), hs@) {
                    Ok(p) => {},
                    Err(e) => {},
                }
            }
        }
        pos = pos2;
    }
}

impl View for Request {
    type V = crate::grammar::ReqModel;

    open spec fn view(&self) -> crate::grammar::ReqModel {
        crate::grammar::ReqModel {
            method: self.req_line.method,
            path: self.req_line.path@,
            version: self.req_line.version,
            headers: self.headers@,
            body: match self.body {
                Some(b) => Some(b@),
                None => None,
            },
        }
    }
}

impl Request {
    /// Parse one complete request out of `input`: request line, header
    /// block, blank line, then every remaining byte as the body. On
    /// success the whole buffer is consumed and the number of consumed
    /// bytes is returned beside the request.
    pub fn parser(input: &[u8]) -> (r: Result<(Request, usize), ParseError>)
        ensures
            match r {
                Ok((req, n)) => n == input@.len() && req.headers.wf()
                    && crate::grammar::spec_parse_request(input@) == Ok::<
                    crate::grammar::ReqModel,
                    ParseError,
                >(req@),
                Err(e) => crate::grammar::spec_parse_request(input@) == Err::<
                    crate::grammar::ReqModel,
                    ParseError,
                >(e),
            },
    {
        let (req_line, n1) = match RequestLine::parser(input) {
            Ok(p) => p,
            Err(e) => {
                return Err(e);
            },
        };
        let (headers, end) = match headers_loop(input, n1) {
            Ok(p) => p,
            Err(e) => {
                return Err(e);
            },
        };
        let body = if end < input.len() {
            Some(crate::wire::copy_range(input, end, input.len()))
        } else {
            None
        };
        let req = Request { req_line, headers, body };
        proof {
            assert(input@.subrange(end as int, input@.len() as int) =~= input@.skip(end as int));
            assert(input@.skip(end as int).len() == input@.len() - end);
        }
        Ok((req, input.len()))
    }

    /// The `content-length` header read as an unsigned integer: absent
    /// when the header is missing, not a number, or too large to hold.
    pub fn get_content_length(&self) -> (r: Option<usize>)
        ensures
            r == crate::grammar::spec_content_length(self.headers@),
    {
        let cl = cl_key_vec();
        let v = match self.headers.get(cl.as_slice()) {
            Some(v) => v,
            None => {
                return None;
            },
        };
        let blen = v.len();
        let first_plus = blen > 0 && *vstd::slice::slice_index_get(v.as_slice(), 0)
            == crate::wire::PLUS;
        let start: usize = if first_plus {
            1
        } else {
            0
        };
        let ghost t = v@.skip(start as int);
        proof {
            crate::wire::lemma_digit_run_chars(t);
            if start == 0 {
                assert(t =~= v@);
            }
            assert(crate::grammar::num_str_value(v@) == crate::grammar::digits_opt(t));
        }
        let dend = crate::wire::scan_digits(v.as_slice(), start);
        if dend == start {
            proof {
                if t.len() > 0 {
                    assert(!is_digit(t[0]));
                    assert(!crate::grammar::all_digits(t));
                }
                assert(crate::grammar::digits_opt(t) is None);
            }
            return None;
        }
        if dend < blen {
            proof {
                let w = crate::wire::digit_run(t);
                assert(w < t.len());
                assert(!is_digit(t[w]));
                assert(!crate::grammar::all_digits(t));
                assert(crate::grammar::digits_opt(t) is None);
            }
            return None;
        }
        proof {
            assert forall|m: int| 0 <= m < t.len() implies is_digit(#[trigger] t[m]) by {
                assert(crate::wire::digit_run(t) == t.len());
            }
            assert(crate::grammar::all_digits(t));
        }
        let mut acc: usize = 0;
        let mut i = start;
        proof {
            assert(v@.subrange(start as int, start as int) =~= Seq::<u8>::empty());
        }
        while i < dend
            invariant
                start <= i <= dend <= v@.len(),
                t == v@.skip(start as int),
                dend == v@.len(),
                t.len() >= 1,
                crate::grammar::all_digits(t),
                crate::grammar::num_str_value(v@) == crate::grammar::digits_opt(t),
                crate::headers::lookup(self.headers@, cl_key()) == Some(v@),
                acc == digits_value(v@.subrange(start as int, i as int)),
            decreases dend - i,
        {
            let b = *vstd::slice::slice_index_get(v.as_slice(), i);
            proof {
                assert(t[i - start] == v@[i as int]);
            }
            let d: usize = (b - DIGIT_0) as usize;
            proof {
                let pre = v@.subrange(start as int, i as int);
                let post = v@.subrange(start as int, i as int + 1);
                assert(post.drop_last() =~= pre);
                assert(post.last() == v@[i as int]);
                assert(digits_value(post) == acc * 10 + d);
                vstd::arithmetic::div_mod::lemma_fundamental_div_mod(
                    (usize::MAX - d) as int,
                    10,
                );
            }
            if acc > (usize::MAX - d) / 10 {
                proof {
                    assert(acc * 10 + d > usize::MAX);
                    lemma_digits_value_prefix_mono(t, i + 1 - start);
                    assert(t.subrange(0, i + 1 - start) =~= v@.subrange(
                        start as int,
                        i as int + 1,
                    ));
                    assert(digits_value(t) > usize::MAX);
                    assert(crate::grammar::digits_opt(t) == Some(digits_value(t)));
                }
                return None;
            }
            proof {
                assert(acc * 10 <= ((usize::MAX - d) / 10) * 10);
            }
            acc = acc * 10 + d;
            i = i + 1;
        }
        proof {
            assert(v@.subrange(start as int, dend as int) =~= t);
        }
                Some(acc)
    }
}

impl Method {
    /// Read one method token from the front of `input`; the unmatched
    /// input is a method error.
    pub fn parser(input: &[u8]) -> (r: Result<(Method, usize), ParseError>)
        ensures
            match r {
                Ok((m, n)) => n <= input@.len() && parse_method(input@) == Ok::<
                    (Method, int),
                    ParseError,
                >((m, n as int)),
                Err(e) => parse_method(input@) == Err::<(Method, int), ParseError>(e),
            },
    {
        let get = tok_vec(Method::Get);
        if begins_with(input, get.as_slice()) {
            return Ok((Method::Get, get.len()));
        }
        let head = tok_vec(Method::Head);
        if begins_with(input, head.as_slice()) {
            return Ok((Method::Head, head.len()));
        }
        let post = tok_vec(Method::Post);
        if begins_with(input, post.as_slice()) {
            return Ok((Method::Post, post.len()));
        }
        let put = tok_vec(Method::Put);
        if begins_with(input, put.as_slice()) {
            return Ok((Method::Put, put.len()));
        }
        let delete = tok_vec(Method::Delete);
        if begins_with(input, delete.as_slice()) {
            return Ok((Method::Delete, delete.len()));
        }
        let connect = tok_vec(Method::Connect);
        if begins_with(input, connect.as_slice()) {
            return Ok((Method::Connect, connect.len()));
        }
        let options = tok_vec(Method::Options);
        if begins_with(input, options.as_slice()) {
            return Ok((Method::Options, options.len()));
        }
        let trace = tok_vec(Method::Trace);
        if begins_with(input, trace.as_slice()) {
            return Ok((Method::Trace, trace.len()));
        }
        let patch = tok_vec(Method::Patch);
        if begins_with(input, patch.as_slice()) {
            return Ok((Method::Patch, patch.len()));
        }
        Err(ParseError::BadMethod)
    }
}

impl Version {
    /// Read `HTTP/<major>.<minor>` from the front of `input`.
    pub fn parser(input: &[u8]) -> (r: Result<(Version, usize), ParseError>)
        ensures
            match r {
                Ok((v, n)) => n <= input@.len() && parse_version(input@) == Ok::<
                    (Version, int),
                    ParseError,
                >((v, n as int)),
                Err(e) => parse_version(input@) == Err::<(Version, int), ParseError>(e),
            },
    {
        proof {
            assert(input@.skip(0) =~= input@);
        }
        let hv = lit_http_vec();
        let a = match lit_step(input, 0, hv.as_slice(), ParseError::BadRequestLine) {
            Ok(j) => j,
            Err(e) => {
                return Err(e);
            },
        };
        let (major, b) = match u8_num_step(input, a) {
            Ok(p) => p,
            Err(e) => {
                return Err(e);
            },
        };
        let dv = dot_vec();
        let c = match lit_step(input, b, dv.as_slice(), ParseError::BadVersion) {
            Ok(j) => j,
            Err(e) => {
                return Err(e);
            },
        };
        let (minor, d) = match u8_num_step(input, c) {
            Ok(p) => p,
            Err(e) => {
                return Err(e);
            },
        };
        Ok((Version { major, minor }, d))
    }
}

impl Status {
    /// The fixed numeric code of this status.
    pub fn code(&self) -> (c: u32)
        ensures
            c == crate::render::code_of(*self),
    {
        match self {
            Status::Okay => 200,
            Status::Created => 201,
            Status::BadRequest => 400,
            Status::NotFound => 404,
            Status::Internal => 500,
        }
    }

    /// The fixed reason phrase of this status; the mixed capitalization is
    /// part of the wire contract.
    pub fn text(&self) -> (t: &'static str)
        ensures
            t@ == crate::render::reason_str(*self),
    {
        match self {
            Status::Okay => "OK",
            Status::Created => "Created",
            Status::BadRequest => "Bad Request",
            Status::NotFound => "NOT FOUND",
            Status::Internal => "Internal Server Error",
        }
    }
}

impl View for Response {
    type V = crate::render::RespModel;

    open spec fn view(&self) -> crate::render::RespModel {
        crate::render::RespModel {
            status_line: self.status_line,
            headers: self.headers@,
            body: match self.body {
                Some(b) => Some(b@),
                None => None,
            },
        }
    }
}

impl Default for Response {
    /// The default response is a server error with no headers and no body.
    fn default() -> (r: Response)
        ensures
            r@.status_line == (StatusLine {
                version: Version { major: 1, minor: 1 },
                status: Status::Internal,
            }),
            r@.headers == Seq::<(Seq<u8>, Seq<u8>)>::empty(),
            r@.body is None,
            r.headers.wf(),
    {
        Response::new(Status::Internal)
    }
}

impl Response {
    /// A fresh response with the given status, version 1.1, no headers and
    /// no body.
    pub fn new(status: Status) -> (r: Response)
        ensures
            r@.status_line == (StatusLine { version: Version { major: 1, minor: 1 }, status }),
            r@.headers == Seq::<(Seq<u8>, Seq<u8>)>::empty(),
            r@.body is None,
            r.headers.wf(),
    {
        Response {
            status_line: StatusLine { version: Version { major: 1, minor: 1 }, status },
            headers: Headers::new(),
            body: None,
        }
    }

    /// Insert a header, lower-casing both name and value; an equal name is
    /// silently overwritten (last call wins).
    pub fn with_header(self, k: &[u8], v: &[u8]) -> (r: Response)
        requires
            self.headers.wf(),
        ensures
            r@.status_line == self@.status_line,
            r@.body == self@.body,
            r@.headers == crate::headers::insert_pair(
                self@.headers,
                crate::wire::lower_bytes(k@),
                crate::wire::lower_bytes(v@),
            ),
            r.headers.wf(),
    {
        let kl = crate::wire::lower_range(k, 0, k.len());
        let vl = crate::wire::lower_range(v, 0, v.len());
        proof {
            assert(k@.subrange(0, k@.len() as int) =~= k@);
            assert(v@.subrange(0, v@.len() as int) =~= v@);
        }
        let mut me = self;
        me.headers.insert(kl, vl);
        me
    }

    /// Set the body and, as part of the builder contract, insert the
    /// `content-type` and `content-length` headers computed from the given
    /// type and the body's byte length.
    pub fn with_body(self, body: &[u8], content_type: &[u8]) -> (r: Response)
        requires
            self.headers.wf(),
        ensures
            r@.status_line == self@.status_line,
            r@.body == Some(body@),
            r@.headers == crate::headers::insert_pair(
                crate::headers::insert_pair(
                    self@.headers,
                    ct_key(),
                    crate::wire::lower_bytes(content_type@),
                ),
                cl_key(),
                crate::wire::dec_bytes(body@.len()),
            ),
            r.headers.wf(),
    {
        let mut me = self;
        me.body = Some(vstd::slice::slice_to_vec(body));
        let len_bytes = crate::wire::dec_u64_vec(body.len() as u64);
        let ct = ct_key_vec();
        let cl = cl_key_vec();
        let r1 = me.with_header(ct.as_slice(), content_type);
        let r2 = r1.with_header(cl.as_slice(), len_bytes.as_slice());
        proof {
            crate::grammar::lemma_keys_lower();
            crate::wire::lemma_lower_dec_bytes(body@.len());
        }
        r2
    }
}

} // verus!
