//! The wire form of responses (and of requests, for the round-trip law),
//! stated as specification functions over byte strings. The executable
//! serializer in `ser` is proved equal to these functions.

use vstd::prelude::*;

use crate::grammar::{crlf, lit_http, tok, ReqModel};
use crate::http::{Method, Status, StatusLine, Version};
use crate::wire::{dec_bytes, COLON, DOT, SP};

verus! {

/// One header line: `name: value` followed by CRLF.
pub open spec fn header_line(k: Seq<u8>, v: Seq<u8>) -> Seq<u8> {
    k + seq![COLON, SP] + v + crlf()
}

/// The header block: one line per pair, in the order held (sorted by key).
pub open spec fn wire_headers(h: Seq<(Seq<u8>, Seq<u8>)>) -> Seq<u8>
    decreases h.len(),
{
    if h.len() == 0 {
        Seq::empty()
    } else {
        header_line(h[0].0, h[0].1) + wire_headers(h.skip(1))
    }
}

/// Adding a pair at the end appends its line.
pub proof fn lemma_wire_headers_push(h: Seq<(Seq<u8>, Seq<u8>)>, k: Seq<u8>, v: Seq<u8>)
    ensures
        wire_headers(h.push((k, v))) == wire_headers(h) + header_line(k, v),
    decreases h.len(),
{
    let p = h.push((k, v));
    if h.len() == 0 {
        assert(p[0] == (k, v));
        assert(p.skip(1) =~= Seq::<(Seq<u8>, Seq<u8>)>::empty());
        assert(wire_headers(p) == header_line(k, v) + wire_headers(p.skip(1)));
        assert(wire_headers(p.skip(1)) == Seq::<u8>::empty());
        assert(wire_headers(h) == Seq::<u8>::empty());
        assert(wire_headers(p) =~= wire_headers(h) + header_line(k, v));
    } else {
        assert(p[0] == h[0]);
        assert(p.skip(1) =~= h.skip(1).push((k, v)));
        lemma_wire_headers_push(h.skip(1), k, v);
        assert(wire_headers(p) == header_line(h[0].0, h[0].1) + (wire_headers(h.skip(1))
            + header_line(k, v)));
        assert(header_line(h[0].0, h[0].1) + (wire_headers(h.skip(1)) + header_line(k, v)) =~= (
        header_line(h[0].0, h[0].1) + wire_headers(h.skip(1))) + header_line(k, v));
    }
}

/// The wire form of a version: `HTTP/<major>.<minor>`.
pub open spec fn wire_version(v: Version) -> Seq<u8> {
    lit_http() + dec_bytes(v.major as nat) + seq![DOT] + dec_bytes(v.minor as nat)
}

/// The fixed numeric code of each status.
pub open spec fn code_of(s: Status) -> u32 {
    match s {
        Status::Okay => 200,
        Status::Created => 201,
        Status::BadRequest => 400,
        Status::NotFound => 404,
        Status::Internal => 500,
    }
}

/// The fixed reason phrase of each status, as wire bytes; the mixed
/// capitalization is part of the wire contract.
pub open spec fn reason_of(s: Status) -> Seq<u8> {
    match s {
        Status::Okay => seq![79u8, 75u8],
        Status::Created => seq![67u8, 114u8, 101u8, 97u8, 116u8, 101u8, 100u8],
        Status::BadRequest => seq![
            66u8,
            97u8,
            100u8,
            32u8,
            82u8,
            101u8,
            113u8,
            117u8,
            101u8,
            115u8,
            116u8,
        ],
        Status::NotFound => seq![78u8, 79u8, 84u8, 32u8, 70u8, 79u8, 85u8, 78u8, 68u8],
        Status::Internal => seq![
            73u8,
            110u8,
            116u8,
            101u8,
            114u8,
            110u8,
            97u8,
            108u8,
            32u8,
            83u8,
            101u8,
            114u8,
            118u8,
            101u8,
            114u8,
            32u8,
            69u8,
            114u8,
            114u8,
            111u8,
            114u8,
        ],
    }
}

/// The fixed reason phrase of each status, as text.
pub open spec fn reason_str(s: Status) -> Seq<char> {
    match s {
        Status::Okay => "OK"@,
        Status::Created => "Created"@,
        Status::BadRequest => "Bad Request"@,
        Status::NotFound => "NOT FOUND"@,
        Status::Internal => "Internal Server Error"@,
    }
}

/// The wire form of a status line: `HTTP/x.y <code> <reason>` and CRLF.
pub open spec fn wire_status_line(sl: StatusLine) -> Seq<u8> {
    wire_version(sl.version) + seq![SP] + dec_bytes(code_of(sl.status) as nat) + seq![SP]
        + reason_of(sl.status) + crlf()
}

/// The mathematical content of a response.
pub ghost struct RespModel {
    pub status_line: StatusLine,
    pub headers: Seq<(Seq<u8>, Seq<u8>)>,
    pub body: Option<Seq<u8>>,
}

/// The whole wire form of a response: status line, header block in key
/// order, the unconditional blank line, then the raw body bytes if any.
pub open spec fn wire_response(r: RespModel) -> Seq<u8> {
    wire_status_line(r.status_line) + wire_headers(r.headers) + crlf() + (match r.body {
        Some(b) => b,
        None => Seq::empty(),
    })
}

/// The canonical wire form of a request, used by the round-trip law:
/// single spaces in the request line, headers in held order, blank line,
/// then the body bytes if any.
pub open spec fn render_request(m: ReqModel) -> Seq<u8> {
    tok(m.method) + seq![SP] + m.path + seq![SP] + wire_version(m.version) + crlf() + wire_headers(
        m.headers,
    ) + crlf() + (match m.body {
        Some(b) => b,
        None => Seq::empty(),
    })
}

} // verus!
