//! The laws of the library, proved once and for all: the round trip of the
//! request wire grammar, last-write-wins header overwriting, case-folded
//! header lookup, deterministic serialization, and the body boundary.

use vstd::prelude::*;

use crate::grammar::{
    crlf, lit_http, parse_headers, parse_lit, parse_method, parse_request_line, parse_space,
    parse_u8_num, parse_version, spec_parse_request, starts_with, tok, ParseError, ReqModel,
};
use crate::headers::{
    insert_pair, lemma_insert_pair_append, lemma_lookup_insert_other, lemma_lookup_insert_same,
    lookup, sorted_keys,
};
use crate::http::{Method, Version};
use crate::render::{
    header_line, render_request, wire_headers, wire_response, wire_version, RespModel,
};
use crate::wire::{
    crlf_free, dec_bytes, is_digit, is_header_key, is_space, is_whitespace,
    lemma_dec_bytes_digits, lemma_digit_run_concat, lemma_digits_value_dec_bytes,
    lemma_find_crlf_concat, lemma_lex_irrefl, lemma_name_run_concat, lemma_path_run_concat,
    lemma_space_run_concat, lex_lt, lower_bytes,
    COLON, CR, LF, SP,
};

verus! {

// --- what the round trip asks of a request model ---------------------------

/// A header pair the wire grammar can carry: a non-empty name of name
/// bytes, already lower-cased, and a value free of CRLF pairs.
pub open spec fn valid_header_pair(p: (Seq<u8>, Seq<u8>)) -> bool {
    &&& p.0.len() > 0
    &&& (forall|j: int| 0 <= j < p.0.len() ==> is_header_key(#[trigger] p.0[j]))
    &&& lower_bytes(p.0) == p.0
    &&& crlf_free(p.1)
}

/// A request model the wire grammar can carry and give back unchanged: a
/// non-empty path without whitespace, sorted lower-cased headers, and a
/// body that is absent rather than empty.
pub open spec fn renderable(m: ReqModel) -> bool {
    &&& m.path.len() > 0
    &&& (forall|i: int| 0 <= i < m.path.len() ==> !is_whitespace(#[trigger] m.path[i]))
    &&& sorted_keys(m.headers)
    &&& (forall|i: int| 0 <= i < m.headers.len() ==> valid_header_pair(#[trigger] m.headers[i]))
    &&& (m.body matches Some(b) ==> b.len() > 0)
}

// --- stage lemmas -----------------------------------------------------------

/// `t` cannot be a prefix of `s` when they differ at position `d`.
proof fn lemma_not_prefix(s: Seq<u8>, t: Seq<u8>, d: int)
    requires
        0 <= d < t.len(),
        d < s.len(),
        s[d] != t[d],
    ensures
        !starts_with(s, t),
{
    if starts_with(s, t) {
        assert(s.subrange(0, t.len() as int)[d] == t[d]);
        assert(s.subrange(0, t.len() as int)[d] == s[d]);
    }
}

/// A rendered method token parses back to the method.
proof fn lemma_parse_method_round(m: Method, rest: Seq<u8>)
    ensures
        parse_method(tok(m) + rest) == Ok::<(Method, int), ParseError>((m, tok(m).len() as int)),
{
    let s = tok(m) + rest;
    assert forall|i: int| 0 <= i < tok(m).len() implies s[i] == tok(m)[i] by {}
    assert(s.subrange(0, tok(m).len() as int) =~= tok(m));
    match m {
        Method::Get => {},
        Method::Head => {
            lemma_not_prefix(s, tok(Method::Get), 0);
        },
        Method::Post => {
            lemma_not_prefix(s, tok(Method::Get), 0);
            lemma_not_prefix(s, tok(Method::Head), 0);
        },
        Method::Put => {
            lemma_not_prefix(s, tok(Method::Get), 0);
            lemma_not_prefix(s, tok(Method::Head), 0);
            lemma_not_prefix(s, tok(Method::Post), 1);
        },
        Method::Delete => {
            lemma_not_prefix(s, tok(Method::Get), 0);
            lemma_not_prefix(s, tok(Method::Head), 0);
            lemma_not_prefix(s, tok(Method::Post), 0);
            lemma_not_prefix(s, tok(Method::Put), 0);
        },
        Method::Connect => {
            lemma_not_prefix(s, tok(Method::Get), 0);
            lemma_not_prefix(s, tok(Method::Head), 0);
            lemma_not_prefix(s, tok(Method::Post), 0);
            lemma_not_prefix(s, tok(Method::Put), 0);
            lemma_not_prefix(s, tok(Method::Delete), 0);
        },
        Method::Options => {
            lemma_not_prefix(s, tok(Method::Get), 0);
            lemma_not_prefix(s, tok(Method::Head), 0);
            lemma_not_prefix(s, tok(Method::Post), 0);
            lemma_not_prefix(s, tok(Method::Put), 0);
            lemma_not_prefix(s, tok(Method::Delete), 0);
            lemma_not_prefix(s, tok(Method::Connect), 0);
        },
        Method::Trace => {
            lemma_not_prefix(s, tok(Method::Get), 0);
            lemma_not_prefix(s, tok(Method::Head), 0);
            lemma_not_prefix(s, tok(Method::Post), 0);
            lemma_not_prefix(s, tok(Method::Put), 0);
            lemma_not_prefix(s, tok(Method::Delete), 0);
            lemma_not_prefix(s, tok(Method::Connect), 0);
            lemma_not_prefix(s, tok(Method::Options), 0);
        },
        Method::Patch => {
            lemma_not_prefix(s, tok(Method::Get), 0);
            lemma_not_prefix(s, tok(Method::Head), 0);
            lemma_not_prefix(s, tok(Method::Post), 1);
            lemma_not_prefix(s, tok(Method::Put), 1);
            lemma_not_prefix(s, tok(Method::Delete), 0);
            lemma_not_prefix(s, tok(Method::Connect), 0);
            lemma_not_prefix(s, tok(Method::Options), 0);
            lemma_not_prefix(s, tok(Method::Trace), 0);
        },
    }
}

/// A single rendered space parses back as the whitespace run.
proof fn lemma_parse_space_round(rest: Seq<u8>)
    requires
        rest.len() > 0,
        !is_space(rest[0]),
    ensures
        parse_space(seq![SP] + rest) == Ok::<int, ParseError>(1),
{
    assert(seq![SP][0] == SP);
    lemma_space_run_concat(seq![SP], rest);
}

/// A rendered literal parses back whole.
proof fn lemma_parse_lit_round(t: Seq<u8>, rest: Seq<u8>, e: ParseError)
    ensures
        parse_lit(t + rest, t, e) == Ok::<int, ParseError>(t.len() as int),
{
    assert((t + rest).subrange(0, t.len() as int) =~= t);
}

/// A rendered decimal byte parses back to its value.
proof fn lemma_parse_u8_round(n: u8, rest: Seq<u8>)
    requires
        rest.len() > 0,
        !is_digit(rest[0]),
    ensures
        parse_u8_num(dec_bytes(n as nat) + rest) == Ok::<(u8, int), ParseError>(
            (n, dec_bytes(n as nat).len() as int),
        ),
{
    let d = dec_bytes(n as nat);
    lemma_dec_bytes_digits(n as nat);
    lemma_digit_run_concat(d, rest);
    lemma_digits_value_dec_bytes(n as nat);
    assert((d + rest).subrange(0, d.len() as int) =~= d);
}

/// A rendered version parses back to its fields.
proof fn lemma_parse_version_round(v: Version, rest: Seq<u8>)
    requires
        rest.len() > 0,
        !is_digit(rest[0]),
    ensures
        parse_version(wire_version(v) + rest) == Ok::<(Version, int), ParseError>(
            (v, wire_version(v).len() as int),
        ),
{
    let d1 = dec_bytes(v.major as nat);
    let d2 = dec_bytes(v.minor as nat);
    let s = wire_version(v) + rest;
    let dot = seq![crate::wire::DOT];
    assert(s =~= lit_http() + (d1 + (dot + (d2 + rest))));
    lemma_parse_lit_round(lit_http(), d1 + (dot + (d2 + rest)), ParseError::BadRequestLine);
    assert(s.subrange(0, lit_http().len() as int) =~= (lit_http() + (d1 + (dot + (d2
        + rest)))).subrange(0, lit_http().len() as int));
    assert(s.skip(5) =~= d1 + (dot + (d2 + rest)));
    lemma_dec_bytes_digits(v.major as nat);
    assert((dot + (d2 + rest))[0] == crate::wire::DOT);
    lemma_parse_u8_round(v.major, dot + (d2 + rest));
    let b = d1.len() as int;
    assert(s.skip(5 + b) =~= dot + (d2 + rest));
    assert(dot =~= seq![46u8]);
    lemma_parse_lit_round(seq![46u8], d2 + rest, ParseError::BadVersion);
    assert(s.skip(5 + b + 1) =~= d2 + rest);
    lemma_parse_u8_round(v.minor, rest);
    assert(wire_version(v).len() == 5 + b + 1 + d2.len());
}

/// A rendered request line parses back to its parts.
#[verifier::rlimit(100)]
proof fn lemma_parse_request_line_round(m: Method, path: Seq<u8>, v: Version, rest: Seq<u8>)
    requires
        path.len() > 0,
        forall|i: int| 0 <= i < path.len() ==> !is_whitespace(#[trigger] path[i]),
    ensures
        ({
            let line = tok(m) + seq![SP] + path + seq![SP] + wire_version(v) + crlf();
            parse_request_line(line + rest) == Ok::<((Method, Seq<u8>, Version), int), ParseError>(
                ((m, path, v), line.len() as int),
            )
        }),
{
    let line = tok(m) + seq![SP] + path + seq![SP] + wire_version(v) + crlf();
    let s = line + rest;
    let a = tok(m).len() as int;
    let sp = seq![SP];
    let after_m = sp + (path + (sp + (wire_version(v) + (crlf() + rest))));
    assert(s =~= tok(m) + after_m);
    lemma_parse_method_round(m, after_m);
    assert(s.skip(a) =~= after_m);
    // first space: the path begins with a non-space byte
    assert(path[0] != SP && path[0] != crate::wire::HT);
    lemma_parse_space_round(path + (sp + (wire_version(v) + (crlf() + rest))));
    assert(parse_space(after_m) == Ok::<int, ParseError>(1));
    // path: ends at the following space
    assert(s.skip(a + 1) =~= path + (sp + (wire_version(v) + (crlf() + rest))));
    lemma_path_run_concat(path, sp + (wire_version(v) + (crlf() + rest)));
    assert(crate::wire::path_run(s.skip(a + 1)) == path.len());
    let p = path.len() as int;
    assert(s.subrange(a + 1, a + 1 + p) =~= path);
    // second space: the version begins with `H`
    assert(s.skip(a + 1 + p) =~= sp + (wire_version(v) + (crlf() + rest)));
    assert((wire_version(v) + (crlf() + rest))[0] == 72u8);
    lemma_parse_space_round(wire_version(v) + (crlf() + rest));
    // version: terminated by the CR of the line ending
    assert(s.skip(a + 1 + p + 1) =~= wire_version(v) + (crlf() + rest));
    assert((crlf() + rest)[0] == CR);
    lemma_parse_version_round(v, crlf() + rest);
    let d = wire_version(v).len() as int;
    // line ending
    assert(s.skip(a + 1 + p + 1 + d) =~= crlf() + rest);
    lemma_parse_lit_round(crlf(), rest, ParseError::BadRequestLine);
    assert(line.len() == a + 1 + p + 1 + d + 2);
}

/// A rendered header block followed by a blank line parses back to the
/// pairs, appended to the accumulator in order.
#[verifier::rlimit(100)]
proof fn lemma_parse_headers_round(
    pairs: Seq<(Seq<u8>, Seq<u8>)>,
    acc: Seq<(Seq<u8>, Seq<u8>)>,
    tail: Seq<u8>,
)
    requires
        sorted_keys(pairs),
        forall|i: int| 0 <= i < pairs.len() ==> valid_header_pair(#[trigger] pairs[i]),
        forall|i: int, j: int|
            0 <= i < acc.len() && 0 <= j < pairs.len() ==> lex_lt(
                (#[trigger] acc[i]).0,
                (#[trigger] pairs[j]).0,
            ),
        tail.len() >= 2,
        tail[0] == CR,
        tail[1] == LF,
    ensures
        parse_headers(wire_headers(pairs) + tail, acc) == Ok::<
            (Seq<(Seq<u8>, Seq<u8>)>, int),
            ParseError,
        >((acc + pairs, wire_headers(pairs).len() as int + 2)),
    decreases pairs.len(),
{
    if pairs.len() == 0 {
        assert(wire_headers(pairs) + tail =~= tail);
        assert(acc + pairs =~= acc);
    } else {
        let k = pairs[0].0;
        let v = pairs[0].1;
        let rest_p = pairs.skip(1);
        let rest_w = wire_headers(rest_p) + tail;
        let s = wire_headers(pairs) + tail;
        let cs = seq![COLON, SP];
        assert(wire_headers(pairs) == header_line(k, v) + wire_headers(rest_p));
        assert(s =~= k + (cs + (v + (crlf() + rest_w))));
        let n = k.len() as int;
        // the name run covers exactly the name
        assert((cs + (v + (crlf() + rest_w)))[0] == COLON);
        assert(!is_header_key(COLON));
        lemma_name_run_concat(k, cs + (v + (crlf() + rest_w)));
        assert(crate::wire::name_run(s) == n);
        // the head byte is a name byte, not a CR
        assert(s[0] == k[0]);
        assert(is_header_key(k[0]));
        assert(s[0] != CR);
        // separator
        assert(s[n] == COLON);
        assert(s[n + 1] == SP);
        // value: up to the first CRLF, which sits at the seam
        assert(s.skip(n + 2) =~= v + (crlf() + rest_w));
        assert((crlf() + rest_w).len() >= 2);
        assert((crlf() + rest_w)[0] == CR);
        assert((crlf() + rest_w)[1] == LF);
        lemma_find_crlf_concat(v, crlf() + rest_w);
        let kk = v.len() as int;
        assert(s.subrange(0, n) =~= k);
        assert(lower_bytes(s.subrange(0, n)) == k);
        assert(s.subrange(n + 2, n + 2 + kk) =~= v);
        // the new accumulator: an append, since every held key is smaller
        assert forall|i: int| 0 <= i < acc.len() implies lex_lt((#[trigger] acc[i]).0, k) by {}
        lemma_insert_pair_append(acc, k, v);
        let acc2 = acc.push((k, v));
        // conditions of the induction step
        assert forall|i: int, j: int| 0 <= i < j < rest_p.len() implies lex_lt(
            (#[trigger] rest_p[i]).0,
            (#[trigger] rest_p[j]).0,
        ) by {
            assert(rest_p[i] == pairs[i + 1]);
            assert(rest_p[j] == pairs[j + 1]);
        }
        assert forall|i: int| 0 <= i < rest_p.len() implies valid_header_pair(
            #[trigger] rest_p[i],
        ) by {
            assert(rest_p[i] == pairs[i + 1]);
        }
        assert forall|i: int, j: int| 0 <= i < acc2.len() && 0 <= j < rest_p.len() implies lex_lt(
            (#[trigger] acc2[i]).0,
            (#[trigger] rest_p[j]).0,
        ) by {
            assert(rest_p[j] == pairs[j + 1]);
            if i < acc.len() {
                assert(acc2[i] == acc[i]);
            } else {
                assert(acc2[i] == (k, v));
                assert(lex_lt(pairs[0].0, pairs[j + 1].0));
            }
        }
        lemma_parse_headers_round(rest_p, acc2, tail);
        assert(s.skip(n + 2 + kk + 2) =~= rest_w);
        assert(acc2 + rest_p =~= acc + pairs);
        assert(wire_headers(pairs).len() as int == n + 2 + kk + 2 + wire_headers(rest_p).len());
    }
}

// --- the laws ----------------------------------------------------------------

/// Round trip of the request wire grammar: every renderable request model,
/// written out canonically, parses back to exactly itself. Excluded inputs
/// are those the grammar cannot carry: an empty path, a path with
/// whitespace, header names not lower-cased or with foreign bytes, header
/// values holding a CRLF, and an empty (rather than absent) body.
#[verifier::rlimit(100)]
pub proof fn lemma_parse_render_roundtrip(m: ReqModel)
    requires
        renderable(m),
    ensures
        spec_parse_request(render_request(m)) == Ok::<ReqModel, ParseError>(m),
{
    let s = render_request(m);
    let line = tok(m.method) + seq![SP] + m.path + seq![SP] + wire_version(m.version) + crlf();
    let bodyseq = match m.body {
        Some(b) => b,
        None => Seq::<u8>::empty(),
    };
    let hb = wire_headers(m.headers) + (crlf() + bodyseq);
    assert(s =~= line + hb);
    lemma_parse_request_line_round(m.method, m.path, m.version, hb);
    let a = line.len() as int;
    assert(s.skip(a) =~= hb);
    let tail = crlf() + bodyseq;
    assert(tail[0] == CR);
    assert(tail[1] == LF);
    lemma_parse_headers_round(m.headers, Seq::empty(), tail);
    assert(Seq::empty() + m.headers =~= m.headers);
    let b = wire_headers(m.headers).len() as int + 2;
    assert(s.skip(a + b) =~= bodyseq);
    match m.body {
        Some(bb) => {
            assert(bb.len() > 0);
        },
        None => {},
    }
}

/// Last write wins: inserting the same header name twice keeps only the
/// second value, exactly once.
pub proof fn lemma_header_overwrite(
    h: Seq<(Seq<u8>, Seq<u8>)>,
    k: Seq<u8>,
    v1: Seq<u8>,
    v2: Seq<u8>,
)
    ensures
        insert_pair(insert_pair(h, k, v1), k, v2) == insert_pair(h, k, v2),
    decreases h.len(),
{
    lemma_lex_irrefl(k);
    if h.len() == 0 {
        let r1 = seq![(k, v1)];
        assert(insert_pair(r1, k, v2) =~= seq![(k, v2)]);
    } else if lex_lt(k, h[0].0) {
        let r1 = seq![(k, v1)] + h;
        assert(r1[0] == (k, v1));
        assert(insert_pair(r1, k, v2) =~= seq![(k, v2)] + r1.skip(1));
        assert(r1.skip(1) =~= h);
    } else if k == h[0].0 {
        let r1 = seq![(k, v1)] + h.skip(1);
        assert(r1[0] == (k, v1));
        assert(insert_pair(r1, k, v2) =~= seq![(k, v2)] + r1.skip(1));
        assert(r1.skip(1) =~= h.skip(1));
    } else {
        lemma_header_overwrite(h.skip(1), k, v1, v2);
        let r1 = seq![h[0]] + insert_pair(h.skip(1), k, v1);
        assert(r1[0] == h[0]);
        assert(r1.skip(1) =~= insert_pair(h.skip(1), k, v1));
        assert(insert_pair(r1, k, v2) =~= seq![h[0]] + insert_pair(
            insert_pair(h.skip(1), k, v1),
            k,
            v2,
        ));
    }
}

/// Case folding: two spellings of a header name that fold to the same
/// lower-cased key reach the same entry, both when inserting at parse time
/// and when looking up.
pub proof fn lemma_case_fold(h: Seq<(Seq<u8>, Seq<u8>)>, n1: Seq<u8>, n2: Seq<u8>, v: Seq<u8>)
    requires
        lower_bytes(n1) == lower_bytes(n2),
    ensures
        insert_pair(h, lower_bytes(n1), v) == insert_pair(h, lower_bytes(n2), v),
        lookup(h, lower_bytes(n1)) == lookup(h, lower_bytes(n2)),
{
}

/// Serialization is deterministic: the wire form is a function of the
/// response value alone, so two serializations of the same value are
/// byte-identical.
pub proof fn lemma_serialize_deterministic(r: RespModel, b1: Seq<u8>, b2: Seq<u8>)
    requires
        b1 == wire_response(r),
        b2 == wire_response(r),
    ensures
        b1 == b2,
{
}

/// The body boundary: a parsed request never holds an empty body. A blank
/// line with nothing after it parses to an absent body; any trailing byte
/// makes the body present.
pub proof fn lemma_body_boundary(s: Seq<u8>, m: ReqModel)
    requires
        spec_parse_request(s) == Ok::<ReqModel, ParseError>(m),
    ensures
        m.body matches Some(b) ==> b.len() > 0,
{
    match parse_request_line(s) {
        Err(e) => {},
        Ok(((mm, path, ver), a)) => {
            match parse_headers(s.skip(a), Seq::empty()) {
                Err(e) => {},
                Ok((hs, b)) => {},
            }
        },
    }
}

/// The header block of a parsed request is always a canonical mapping:
/// keys strictly sorted, hence unique.
pub proof fn lemma_parsed_headers_sorted(s: Seq<u8>, m: ReqModel)
    requires
        spec_parse_request(s) == Ok::<ReqModel, ParseError>(m),
    ensures
        sorted_keys(m.headers),
{
    match parse_request_line(s) {
        Err(e) => {},
        Ok(((mm, path, ver), a)) => {
            lemma_parse_headers_sorted_from(s.skip(a), Seq::empty());
        },
    }
}

/// Parsing header lines from a sorted accumulator yields a sorted mapping.
proof fn lemma_parse_headers_sorted_from(s: Seq<u8>, acc: Seq<(Seq<u8>, Seq<u8>)>)
    requires
        sorted_keys(acc),
    ensures
        parse_headers(s, acc) matches Ok(p) ==> sorted_keys(p.0),
    decreases s.len(),
{
    if s.len() == 0 {
    } else if s[0] == CR {
    } else {
        crate::wire::lemma_name_run_bounds(s);
        let n = crate::wire::name_run(s);
        if 0 < n && n + 1 < s.len() && s[n] == COLON && s[n + 1] == SP {
            match crate::wire::find_crlf(s.skip(n + 2)) {
                None => {},
                Some(k) => {
                    crate::wire::lemma_find_crlf_some(s.skip(n + 2), k);
                    let key = lower_bytes(s.subrange(0, n));
                    let val = s.subrange(n + 2, n + 2 + k);
                    crate::headers::lemma_insert_pair_sorted(acc, key, val);
                    lemma_parse_headers_sorted_from(
                        s.skip(n + 2 + k + 2),
                        insert_pair(acc, key, val),
                    );
                },
            }
        }
    }
}

/// After an insert the inserted key holds the new value and every other
/// key is untouched: the shape `with_header` leaves a response in.
pub proof fn lemma_insert_lookup(h: Seq<(Seq<u8>, Seq<u8>)>, k: Seq<u8>, v: Seq<u8>, q: Seq<u8>)
    ensures
        lookup(insert_pair(h, k, v), k) == Some(v),
        q != k ==> lookup(insert_pair(h, k, v), q) == lookup(h, q),
{
    lemma_lookup_insert_same(h, k, v);
    if q != k {
        lemma_lookup_insert_other(h, k, v, q);
    }
}

} // verus!
