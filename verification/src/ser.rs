//! Serialization to exact wire bytes. The trait promises that `to_bytes`
//! returns precisely the value's wire form, so serializing the same value
//! twice is byte-identical by contract.

use vstd::prelude::*;

use crate::http::{dot_vec, lit_http_vec, Response, Status, StatusLine, Version};
use crate::render::{
    lemma_wire_headers_push, reason_of, wire_headers, wire_response, wire_status_line,
    wire_version,
};
use crate::wire::{dec_u64_vec, push_bytes, COLON, CR, LF, SP};

verus! {

/// Types with an exact wire form.
pub trait Serialize {
    /// The wire bytes this value serializes to: a pure function of the
    /// value, so the output is deterministic.
    spec fn wire(&self) -> Seq<u8>;

    /// Serialize to owned bytes, exactly the wire form.
    fn to_bytes(&self) -> (r: Vec<u8>)
        ensures
            r@ == self.wire(),
    ;
}

/// The fixed reason phrase of a status, as owned bytes.
fn reason_vec(s: &Status) -> (v: Vec<u8>)
    ensures
        v@ == reason_of(*s),
{
    let mut v: Vec<u8> = Vec::new();
    match s {
        Status::Okay => {
            v.push(79);
            v.push(75);
        },
        Status::Created => {
            v.push(67);
            v.push(114);
            v.push(101);
            v.push(97);
            v.push(116);
            v.push(101);
            v.push(100);
        },
        Status::BadRequest => {
            v.push(66);
            v.push(97);
            v.push(100);
            v.push(32);
            v.push(82);
            v.push(101);
            v.push(113);
            v.push(117);
            v.push(101);
            v.push(115);
            v.push(116);
        },
        Status::NotFound => {
            v.push(78);
            v.push(79);
            v.push(84);
            v.push(32);
            v.push(70);
            v.push(79);
            v.push(85);
            v.push(78);
            v.push(68);
        },
        Status::Internal => {
            v.push(73);
            v.push(110);
            v.push(116);
            v.push(101);
            v.push(114);
            v.push(110);
            v.push(97);
            v.push(108);
            v.push(32);
            v.push(83);
            v.push(101);
            v.push(114);
            v.push(118);
            v.push(101);
            v.push(114);
            v.push(32);
            v.push(69);
            v.push(114);
            v.push(114);
            v.push(111);
            v.push(114);
        },
    }
    proof {
        assert(v@ =~= reason_of(*s));
    }
    v
}

impl Serialize for Version {
    /// `HTTP/<major>.<minor>`.
    open spec fn wire(&self) -> Seq<u8> {
        wire_version(*self)
    }

    fn to_bytes(&self) -> (r: Vec<u8>) {
        let mut v = lit_http_vec();
        let mut d1 = dec_u64_vec(self.major as u64);
        v.append(&mut d1);
        let mut dot = dot_vec();
        v.append(&mut dot);
        let mut d2 = dec_u64_vec(self.minor as u64);
        v.append(&mut d2);
        proof {
            assert(v@ =~= wire_version(*self));
        }
        v
    }
}

impl Serialize for StatusLine {
    /// `HTTP/x.y <code> <reason>` and the terminating CRLF.
    open spec fn wire(&self) -> Seq<u8> {
        wire_status_line(*self)
    }

    fn to_bytes(&self) -> (r: Vec<u8>) {
        let mut v = self.version.to_bytes();
        v.push(SP);
        let code = self.status.code();
        let mut cb = dec_u64_vec(code as u64);
        v.append(&mut cb);
        v.push(SP);
        let mut rb = reason_vec(&self.status);
        v.append(&mut rb);
        v.push(CR);
        v.push(LF);
        proof {
            assert(v@ =~= wire_status_line(*self));
        }
        v
    }
}

impl Serialize for Response {
    /// Status line, header block sorted by name, the unconditional blank
    /// line, then the raw body bytes if any.
    open spec fn wire(&self) -> Seq<u8> {
        wire_response(self@)
    }

    fn to_bytes(&self) -> (r: Vec<u8>) {
        let mut out = self.status_line.to_bytes();
        let ghost head = wire_status_line(self.status_line);
        let count = self.headers.len();
        let mut i: usize = 0;
        proof {
            assert(self@.headers.subrange(0, 0) =~= Seq::<(Seq<u8>, Seq<u8>)>::empty());
            assert(out@ =~= head + wire_headers(self@.headers.subrange(0, 0)));
        }
        while i < count
            invariant
                i <= count,
                count == self@.headers.len(),
                head == wire_status_line(self.status_line),
                out@ == head + wire_headers(self@.headers.subrange(0, i as int)),
            decreases count - i,
        {
            let (k, v) = self.headers.pair_at(i);
            push_bytes(&mut out, k.as_slice());
            out.push(COLON);
            out.push(SP);
            push_bytes(&mut out, v.as_slice());
            out.push(CR);
            out.push(LF);
            proof {
                let pre = self@.headers.subrange(0, i as int);
                let post = self@.headers.subrange(0, i as int + 1);
                assert(post =~= pre.push(self@.headers[i as int]));
                lemma_wire_headers_push(
                    pre,
                    self@.headers[i as int].0,
                    self@.headers[i as int].1,
                );
                assert(out@ =~= head + wire_headers(post));
            }
            i = i + 1;
        }
        proof {
            assert(self@.headers.subrange(0, count as int) =~= self@.headers);
        }
        out.push(CR);
        out.push(LF);
        match &self.body {
            Some(b) => {
                push_bytes(&mut out, b.as_slice());
            },
            None => {},
        }
        proof {
            assert(out@ =~= wire_response(self@));
        }
        out
    }
}

} // verus!
