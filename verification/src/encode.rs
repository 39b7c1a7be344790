//! Request encoding: the request line, headers in insertion order, the
//! framing header the body kind calls for, a blank line, then the body.
//! A known-length body travels literally under a Content-Length header; a
//! body of unknown length is declared chunked and framed by the chunked
//! codec as the caller supplies it.

use vstd::prelude::*;
use vstd::arithmetic::div_mod::lemma_div_decreases;

use crate::decode::{chunked_vec, cl_name, cl_name_vec, te_name, te_name_vec, chunked_token};
use crate::headers::{fields_of, HeaderField};
use crate::{push_all, CR, LF};

verus! {

/// The body of an outgoing request.
pub enum RequestBody {
    /// A body of known length, sent literally byte-for-byte.
    Fixed(Vec<u8>),
    /// A body of unknown length, to be framed by the chunked codec as the
    /// caller feeds it.
    Streamed,
}

/// An outgoing request: method, target, headers in insertion order, body.
/// Never mutated by encoding.
pub struct Request {
    pub method: Vec<u8>,
    pub target: Vec<u8>,
    pub headers: Vec<HeaderField>,
    pub body: RequestBody,
}

/// The minimal decimal representation of `n`.
pub open spec fn dec_rep(n: nat) -> Seq<u8>
    decreases n,
{
    if n < 10 {
        seq![(48 + n) as u8]
    } else {
        dec_rep(n / 10).push((48 + (n % 10)) as u8)
    }
}

/// `METHOD SP target SP HTTP/1.1 CRLF`.
pub open spec fn request_line(method: Seq<u8>, target: Seq<u8>) -> Seq<u8> {
    method + seq![32u8] + target + seq![
        32u8, 72u8, 84u8, 84u8, 80u8, 47u8, 49u8, 46u8, 49u8, 13u8, 10u8,
    ]
}

/// `name: value CRLF`.
pub open spec fn header_line_bytes(name: Seq<u8>, value: Seq<u8>) -> Seq<u8> {
    name + seq![58u8, 32u8] + value + seq![13u8, 10u8]
}

/// All header lines, in order.
pub open spec fn header_block_bytes(fields: Seq<(Seq<u8>, Seq<u8>)>) -> Seq<u8>
    decreases fields.len(),
{
    if fields.len() == 0 {
        Seq::empty()
    } else {
        header_block_bytes(fields.drop_last()) + header_line_bytes(
            fields.last().0,
            fields.last().1,
        )
    }
}

/// The framing header the body kind requires: a Content-Length carrying
/// the known length, or `Transfer-Encoding: chunked`.
pub open spec fn framing_header_bytes(body: RequestBody) -> Seq<u8> {
    match body {
        RequestBody::Fixed(b) => header_line_bytes(cl_name(), dec_rep(b@.len())),
        RequestBody::Streamed => header_line_bytes(te_name(), chunked_token()),
    }
}

/// The whole head: request line, headers, framing header, blank line.
pub open spec fn spec_encode_head(req: Request) -> Seq<u8> {
    request_line(req.method@, req.target@) + header_block_bytes(fields_of(req.headers@))
        + framing_header_bytes(req.body) + seq![13u8, 10u8]
}

/// The whole message as far as the encoder owns it: the head, then a
/// known-length body literally. A streamed body follows separately,
/// chunk-coded.
pub open spec fn spec_encode_request(req: Request) -> Seq<u8> {
    spec_encode_head(req) + match req.body {
        RequestBody::Fixed(b) => b@,
        RequestBody::Streamed => Seq::<u8>::empty(),
    }
}

/// The minimal decimal bytes of `n`.
pub fn dec_bytes(n: usize) -> (r: Vec<u8>)
    ensures
        r@ == dec_rep(n as nat),
    decreases n,
{
    if n < 10 {
        let mut v: Vec<u8> = Vec::new();
        v.push(48 + (n as u8));
        proof {
            assert(v@ =~= dec_rep(n as nat));
        }
        v
    } else {
        proof {
            lemma_div_decreases(n as int, 10);
        }
        let mut v = dec_bytes(n / 10);
        v.push(48 + ((n % 10) as u8));
        proof {
            assert((n as nat) / 10 == (n / 10) as nat);
        }
        v
    }
}

/// Appends `name: value CRLF`.
fn push_header_line(out: &mut Vec<u8>, name: &Vec<u8>, value: &Vec<u8>)
    ensures
        final(out)@ == old(out)@ + header_line_bytes(name@, value@),
{
    push_all(out, name);
    out.push(58);
    out.push(32);
    push_all(out, value);
    out.push(CR);
    out.push(LF);
    proof {
        assert(out@ =~= old(out)@ + header_line_bytes(name@, value@));
    }
}

/// Renders the head of `req`: request line, its headers in insertion
/// order, the framing header, and the final blank line. The request is
/// only read, never changed.
pub fn encode_request_head(req: &Request) -> (r: Vec<u8>)
    ensures
        r@ == spec_encode_head(*req),
{
    let mut out: Vec<u8> = Vec::new();
    push_all(&mut out, &req.method);
    out.push(32);
    push_all(&mut out, &req.target);
    out.push(32);
    out.push(72);
    out.push(84);
    out.push(84);
    out.push(80);
    out.push(47);
    out.push(49);
    out.push(46);
    out.push(49);
    out.push(CR);
    out.push(LF);
    proof {
        assert(out@ =~= request_line(req.method@, req.target@));
    }
    let ghost rl = request_line(req.method@, req.target@);
    let mut i: usize = 0;
    while i < req.headers.len()
        invariant
            i <= req.headers@.len(),
            rl == request_line(req.method@, req.target@),
            out@ == rl + header_block_bytes(fields_of(req.headers@.take(i as int))),
        decreases req.headers@.len() - i,
    {
        let h = &req.headers[i];
        push_header_line(&mut out, &h.name, &h.value);
        i = i + 1;
        proof {
            let fs1 = fields_of(req.headers@.take(i as int));
            assert(fs1.drop_last() =~= fields_of(req.headers@.take(i - 1)));
            assert(fs1.last() == (req.headers@[i - 1].name@, req.headers@[i - 1].value@));
            assert(out@ =~= rl + header_block_bytes(fs1));
        }
    }
    proof {
        assert(req.headers@.take(req.headers@.len() as int) =~= req.headers@);
    }
    match &req.body {
        RequestBody::Fixed(b) => {
            let name = cl_name_vec();
            let value = dec_bytes(b.len());
            push_header_line(&mut out, &name, &value);
        },
        RequestBody::Streamed => {
            let name = te_name_vec();
            let value = chunked_vec();
            push_header_line(&mut out, &name, &value);
        },
    }
    out.push(CR);
    out.push(LF);
    proof {
        assert(out@ =~= spec_encode_head(*req));
    }
    out
}

/// Renders the whole message the encoder owns: the head, then a
/// known-length body byte-for-byte, unpadded and untruncated. For a
/// streamed body only the head is rendered; its chunks follow through the
/// chunked codec.
pub fn encode_request(req: &Request) -> (r: Vec<u8>)
    ensures
        r@ == spec_encode_request(*req),
{
    let mut out = encode_request_head(req);
    match &req.body {
        RequestBody::Fixed(b) => {
            push_all(&mut out, b);
        },
        RequestBody::Streamed => {
            proof {
                assert(out@ + Seq::<u8>::empty() =~= out@);
            }
        },
    }
    out
}

/// A cursor over the encoded message: bytes come out incrementally, in
/// order, each byte exactly once.
pub struct Encoder {
    pub buf: Vec<u8>,
    pub pos: usize,
}

impl Encoder {
    /// The cursor never passes the end.
    pub open spec fn wf(self) -> bool {
        self.pos <= self.buf@.len()
    }

    /// What is still to be written.
    pub open spec fn remaining(self) -> Seq<u8> {
        self.buf@.skip(self.pos as int)
    }

    /// An encoder positioned at the start of the encoded request.
    pub fn new(req: &Request) -> (r: Encoder)
        ensures
            r.wf(),
            r.buf@ == spec_encode_request(*req),
            r.pos == 0,
    {
        Encoder { buf: encode_request(req), pos: 0 }
    }

    /// Yields the next `max` bytes at most; an empty result means the
    /// message is fully written.
    pub fn read(&mut self, max: usize) -> (r: Vec<u8>)
        requires
            old(self).wf(),
        ensures
            final(self).wf(),
            final(self).buf@ == old(self).buf@,
            ({
                let k = if max as int <= old(self).buf@.len() - old(self).pos {
                    max as int
                } else {
                    old(self).buf@.len() - old(self).pos
                };
                r@ == old(self).buf@.subrange(old(self).pos as int, old(self).pos + k)
                    && final(self).pos == old(self).pos + k
            }),
    {
        let avail = self.buf.len() - self.pos;
        let k = if max <= avail {
            max
        } else {
            avail
        };
        let r = crate::headers::subvec(&self.buf, self.pos, self.pos + k);
        self.pos = self.pos + k;
        r
    }
}

} // verus!
