//! Body streams. One reader value wraps exactly one of: a chunked-decoding
//! stream, a length-bounded stream, a close-delimited stream, or an empty
//! stream, all behind one read capability. Parse errors are sticky: once a
//! stream fails, every later read returns the same error.

use vstd::prelude::*;

use crate::chunked::{spec_decode_chunked, parse_size_line, ChunkedParse};
use crate::decode::{
    decode_head, framing_of, spec_decode_head, spec_framing, Framing, HeadParse, ResponseHead,
    MAX_HEAD_BYTES,
};
use crate::error::HttpError;
use crate::headers::{fields_of, parse_fields, spec_parse_fields, FieldsParse, HeaderField};
use crate::{find_crlf, lemma_first_crlf_shift, lemma_no_crlf_shift, CR, LF};

verus! {

/// The decode-direction state of the chunked codec.
#[derive(Clone, Copy, Debug)]
pub enum ChunkState {
    /// Reading a chunk-size line up to CRLF.
    ReadingSize,
    /// Delivering the current chunk's data; `remaining` bytes still owed.
    ReadingChunkData { remaining: usize },
    /// Consuming the CRLF after a chunk's data.
    ReadingChunkTerminator,
    /// Consuming trailer header lines up to a blank line.
    ReadingTrailerHeaders,
    /// The zero chunk and trailers are consumed; reads return end-of-stream
    /// permanently.
    Done,
    /// A failure happened; every later read returns the same error.
    Errored { err: HttpError },
}

/// What one read call yields: some bytes, or end-of-stream.
#[derive(Debug, PartialEq, Eq)]
pub enum ReadStep {
    /// Between 1 and the requested number of bytes.
    Data(Vec<u8>),
    /// The stream is finished; every later read repeats this.
    End,
}

/// Folds already-delivered data, already-parsed trailers, and consumed
/// bytes into a decode outcome.
pub open spec fn lift_chunk(
    pre: Seq<u8>,
    pre_tr: Seq<(Seq<u8>, Seq<u8>)>,
    off: int,
    p: ChunkedParse,
) -> ChunkedParse {
    match p {
        ChunkedParse::Complete { body, trailers, used } => ChunkedParse::Complete {
            body: pre + body,
            trailers: pre_tr + trailers,
            used: off + used,
        },
        other => other,
    }
}

/// Decoding the rest of a chunked body from mid-machine state `st`.
/// `ReadingSize` is the initial state; the others resume inside a chunk.
pub open spec fn spec_decode_from(st: ChunkState, s: Seq<u8>) -> ChunkedParse {
    match st {
        ChunkState::ReadingSize => spec_decode_chunked(s),
        ChunkState::ReadingChunkData { remaining } => if s.len() < remaining + 2 {
            ChunkedParse::Truncated
        } else if s[remaining as int] == CR && s[remaining + 1] == LF {
            lift_chunk(
                s.take(remaining as int),
                Seq::empty(),
                remaining + 2,
                spec_decode_chunked(s.skip(remaining + 2)),
            )
        } else {
            ChunkedParse::Bad { err: HttpError::MissingChunkTerminator }
        },
        ChunkState::ReadingChunkTerminator => if s.len() < 2 {
            ChunkedParse::Truncated
        } else if s[0] == CR && s[1] == LF {
            lift_chunk(Seq::empty(), Seq::empty(), 2, spec_decode_chunked(s.skip(2)))
        } else {
            ChunkedParse::Bad { err: HttpError::MissingChunkTerminator }
        },
        ChunkState::ReadingTrailerHeaders => match spec_parse_fields(s) {
            FieldsParse::Complete { fields, used } => ChunkedParse::Complete {
                body: Seq::empty(),
                trailers: fields,
                used,
            },
            FieldsParse::Truncated => ChunkedParse::Truncated,
            FieldsParse::Bad { err } => ChunkedParse::Bad { err },
        },
        ChunkState::Done => ChunkedParse::Complete {
            body: Seq::empty(),
            trailers: Seq::empty(),
            used: 0,
        },
        ChunkState::Errored { err } => ChunkedParse::Bad { err },
    }
}

/// The single body-stream capability, wrapping exactly one underlying
/// reader chosen by the framing decision.
pub enum BodyReader {
    /// No body: end-of-stream on the first read, no transport use.
    Empty,
    /// Exactly the bytes of `data[pos..limit]`; whatever lies beyond
    /// `limit` belongs to the next exchange and is never consumed.
    Fixed { data: Vec<u8>, pos: usize, limit: usize },
    /// Everything to the end of the transport data.
    Close { data: Vec<u8>, pos: usize },
    /// Chunked decoding of `input[pos..]`, begun at `start`. `produced`
    /// is the data delivered so far; `trailers` the trailer fields parsed
    /// so far.
    Chunked {
        input: Vec<u8>,
        pos: usize,
        state: ChunkState,
        trailers: Vec<HeaderField>,
        produced: Ghost<Seq<u8>>,
        start: Ghost<int>,
    },
}

impl BodyReader {
    /// Internal consistency: cursor bounds, and for a chunked stream the
    /// machine state composed with what was already delivered agrees with
    /// decoding the whole body region.
    pub open spec fn wf(self) -> bool {
        match self {
            BodyReader::Empty => true,
            BodyReader::Fixed { data, pos, limit } => pos <= limit <= data@.len(),
            BodyReader::Close { data, pos } => pos <= data@.len(),
            BodyReader::Chunked { input, pos, state, trailers, produced, start } => {
                &&& 0 <= start@ <= pos <= input@.len()
                &&& (state matches ChunkState::ReadingChunkData { remaining } ==> remaining >= 1)
                &&& match state {
                    ChunkState::Errored { err } => (spec_decode_chunked(input@.skip(start@))
                        == (ChunkedParse::Bad { err })) || (spec_decode_chunked(input@.skip(start@))
                        is Truncated && err == HttpError::UnexpectedEndOfData),
                    _ => lift_chunk(
                        produced@,
                        fields_of(trailers@),
                        pos - start@,
                        spec_decode_from(state, input@.skip(pos as int)),
                    ) == spec_decode_chunked(input@.skip(start@)),
                }
            },
        }
    }

    /// How much work can remain: an upper bound that every data-yielding
    /// read strictly lowers.
    pub open spec fn measure(self) -> int {
        match self {
            BodyReader::Empty => 0,
            BodyReader::Fixed { data, pos, limit } => limit - pos,
            BodyReader::Close { data, pos } => data@.len() - pos,
            BodyReader::Chunked { input, pos, .. } => input@.len() - pos,
        }
    }
}

/// Wraps the transport bytes (complete to end-of-data) at the body
/// boundary into the one stream the framing decision calls for. A
/// declared length larger than what the transport supplied is clamped
/// to the data present.
pub fn select_body(framing: Framing, data: Vec<u8>, body_start: usize) -> (r: BodyReader)
    requires
        body_start <= data@.len(),
    ensures
        r.wf(),
        match framing {
            Framing::Chunked => r matches BodyReader::Chunked {
                input,
                pos,
                state,
                trailers,
                produced,
                start,
            } && input@ == data@ && pos == body_start && state is ReadingSize && trailers@.len()
                == 0 && produced@ == Seq::<u8>::empty() && start@ == body_start,
            Framing::FixedLength { len } => r matches BodyReader::Fixed {
                data: d2,
                pos,
                limit,
            } && d2@ == data@ && pos == body_start && limit == (if body_start + len <= data@.len() {
                body_start + len as int
            } else {
                data@.len() as int
            }),
            Framing::NoBody => r == BodyReader::Empty,
            Framing::CloseDelimited => r matches BodyReader::Close { data: d2, pos } && d2@ == data@
                && pos == body_start,
        },
{
    match framing {
        Framing::Chunked => {
            let r = BodyReader::Chunked {
                input: data,
                pos: body_start,
                state: ChunkState::ReadingSize,
                trailers: Vec::new(),
                produced: Ghost(Seq::empty()),
                start: Ghost(body_start as int),
            };
            proof {
                let full = spec_decode_chunked(r->Chunked_input@.skip(body_start as int));
                match full {
                    ChunkedParse::Complete { body, trailers, used } => {
                        assert(Seq::<u8>::empty() + body =~= body);
                        assert(fields_of(Seq::<HeaderField>::empty()) =~= Seq::<(
                            Seq<u8>,
                            Seq<u8>,
                        )>::empty());
                        assert(Seq::<(Seq<u8>, Seq<u8>)>::empty() + trailers =~= trailers);
                    },
                    _ => {},
                }
            }
            r
        },
        Framing::FixedLength { len } => {
            let limit: usize = if len <= data.len() - body_start {
                body_start + len
            } else {
                data.len()
            };
            BodyReader::Fixed { data, pos: body_start, limit }
        },
        Framing::NoBody => BodyReader::Empty,
        Framing::CloseDelimited => BodyReader::Close { data, pos: body_start },
    }
}

impl BodyReader {
    /// Reads up to `max` bytes. `Data` carries at least one byte;
    /// `End` means the stream is finished and will stay finished. A parse
    /// failure is returned now and on every later read.
    pub fn read(&mut self, max: usize) -> (r: Result<ReadStep, HttpError>)
        requires
            old(self).wf(),
            max >= 1,
        ensures
            final(self).wf(),
            final(self).measure() <= old(self).measure(),
            r matches Ok(ReadStep::Data(d)) ==> final(self).measure() < old(self).measure(),
            match *old(self) {
                BodyReader::Empty => r == Ok::<ReadStep, HttpError>(ReadStep::End) && *final(self)
                    is Empty,
                BodyReader::Fixed { data, pos, limit } => (*final(self)) matches BodyReader::Fixed {
                    data: data2,
                    pos: pos2,
                    limit: limit2,
                } && data2@ == data@ && limit2 == limit && (if pos == limit {
                    r == Ok::<ReadStep, HttpError>(ReadStep::End) && pos2 == pos
                } else {
                    r matches Ok(ReadStep::Data(d)) && ({
                        let k = if max as int <= limit - pos {
                            max as int
                        } else {
                            limit - pos
                        };
                        d@ == data@.subrange(pos as int, pos + k) && pos2 == pos + k
                    })
                }),
                BodyReader::Close { data, pos } => (*final(self)) matches BodyReader::Close {
                    data: data2,
                    pos: pos2,
                } && data2@ == data@ && (if pos == data@.len() {
                    r == Ok::<ReadStep, HttpError>(ReadStep::End) && pos2 == pos
                } else {
                    r matches Ok(ReadStep::Data(d)) && ({
                        let k = if max as int <= data@.len() - pos {
                            max as int
                        } else {
                            data@.len() - pos
                        };
                        d@ == data@.subrange(pos as int, pos + k) && pos2 == pos + k
                    })
                }),
                BodyReader::Chunked { input, pos, state, trailers, produced, start } => (*final(self)) matches BodyReader::Chunked {
                    input: input2,
                    pos: pos2,
                    state: state2,
                    trailers: trailers2,
                    produced: produced2,
                    start: start2,
                } && input2@ == input@ && start2@ == start@ && pos2 >= pos && (match state {
                    ChunkState::Errored { err } => r == Err::<ReadStep, HttpError>(err) && pos2
                        == pos && state2 == state && produced2@ == produced@ && trailers2@
                        == trailers@,
                    ChunkState::Done => r == Ok::<ReadStep, HttpError>(ReadStep::End) && pos2 == pos
                        && state2 is Done && produced2@ == produced@ && trailers2@ == trailers@,
                    _ => match r {
                        Ok(ReadStep::Data(d)) => d@.len() >= 1 && d@.len() <= max && produced2@
                            == produced@ + d@ && pos2 > pos && trailers2@ == trailers@ && !(state2
                            is Done) && !(state2 is Errored),
                        Ok(ReadStep::End) => state2 is Done && produced2@ == produced@ && (
                        spec_decode_chunked(input@.skip(start@)) matches ChunkedParse::Complete {
                            body,
                            trailers: tr,
                            used,
                        } && body == produced@ && fields_of(trailers2@) == tr && pos2 == start@
                            + used),
                        Err(e) => state2 == (ChunkState::Errored { err: e }) && produced2@
                            == produced@ && trailers2@ == trailers@ && ((spec_decode_chunked(
                            input@.skip(start@),
                        ) is Truncated && e == HttpError::UnexpectedEndOfData)
                            || spec_decode_chunked(input@.skip(start@)) == (ChunkedParse::Bad {
                            err: e,
                        })),
                    },
                }),
            },
    {
        match self {
            BodyReader::Empty => Ok(ReadStep::End),
            BodyReader::Fixed { data, pos, limit } => {
                if *pos == *limit {
                    Ok(ReadStep::End)
                } else {
                    let avail = *limit - *pos;
                    let k = if max <= avail {
                        max
                    } else {
                        avail
                    };
                    let d = crate::headers::subvec(data, *pos, *pos + k);
                    *pos = *pos + k;
                    Ok(ReadStep::Data(d))
                }
            },
            BodyReader::Close { data, pos } => {
                let limit = data.len();
                if *pos == limit {
                    Ok(ReadStep::End)
                } else {
                    let avail = limit - *pos;
                    let k = if max <= avail {
                        max
                    } else {
                        avail
                    };
                    let d = crate::headers::subvec(data, *pos, *pos + k);
                    *pos = *pos + k;
                    Ok(ReadStep::Data(d))
                }
            },
            BodyReader::Chunked { input, pos, state, trailers, produced, start } => {
                match *state {
                    ChunkState::Errored { err } => Err(err),
                    ChunkState::Done => Ok(ReadStep::End),
                    _ => {
                        let stepped = chunked_read(
                            input,
                            *pos,
                            *state,
                            trailers,
                            max,
                            *produced,
                            *start,
                        );
                        *pos = stepped.0;
                        *state = stepped.1;
                        *produced = stepped.2;
                        stepped.3
                    },
                }
            },
        }
    }

    /// Drains the stream: reads until end-of-stream and returns everything
    /// delivered. For a fixed-length stream that is exactly the declared
    /// bytes; for a chunked stream exactly the decoded body, with the
    /// trailer fields retained on the reader.
    pub fn read_all(&mut self) -> (r: Result<Vec<u8>, HttpError>)
        requires
            old(self).wf(),
        ensures
            final(self).wf(),
            match *old(self) {
                BodyReader::Empty => r matches Ok(v) && v@ == Seq::<u8>::empty(),
                BodyReader::Fixed { data, pos, limit } => r matches Ok(v) && v@ == data@.subrange(
                    pos as int,
                    limit as int,
                ),
                BodyReader::Close { data, pos } => r matches Ok(v) && v@ == data@.subrange(
                    pos as int,
                    data@.len() as int,
                ),
                BodyReader::Chunked { input, pos, state, trailers, produced, start } => match state {
                    ChunkState::Errored { err } => r == Err::<Vec<u8>, HttpError>(err),
                    ChunkState::Done => r matches Ok(v) && v@ == Seq::<u8>::empty(),
                    _ => match spec_decode_chunked(input@.skip(start@)) {
                        ChunkedParse::Complete { body, trailers: tr, used } => r matches Ok(v)
                            && produced@ + v@ == body && ((*final(self)) matches BodyReader::Chunked {
                            trailers: trailers2,
                            ..
                        } && fields_of(trailers2@) == tr),
                        ChunkedParse::Truncated => r == Err::<Vec<u8>, HttpError>(
                            HttpError::UnexpectedEndOfData,
                        ),
                        ChunkedParse::Bad { err } => r == Err::<Vec<u8>, HttpError>(err),
                    },
                },
            },
    {
        match self {
            BodyReader::Chunked { state: ChunkState::Errored { err }, .. } => {
                return Err(*err);
            },
            BodyReader::Chunked { state: ChunkState::Done, .. } => {
                return Ok(Vec::new());
            },
            _ => {},
        }
        let mut out: Vec<u8> = Vec::new();
        loop
            invariant
                self.wf(),
                match *old(self) {
                    BodyReader::Empty => *self is Empty && out@ == Seq::<u8>::empty(),
                    BodyReader::Fixed { data, pos, limit } => (*self) matches BodyReader::Fixed {
                        data: d2,
                        pos: p2,
                        limit: l2,
                    } && d2@ == data@ && l2 == limit && pos <= p2 <= limit && out@ == data@.subrange(
                        pos as int,
                        p2 as int,
                    ),
                    BodyReader::Close { data, pos } => (*self) matches BodyReader::Close {
                        data: d2,
                        pos: p2,
                    } && d2@ == data@ && pos <= p2 <= data@.len() && out@ == data@.subrange(
                        pos as int,
                        p2 as int,
                    ),
                    BodyReader::Chunked { input, pos, state, trailers, produced, start } => (
                    *self) matches BodyReader::Chunked {
                        input: i2,
                        pos: p2,
                        state: s2,
                        trailers: t2,
                        produced: pr2,
                        start: st2,
                    } && i2@ == input@ && st2@ == start@ && p2 >= pos && !(state is Done) && !(state
                        is Errored) && !(s2 is Done) && !(s2 is Errored) && pr2@ == produced@ + out@
                        && t2@ == trailers@,
                },
            decreases self.measure(),
        {
            let ghost prev = *self;
            let ghost out0 = out@;
            match self.read(65536) {
                Ok(ReadStep::Data(d)) => {
                    crate::push_all(&mut out, &d);
                    proof {
                        match prev {
                            BodyReader::Fixed { data, pos: pp, limit } => {
                                match *old(self) {
                                    BodyReader::Fixed { pos: p0, .. } => {
                                        assert(data@.subrange(p0 as int, pp as int) + d@
                                            =~= data@.subrange(p0 as int, pp + d@.len()));
                                    },
                                    _ => {},
                                }
                            },
                            BodyReader::Close { data, pos: pp } => {
                                match *old(self) {
                                    BodyReader::Close { pos: p0, .. } => {
                                        assert(data@.subrange(p0 as int, pp as int) + d@
                                            =~= data@.subrange(p0 as int, pp + d@.len()));
                                    },
                                    _ => {},
                                }
                            },
                            BodyReader::Chunked { .. } => {
                                match *old(self) {
                                    BodyReader::Chunked { produced: pr0, .. } => {
                                        assert(pr0@ + (out0 + d@) =~= (pr0@ + out0) + d@);
                                    },
                                    _ => {},
                                }
                            },
                            BodyReader::Empty => {},
                        }
                    }
                },
                Ok(ReadStep::End) => {
                    return Ok(out);
                },
                Err(e) => {
                    return Err(e);
                },
            }
        }
    }

    /// The trailer fields a chunked stream has picked up so far (all of
    /// them once the stream has ended); nothing for the other streams.
    pub fn trailer_fields(&self) -> (r: Option<&Vec<HeaderField>>)
        ensures
            match *self {
                BodyReader::Chunked { trailers, .. } => r matches Some(v) && v@ == trailers@,
                _ => r is None,
            },
    {
        match self {
            BodyReader::Chunked { trailers, .. } => Some(trailers),
            _ => None,
        }
    }

    /// For a fixed-length stream: the bytes past the declared length,
    /// which belong to the next exchange and were never consumed.
    pub fn remainder(&self) -> (r: Option<Vec<u8>>)
        requires
            self.wf(),
        ensures
            match *self {
                BodyReader::Fixed { data, pos, limit } => r matches Some(v) && v@ == data@.subrange(
                    limit as int,
                    data@.len() as int,
                ),
                _ => r is None,
            },
    {
        match self {
            BodyReader::Fixed { data, pos, limit } => Some(
                crate::headers::subvec(data, *limit, data.len()),
            ),
            _ => None,
        }
    }
}

/// Merges the trailer fields a chunked stream has collected into the
/// response's header collection, after its own headers and in trailer
/// order. The status and reason are untouched; other streams add nothing.
pub fn merge_trailers(head: &mut ResponseHead, body: &BodyReader)
    ensures
        final(head).status == old(head).status,
        final(head).reason@ == old(head).reason@,
        match *body {
            BodyReader::Chunked { trailers, .. } => fields_of(final(head).headers@) == fields_of(
                old(head).headers@ + trailers@,
            ),
            _ => final(head).headers@ == old(head).headers@,
        },
{
    match body {
        BodyReader::Chunked { trailers, .. } => {
            let mut i: usize = 0;
            while i < trailers.len()
                invariant
                    i <= trailers@.len(),
                    head.status == old(head).status,
                    head.reason@ == old(head).reason@,
                    fields_of(head.headers@) == fields_of(
                        old(head).headers@ + trailers@.take(i as int),
                    ),
                decreases trailers@.len() - i,
            {
                let t = &trailers[i];
                let name = crate::headers::subvec(&t.name, 0, t.name.len());
                let value = crate::headers::subvec(&t.value, 0, t.value.len());
                let ghost hs0 = head.headers@;
                head.headers.push(HeaderField { name, value });
                i = i + 1;
                proof {
                    let hs1 = head.headers@;
                    let rhs = old(head).headers@ + trailers@.take(i as int);
                    let rhs0 = old(head).headers@ + trailers@.take(i - 1);
                    assert(t.name@.subrange(0, t.name@.len() as int) =~= t.name@);
                    assert(t.value@.subrange(0, t.value@.len() as int) =~= t.value@);
                    assert(fields_of(hs0).len() == hs0.len());
                    assert(fields_of(rhs0).len() == rhs0.len());
                    assert(hs1.len() == rhs.len());
                    assert forall|j: int| 0 <= j < hs1.len() implies fields_of(hs1)[j] == fields_of(
                        rhs,
                    )[j] by {
                        assert(fields_of(hs1)[j] == (hs1[j].name@, hs1[j].value@));
                        assert(fields_of(rhs)[j] == (rhs[j].name@, rhs[j].value@));
                        if j < hs1.len() - 1 {
                            assert(hs1[j] == hs0[j]);
                            assert(fields_of(hs0)[j] == (hs0[j].name@, hs0[j].value@));
                            assert(fields_of(rhs0)[j] == (rhs0[j].name@, rhs0[j].value@));
                            assert(rhs[j] == rhs0[j]);
                        } else {
                            assert(hs1[j].name@ == t.name@ && hs1[j].value@ == t.value@);
                            assert(rhs[j] == trailers@[i - 1]);
                        }
                    }
                    assert(fields_of(hs1) =~= fields_of(rhs));
                }
            }
            proof {
                assert(trailers@.take(trailers@.len() as int) =~= trailers@);
            }
        },
        _ => {},
    }
}

/// Decodes one full response held in `data`: parses the head, fixes the
/// framing, and wraps the rest of the transport bytes in the one body
/// stream that framing calls for. Never reads a body byte while parsing
/// the head. `head_request` says whether the exchange was HEAD-style.
pub fn decode_response(data: Vec<u8>, head_request: bool) -> (r: Result<
    (ResponseHead, BodyReader),
    HttpError,
>)
    ensures
        match r {
            Ok(p) => spec_decode_head(data@) matches HeadParse::Complete {
                status,
                reason,
                fields,
                used,
            } && p.0.status == status && p.0.reason@ == reason && fields_of(p.0.headers@) == fields
                && used <= MAX_HEAD_BYTES && p.1.wf() && (match spec_framing(
                status,
                fields,
                head_request,
            ) {
                Framing::Chunked => p.1 matches BodyReader::Chunked {
                    input,
                    pos,
                    state,
                    trailers,
                    produced,
                    start,
                } && input@ == data@ && pos == used && state is ReadingSize && trailers@.len() == 0
                    && produced@ == Seq::<u8>::empty() && start@ == used,
                Framing::FixedLength { len } => p.1 matches BodyReader::Fixed {
                    data: d2,
                    pos,
                    limit,
                } && d2@ == data@ && pos == used && limit == (if used + len <= data@.len() {
                    used + len as int
                } else {
                    data@.len() as int
                }),
                Framing::NoBody => p.1 == BodyReader::Empty,
                Framing::CloseDelimited => p.1 matches BodyReader::Close { data: d2, pos } && d2@
                    == data@ && pos == used,
            }),
            Err(e) => match spec_decode_head(data@) {
                HeadParse::Complete { used, .. } => used > MAX_HEAD_BYTES && e
                    == HttpError::HeaderBlockTooLarge,
                HeadParse::Truncated => (data@.len() < MAX_HEAD_BYTES && e
                    == HttpError::UnexpectedEndOfData) || (data@.len() >= MAX_HEAD_BYTES && e
                    == HttpError::HeaderBlockTooLarge),
                HeadParse::Bad { err } => e == err,
            },
        },
{
    proof {
        assert(data@.skip(0) =~= data@);
    }
    let (head, body_start) = match decode_head(&data, 0) {
        Err(e) => {
            return Err(e);
        },
        Ok(p) => p,
    };
    let framing = framing_of(&head, head_request);
    let body = select_body(framing, data, body_start);
    Ok((head, body))
}

/// Moves every field of `src` to the end of `dst`, in order.
fn append_fields(dst: &mut Vec<HeaderField>, src: Vec<HeaderField>)
    ensures
        final(dst)@ == old(dst)@ + src@,
{
    let ghost src0 = src@;
    let mut src = src;
    while src.len() > 0
        invariant
            dst@ + src@ == old(dst)@ + src0,
        decreases src@.len(),
    {
        let h = src.remove(0);
        dst.push(h);
        proof {
            assert(dst@ + src@ =~= old(dst)@ + src0);
        }
    }
    proof {
        assert(dst@ + src@ =~= dst@);
    }
}

/// One read of a chunked stream: runs the machine from `state0` at `pos0`
/// until it can deliver data, finish, or fail. Returns the new cursor,
/// state, delivered-so-far ghost total, and the read's result.
#[verifier::rlimit(100)]
#[verifier::spinoff_prover]
fn chunked_read(
    input: &Vec<u8>,
    pos0: usize,
    state0: ChunkState,
    trailers: &mut Vec<HeaderField>,
    max: usize,
    produced0: Ghost<Seq<u8>>,
    start: Ghost<int>,
) -> (r: (usize, ChunkState, Ghost<Seq<u8>>, Result<ReadStep, HttpError>))
    requires
        max >= 1,
        0 <= start@ <= pos0 <= input@.len(),
        !(state0 is Done),
        !(state0 is Errored),
        state0 matches ChunkState::ReadingChunkData { remaining } ==> remaining >= 1,
        lift_chunk(
            produced0@,
            fields_of(old(trailers)@),
            pos0 - start@,
            spec_decode_from(state0, input@.skip(pos0 as int)),
        ) == spec_decode_chunked(input@.skip(start@)),
    ensures
        start@ <= r.0 <= input@.len(),
        r.0 >= pos0,
        r.1 matches ChunkState::ReadingChunkData { remaining } ==> remaining >= 1,
        match r.1 {
            ChunkState::Errored { err } => (spec_decode_chunked(input@.skip(start@))
                == (ChunkedParse::Bad { err })) || (spec_decode_chunked(input@.skip(start@))
                is Truncated && err == HttpError::UnexpectedEndOfData),
            _ => lift_chunk(
                r.2@,
                fields_of(final(trailers)@),
                r.0 - start@,
                spec_decode_from(r.1, input@.skip(r.0 as int)),
            ) == spec_decode_chunked(input@.skip(start@)),
        },
        match r.3 {
            Ok(ReadStep::Data(d)) => d@.len() >= 1 && d@.len() <= max && r.2@ == produced0@ + d@
                && r.0 > pos0 && !(r.1 is Done) && !(r.1 is Errored)
                && final(trailers)@ == old(trailers)@,
            Ok(ReadStep::End) => r.1 is Done && r.2@ == produced0@
                && (spec_decode_chunked(input@.skip(start@)) matches ChunkedParse::Complete {
                    body,
                    trailers: tr,
                    used,
                } && body == produced0@ && fields_of(final(trailers)@) == tr && r.0 == start@
                    + used),
            Err(e) => r.1 == (ChunkState::Errored { err: e }) && r.2@ == produced0@
                && final(trailers)@ == old(trailers)@
                && ((spec_decode_chunked(input@.skip(start@)) is Truncated && e
                    == HttpError::UnexpectedEndOfData) || spec_decode_chunked(input@.skip(start@))
                    == (ChunkedParse::Bad { err: e })),
        },
{
    let ghost full = spec_decode_chunked(input@.skip(start@));
    let mut pos: usize = pos0;
    let mut state: ChunkState = state0;
    loop
        invariant
            max >= 1,
            0 <= start@ <= pos <= input@.len(),
            pos >= pos0,
            !(state is Done),
            !(state is Errored),
            state matches ChunkState::ReadingChunkData { remaining } ==> remaining >= 1,
            trailers@ == old(trailers)@,
            full == spec_decode_chunked(input@.skip(start@)),
            lift_chunk(
                produced0@,
                fields_of(trailers@),
                pos - start@,
                spec_decode_from(state, input@.skip(pos as int)),
            ) == full,
        decreases input@.len() - pos,
    {
        match state {
            ChunkState::ReadingSize => {
                let e = match find_crlf(input, pos) {
                    None => {
                        proof {
                            lemma_no_crlf_shift(input@, pos as int);
                        }
                        return (
                            pos,
                            ChunkState::Errored { err: HttpError::UnexpectedEndOfData },
                            produced0,
                            Err(HttpError::UnexpectedEndOfData),
                        );
                    },
                    Some(e) => e,
                };
                proof {
                    lemma_first_crlf_shift(input@, pos as int, e as int);
                    assert(input@.skip(pos as int).subrange(0, e - pos) =~= input@.subrange(
                        pos as int,
                        e as int,
                    ));
                }
                let slen = input.len();
                assert(e + 2 <= slen);
                let size = match parse_size_line(input, pos, e) {
                    Err(err) => {
                        return (pos, ChunkState::Errored { err }, produced0, Err(err));
                    },
                    Ok(size) => size,
                };
                proof {
                    assert(input@.skip(pos as int).skip(e - pos + 2) =~= input@.skip(e + 2));
                }
                if size == 0 {
                    proof {
                        match spec_parse_fields(input@.skip(e + 2)) {
                            FieldsParse::Complete { fields, used } => {},
                            FieldsParse::Truncated => {},
                            FieldsParse::Bad { err } => {},
                        }
                    }
                    pos = e + 2;
                    state = ChunkState::ReadingTrailerHeaders;
                } else {
                    proof {
                        let s = input@.skip(pos as int);
                        let s2 = input@.skip(e + 2);
                        let data_end = (e - pos) + 2 + size;
                        if s.len() >= data_end + 2 && s[data_end as int] == CR && s[data_end + 1]
                            == LF {
                            assert(s.subrange(e - pos + 2, data_end as int) =~= s2.take(
                                size as int,
                            ));
                            assert(s.skip(data_end + 2) =~= s2.skip(size + 2));
                            match spec_decode_chunked(s2.skip(size + 2)) {
                                ChunkedParse::Complete { body, trailers: tr, used } => {
                                    assert(Seq::<(Seq<u8>, Seq<u8>)>::empty() + tr =~= tr);
                                },
                                _ => {},
                            }
                        }
                    }
                    pos = e + 2;
                    state = ChunkState::ReadingChunkData { remaining: size };
                }
            },
            ChunkState::ReadingChunkData { remaining } => {
                let avail = input.len() - pos;
                if avail == 0 {
                    return (
                        pos,
                        ChunkState::Errored { err: HttpError::UnexpectedEndOfData },
                        produced0,
                        Err(HttpError::UnexpectedEndOfData),
                    );
                }
                let k0 = if max <= remaining {
                    max
                } else {
                    remaining
                };
                let k = if k0 <= avail {
                    k0
                } else {
                    avail
                };
                let d = crate::headers::subvec(input, pos, pos + k);
                proof {
                    let s = input@.skip(pos as int);
                    let s2 = input@.skip(pos + k);
                    assert(d@ =~= s.take(k as int));
                    assert(s2 =~= s.skip(k as int));
                    if s.len() >= remaining + 2 && s[remaining as int] == CR && s[remaining + 1]
                        == LF {
                        assert(s.skip(remaining + 2) =~= s2.skip(remaining - k + 2));
                        if k < remaining {
                            assert(s.take(remaining as int) =~= d@ + s2.take(remaining - k));
                        } else {
                            assert(s.take(remaining as int) =~= d@);
                        }
                        match spec_decode_chunked(s.skip(remaining + 2)) {
                            ChunkedParse::Complete { body, trailers: tr, used } => {
                                assert(produced0@ + (s.take(remaining as int) + body) =~= (
                                produced0@ + d@) + (if k < remaining {
                                    s2.take(remaining - k)
                                } else {
                                    Seq::<u8>::empty()
                                } + body));
                                assert(Seq::<(Seq<u8>, Seq<u8>)>::empty() + tr =~= tr);
                            },
                            _ => {},
                        }
                    }
                }
                let newpos = pos + k;
                let newstate = if k == remaining {
                    ChunkState::ReadingChunkTerminator
                } else {
                    ChunkState::ReadingChunkData { remaining: remaining - k }
                };
                return (newpos, newstate, Ghost(produced0@ + d@), Ok(ReadStep::Data(d)));
            },
            ChunkState::ReadingChunkTerminator => {
                if input.len() - pos < 2 {
                    return (
                        pos,
                        ChunkState::Errored { err: HttpError::UnexpectedEndOfData },
                        produced0,
                        Err(HttpError::UnexpectedEndOfData),
                    );
                }
                if input[pos] == CR && input[pos + 1] == LF {
                    proof {
                        let s = input@.skip(pos as int);
                        assert(s[0] == CR && s[1] == LF);
                        assert(s.skip(2) =~= input@.skip(pos + 2));
                        match spec_decode_chunked(s.skip(2)) {
                            ChunkedParse::Complete { body, trailers: tr, used } => {
                                assert(produced0@ + (Seq::<u8>::empty() + body) =~= produced0@
                                    + body);
                                assert(Seq::<(Seq<u8>, Seq<u8>)>::empty() + tr =~= tr);
                            },
                            _ => {},
                        }
                    }
                    pos = pos + 2;
                    state = ChunkState::ReadingSize;
                } else {
                    proof {
                        let s = input@.skip(pos as int);
                        assert(s[0] == input@[pos as int] && s[1] == input@[pos + 1]);
                    }
                    return (
                        pos,
                        ChunkState::Errored { err: HttpError::MissingChunkTerminator },
                        produced0,
                        Err(HttpError::MissingChunkTerminator),
                    );
                }
            },
            ChunkState::ReadingTrailerHeaders => {
                match parse_fields(input, pos) {
                    Err(err) => {
                        return (pos, ChunkState::Errored { err }, produced0, Err(err));
                    },
                    Ok((fs, end)) => {
                        proof {
                            assert(fields_of(trailers@ + fs@) =~= fields_of(trailers@) + fields_of(
                                fs@,
                            ));
                            match spec_decode_chunked(input@.skip(start@)) {
                                ChunkedParse::Complete { body, trailers: tr, used } => {
                                    assert(produced0@ + Seq::<u8>::empty() =~= produced0@);
                                    assert((fields_of(trailers@) + fields_of(fs@))
                                        + Seq::<(Seq<u8>, Seq<u8>)>::empty() =~= fields_of(
                                        trailers@,
                                    ) + fields_of(fs@));
                                },
                                _ => {},
                            }
                        }
                        append_fields(trailers, fs);
                        return (end, ChunkState::Done, produced0, Ok(ReadStep::End));
                    },
                }
            },
            ChunkState::Done => {
                proof {
                    assert(false);
                }
                return (pos, ChunkState::Done, produced0, Ok(ReadStep::End));
            },
            ChunkState::Errored { err } => {
                proof {
                    assert(false);
                }
                return (pos, ChunkState::Errored { err }, produced0, Err(err));
            },
        }
    }
}

} // verus!
