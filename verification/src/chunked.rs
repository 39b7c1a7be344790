//! The chunked transfer coding: the wire grammar, an encoder that frames
//! data as `<hex-size>CRLF<data>CRLF` with a terminating zero chunk and
//! empty trailer block, and the pieces of its decoder.

use vstd::prelude::*;
use vstd::arithmetic::div_mod::{lemma_div_decreases, lemma_fundamental_div_mod};

use crate::error::HttpError;
use crate::headers::{spec_parse_fields, FieldsParse};
use crate::{first_crlf, has_line, is_crlf_at, lemma_line_end, line_end, push_all, CR, LF};

verus! {

/// The value of one ASCII hex digit, or -1.
pub open spec fn hex_digit_val(b: u8) -> int {
    if 48 <= b && b <= 57 {
        b - 48
    } else if 97 <= b && b <= 102 {
        b - 87
    } else if 65 <= b && b <= 70 {
        b - 55
    } else {
        -1
    }
}

/// `b` is an ASCII hex digit.
pub open spec fn is_hex_digit(b: u8) -> bool {
    hex_digit_val(b) >= 0
}

/// The value of a run of hex digits, most significant first.
pub open spec fn hex_run_val(s: Seq<u8>) -> nat
    decreases s.len(),
{
    if s.len() == 0 {
        0
    } else {
        (hex_run_val(s.drop_last()) * 16 + (if is_hex_digit(s.last()) {
            hex_digit_val(s.last())
        } else {
            0
        })) as nat
    }
}

/// How many hex digits `s` starts with.
pub open spec fn hex_prefix_len(s: Seq<u8>) -> int
    decreases s.len(),
{
    if s.len() == 0 || !is_hex_digit(s[0]) {
        0
    } else {
        1 + hex_prefix_len(s.skip(1))
    }
}

/// `b` is an ASCII control byte.
pub open spec fn is_ctl(b: u8) -> bool {
    b < 32 || b == 127
}

/// The content of a chunk-size line is well formed: it starts with at
/// least one hex digit, and whatever follows (a chunk extension, ignored)
/// holds no control byte.
pub open spec fn size_line_ok(line: Seq<u8>) -> bool {
    &&& hex_prefix_len(line) > 0
    &&& forall|j: int| hex_prefix_len(line) <= j < line.len() ==> !is_ctl(line[j])
}

/// The chunk size a well-formed size line declares.
pub open spec fn size_of_line(line: Seq<u8>) -> nat {
    hex_run_val(line.take(hex_prefix_len(line)))
}

/// Outcome of decoding a chunked body from the front of a byte sequence.
pub enum ChunkedParse {
    /// All chunks, the trailer block, and the final blank line are present:
    /// the concatenated chunk data, the trailer fields, and how many bytes
    /// the whole coding spans.
    Complete { body: Seq<u8>, trailers: Seq<(Seq<u8>, Seq<u8>)>, used: int },
    /// The input ends before the coding is complete.
    Truncated,
    /// A size line, a chunk terminator, or a trailer line is malformed.
    Bad { err: HttpError },
}

/// Decodes a chunked body from the front of `s`: size lines, chunk data
/// each followed by CRLF, a zero-size chunk, then trailer fields up to a
/// blank line. A size over `usize::MAX` is rejected as malformed.
pub open spec fn spec_decode_chunked(s: Seq<u8>) -> ChunkedParse
    decreases s.len(),
{
    if !has_line(s) {
        ChunkedParse::Truncated
    } else {
        let e = line_end(s);
        let line = s.subrange(0, e);
        if !size_line_ok(line) || size_of_line(line) > usize::MAX as nat {
            ChunkedParse::Bad { err: HttpError::MalformedChunkSize }
        } else if size_of_line(line) == 0 {
            match spec_parse_fields(s.skip(e + 2)) {
                FieldsParse::Complete { fields, used } => ChunkedParse::Complete {
                    body: Seq::empty(),
                    trailers: fields,
                    used: e + 2 + used,
                },
                FieldsParse::Truncated => ChunkedParse::Truncated,
                FieldsParse::Bad { err } => ChunkedParse::Bad { err },
            }
        } else {
            let size = size_of_line(line) as int;
            let data_end = e + 2 + size;
            if s.len() < data_end + 2 {
                ChunkedParse::Truncated
            } else if s[data_end] == CR && s[data_end + 1] == LF {
                match spec_decode_chunked(s.skip(data_end + 2)) {
                    ChunkedParse::Complete { body, trailers, used } => ChunkedParse::Complete {
                        body: s.subrange(e + 2, data_end) + body,
                        trailers,
                        used: data_end + 2 + used,
                    },
                    other => other,
                }
            } else {
                ChunkedParse::Bad { err: HttpError::MissingChunkTerminator }
            }
        }
    }
}

/// The ASCII hex digit for a value below 16, lowercase.
pub open spec fn hex_digit_char(v: int) -> u8 {
    if v < 10 {
        (48 + v) as u8
    } else {
        (87 + v) as u8
    }
}

/// The minimal lowercase hex representation of `n`.
pub open spec fn hex_rep(n: nat) -> Seq<u8>
    decreases n,
{
    if n < 16 {
        seq![hex_digit_char(n as int)]
    } else {
        hex_rep(n / 16).push(hex_digit_char((n % 16) as int))
    }
}

/// The CRLF pair.
pub open spec fn crlf() -> Seq<u8> {
    seq![CR, LF]
}

/// One encoded chunk: hex size line, data, CRLF.
pub open spec fn chunk_frame(data: Seq<u8>) -> Seq<u8> {
    hex_rep(data.len()) + crlf() + data + crlf()
}

/// The terminating zero-size chunk followed by an empty trailer block.
pub open spec fn last_chunk() -> Seq<u8> {
    seq![48u8, CR, LF, CR, LF]
}

/// A whole body encoded as a single chunk (none for an empty body) plus
/// the terminator.
pub open spec fn spec_encode_chunked(body: Seq<u8>) -> Seq<u8> {
    if body.len() == 0 {
        last_chunk()
    } else {
        chunk_frame(body) + last_chunk()
    }
}

/// Every byte of `hex_rep(n)` is a hex digit, and there is at least one.
pub proof fn lemma_hex_rep_digits(n: nat)
    ensures
        hex_rep(n).len() >= 1,
        forall|j: int| 0 <= j < hex_rep(n).len() ==> is_hex_digit(#[trigger] hex_rep(n)[j]),
    decreases n,
{
    if n < 16 {
        assert(is_hex_digit(hex_digit_char(n as int)));
    } else {
        lemma_div_decreases(n as int, 16);
        lemma_hex_rep_digits(n / 16);
        assert(0 <= n % 16 < 16);
        assert(is_hex_digit(hex_digit_char((n % 16) as int)));
    }
}

/// `hex_rep` and `hex_run_val` are inverse.
pub proof fn lemma_hex_rep_val(n: nat)
    ensures
        hex_run_val(hex_rep(n)) == n,
    decreases n,
{
    if n < 16 {
        let s = hex_rep(n);
        assert(s.drop_last() =~= Seq::<u8>::empty());
        assert(hex_run_val(Seq::<u8>::empty()) == 0);
        assert(is_hex_digit(s.last()));
        assert(hex_digit_val(hex_digit_char(n as int)) == n);
    } else {
        lemma_div_decreases(n as int, 16);
        lemma_hex_rep_val(n / 16);
        let s = hex_rep(n);
        assert(s.drop_last() =~= hex_rep(n / 16));
        assert(s.last() == hex_digit_char((n % 16) as int));
        assert(0 <= n % 16 < 16);
        assert(is_hex_digit(s.last()));
        assert(hex_digit_val(hex_digit_char((n % 16) as int)) == n % 16);
        lemma_fundamental_div_mod(n as int, 16);
    }
}

/// If everything before `i` is a hex digit and `i` is not (or is the end),
/// the hex prefix of `s` is exactly `i` bytes.
pub proof fn lemma_hex_prefix_at(s: Seq<u8>, i: int)
    requires
        0 <= i <= s.len(),
        forall|j: int| 0 <= j < i ==> is_hex_digit(s[j]),
        i < s.len() ==> !is_hex_digit(s[i]),
    ensures
        hex_prefix_len(s) == i,
    decreases i,
{
    if i == 0 {
    } else {
        assert(is_hex_digit(s[0]));
        assert forall|j: int| 0 <= j < i - 1 implies is_hex_digit(s.skip(1)[j]) by {
            assert(s.skip(1)[j] == s[j + 1]);
        }
        assert(i - 1 < s.skip(1).len() ==> !is_hex_digit(s.skip(1)[i - 1]));
        lemma_hex_prefix_at(s.skip(1), i - 1);
    }
}

/// The minimal hex bytes of `n`, lowercase.
pub fn hex_bytes(n: usize) -> (r: Vec<u8>)
    ensures
        r@ == hex_rep(n as nat),
    decreases n,
{
    if n < 16 {
        let d: u8 = if n < 10 {
            (n as u8) + 48
        } else {
            (n as u8) + 87
        };
        let mut v: Vec<u8> = Vec::new();
        v.push(d);
        proof {
            assert(v@ =~= hex_rep(n as nat));
        }
        v
    } else {
        proof {
            lemma_div_decreases(n as int, 16);
        }
        let mut v = hex_bytes(n / 16);
        let m = n % 16;
        let d: u8 = if m < 10 {
            (m as u8) + 48
        } else {
            (m as u8) + 87
        };
        v.push(d);
        proof {
            assert((n as nat) / 16 == (n / 16) as nat);
            assert(d == hex_digit_char((n % 16) as int));
        }
        v
    }
}

/// Frames `data` as one chunk: `<hex-size>CRLF<data>CRLF`. Empty data
/// yields no bytes at all, so a terminating zero chunk is never produced
/// by accident.
pub fn encode_chunk(data: &Vec<u8>) -> (r: Vec<u8>)
    ensures
        data@.len() == 0 ==> r@ == Seq::<u8>::empty(),
        data@.len() > 0 ==> r@ == chunk_frame(data@),
{
    if data.len() == 0 {
        let v: Vec<u8> = Vec::new();
        proof {
            assert(v@ =~= Seq::<u8>::empty());
        }
        return v;
    }
    let mut out = hex_bytes(data.len());
    out.push(CR);
    out.push(LF);
    push_all(&mut out, data);
    out.push(CR);
    out.push(LF);
    proof {
        assert(out@ =~= chunk_frame(data@));
    }
    out
}

/// The terminating zero-size chunk and empty trailer block: `0CRLFCRLF`.
pub fn encode_last_chunk() -> (r: Vec<u8>)
    ensures
        r@ == last_chunk(),
{
    let mut v: Vec<u8> = Vec::new();
    v.push(48);
    v.push(CR);
    v.push(LF);
    v.push(CR);
    v.push(LF);
    proof {
        assert(v@ =~= last_chunk());
    }
    v
}

/// Encodes a whole body of known content but undeclared length: one chunk
/// holding all of it (none when empty), then the terminator.
pub fn encode_chunked_body(body: &Vec<u8>) -> (r: Vec<u8>)
    ensures
        r@ == spec_encode_chunked(body@),
{
    let mut out = encode_chunk(body);
    let tail = encode_last_chunk();
    push_all(&mut out, &tail);
    proof {
        if body@.len() == 0 {
            assert(out@ =~= last_chunk());
        } else {
            assert(out@ == chunk_frame(body@) + last_chunk());
        }
    }
    out
}

/// Parses the content of a chunk-size line, `s[from..to]`: a hex digit
/// run, then an ignored extension of non-control bytes. Returns the size,
/// or reports a malformed or oversized size line.
pub fn parse_size_line(s: &Vec<u8>, from: usize, to: usize) -> (r: Result<usize, HttpError>)
    requires
        from <= to <= s@.len(),
    ensures
        ({
            let line = s@.subrange(from as int, to as int);
            match r {
                Ok(n) => size_line_ok(line) && size_of_line(line) == n,
                Err(e) => e == HttpError::MalformedChunkSize && (!size_line_ok(line)
                    || size_of_line(line) > usize::MAX as nat),
            }
        }),
{
    let ghost line = s@.subrange(from as int, to as int);
    let mut i: usize = from;
    let mut val: usize = 0;
    let mut overflow: bool = false;
    while i < to && ((48 <= s[i] && s[i] <= 57) || (97 <= s[i] && s[i] <= 102) || (65 <= s[i]
        && s[i] <= 70))
        invariant
            from <= i <= to <= s@.len(),
            line == s@.subrange(from as int, to as int),
            forall|j: int| from <= j < i ==> is_hex_digit(s@[j]),
            !overflow ==> val == hex_run_val(line.take(i - from)),
            overflow ==> hex_run_val(line.take(i - from)) > usize::MAX as nat,
        decreases to - i,
    {
        let c = s[i];
        let d: u8 = if 48 <= c && c <= 57 {
            c - 48
        } else if 97 <= c && c <= 102 {
            c - 87
        } else {
            c - 55
        };
        proof {
            assert(line.take(i - from + 1).drop_last() =~= line.take(i - from));
            assert(line.take(i - from + 1).last() == s@[i as int]);
            assert(hex_digit_val(s@[i as int]) == d);
        }
        if !overflow {
            let limit = (usize::MAX - (d as usize)) / 16;
            if val > limit {
                proof {
                    lemma_fundamental_div_mod(usize::MAX - d, 16);
                    assert(val * 16 >= (limit + 1) * 16) by (nonlinear_arith)
                        requires
                            val >= limit + 1,
                    ;
                    assert((limit + 1) * 16 == limit * 16 + 16);
                    assert(limit * 16 >= usize::MAX - d - 15);
                }
                overflow = true;
            } else {
                proof {
                    lemma_fundamental_div_mod(usize::MAX - d, 16);
                    assert(val * 16 <= limit * 16) by (nonlinear_arith)
                        requires
                            val <= limit,
                    ;
                    assert(limit * 16 <= usize::MAX - d);
                }
                val = val * 16 + (d as usize);
            }
        } else {
            proof {
                assert(hex_run_val(line.take(i - from + 1)) >= hex_run_val(line.take(i - from)));
            }
        }
        i = i + 1;
    }
    proof {
        assert forall|j: int| 0 <= j < i - from implies is_hex_digit(line[j]) by {
            assert(line[j] == s@[from + j]);
        }
        if i < to {
            assert(line[i - from] == s@[i as int]);
            assert(!is_hex_digit(line[i - from]));
        }
        lemma_hex_prefix_at(line, i as int - from);
    }
    if i == from {
        return Err(HttpError::MalformedChunkSize);
    }
    let ghost p = i as int - from;
    let mut j: usize = i;
    while j < to
        invariant
            i <= j <= to <= s@.len(),
            line == s@.subrange(from as int, to as int),
            from < i,
            hex_prefix_len(line) == i - from,
            forall|k: int| i <= k < j ==> !is_ctl(s@[k]),
        decreases to - j,
    {
        let c = s[j];
        if c < 32 || c == 127 {
            proof {
                assert(line[j - from] == s@[j as int]);
                assert(is_ctl(line[j - from]));
            }
            return Err(HttpError::MalformedChunkSize);
        }
        j = j + 1;
    }
    proof {
        assert forall|k: int| p <= k < line.len() implies !is_ctl(line[k]) by {
            assert(line[k] == s@[from + k]);
        }
        assert(size_line_ok(line));
    }
    if overflow {
        proof {
            assert(hex_prefix_len(line) == p);
            assert(size_of_line(line) == hex_run_val(line.take(p)));
        }
        return Err(HttpError::MalformedChunkSize);
    }
    Ok(val)
}

/// Decoding what the encoder produced for any body, lengths including
/// zero, yields exactly that body, no trailer fields, and consumes the
/// whole coding.
pub proof fn lemma_chunked_round_trip(body: Seq<u8>)
    requires
        body.len() <= usize::MAX,
    ensures
        spec_decode_chunked(spec_encode_chunked(body)) == (ChunkedParse::Complete {
            body: body,
            trailers: Seq::<(Seq<u8>, Seq<u8>)>::empty(),
            used: spec_encode_chunked(body).len() as int,
        }),
{
    if body.len() == 0 {
        lemma_decode_last_chunk();
        assert(body =~= Seq::<u8>::empty());
        assert(last_chunk().len() == 5);
    } else {
        let s = spec_encode_chunked(body);
        let hx = hex_rep(body.len());
        let h = hx.len() as int;
        let l = body.len() as int;
        lemma_hex_rep_digits(body.len());
        lemma_hex_rep_val(body.len());
        assert(s =~= hx + crlf() + body + crlf() + last_chunk());
        assert(s.len() == h + 2 + l + 2 + 5);
        assert(s[h] == CR && s[h + 1] == LF);
        assert(is_crlf_at(s, h));
        assert forall|j: int| 0 <= j < h implies !is_crlf_at(s, j) by {
            assert(s[j] == hx[j]);
            assert(is_hex_digit(s[j]));
        }
        assert(first_crlf(s, 0, h));
        lemma_line_end(s, h);
        let line = s.subrange(0, h);
        assert(line =~= hx);
        lemma_hex_prefix_at(line, h);
        assert(size_line_ok(line));
        assert(line.take(h) =~= line);
        assert(size_of_line(line) == body.len());
        let data_end = h + 2 + l;
        assert(s[data_end] == CR && s[data_end + 1] == LF);
        assert(s.len() >= data_end + 2);
        assert(s.skip(data_end + 2) =~= last_chunk());
        lemma_decode_last_chunk();
        assert(spec_decode_chunked(s.skip(data_end + 2)) == (ChunkedParse::Complete {
            body: Seq::<u8>::empty(),
            trailers: Seq::<(Seq<u8>, Seq<u8>)>::empty(),
            used: 5,
        }));
        assert(size_of_line(line) != 0);
        assert(!(size_of_line(line) > usize::MAX as nat));
        assert(spec_decode_chunked(s) == (ChunkedParse::Complete {
            body: s.subrange(h + 2, data_end) + Seq::<u8>::empty(),
            trailers: Seq::<(Seq<u8>, Seq<u8>)>::empty(),
            used: data_end + 2 + 5,
        }));
        assert(s.subrange(h + 2, data_end) =~= body);
        assert(s.subrange(h + 2, data_end) + Seq::<u8>::empty() =~= body);
        assert(data_end + 2 + 5 == s.len());
    }
}

/// Decoding the terminator alone yields an empty body and no trailers.
pub proof fn lemma_decode_last_chunk()
    ensures
        spec_decode_chunked(last_chunk()) == (ChunkedParse::Complete {
            body: Seq::<u8>::empty(),
            trailers: Seq::<(Seq<u8>, Seq<u8>)>::empty(),
            used: 5,
        }),
{
    let s = last_chunk();
    assert(s.len() == 5);
    assert(s[0] == 48u8 && s[1] == CR && s[2] == LF && s[3] == CR && s[4] == LF);
    assert(is_crlf_at(s, 1));
    assert(!is_crlf_at(s, 0));
    assert(first_crlf(s, 0, 1));
    lemma_line_end(s, 1);
    let line = s.subrange(0, 1);
    assert(line =~= seq![48u8]);
    assert(is_hex_digit(48u8));
    assert(line.skip(1) =~= Seq::<u8>::empty());
    assert(hex_prefix_len(Seq::<u8>::empty()) == 0);
    assert(hex_prefix_len(line) == 1);
    assert(size_line_ok(line));
    assert(line.take(1) =~= line);
    assert(line.drop_last() =~= Seq::<u8>::empty());
    assert(hex_run_val(Seq::<u8>::empty()) == 0);
    assert(hex_digit_val(48u8) == 0);
    assert(size_of_line(line) == 0);
    let t = s.skip(3);
    assert(t =~= seq![CR, LF]);
    assert(is_crlf_at(t, 0));
    assert(first_crlf(t, 0, 0));
    lemma_line_end(t, 0);
    assert(spec_parse_fields(t) == (FieldsParse::Complete {
        fields: Seq::<(Seq<u8>, Seq<u8>)>::empty(),
        used: 2,
    }));
}

} // verus!
