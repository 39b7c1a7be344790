//! Response head decoding: the status line, the header block, and the
//! framing decision that fixes how the body must be read.

use vstd::prelude::*;
use vstd::arithmetic::div_mod::lemma_fundamental_div_mod;

use crate::error::HttpError;
use crate::headers::{
    eq_ignore_case, fields_of, lower_seq, parse_fields, spec_parse_fields, trim_ws, trimmed_subvec,
    FieldsParse, HeaderField,
};
use crate::{find_crlf, has_line, lemma_first_crlf_shift, lemma_no_crlf_shift, line_end};

verus! {

/// Upper bound on the byte size of a response head (status line, headers,
/// and blank line), against a malicious or buggy peer.
pub const MAX_HEAD_BYTES: usize = 8192;

/// The fixed status-line prefix `HTTP/1.1 `.
pub open spec fn http_version_prefix() -> Seq<u8> {
    seq![72u8, 84u8, 84u8, 80u8, 47u8, 49u8, 46u8, 49u8, 32u8]
}

/// `b` is an ASCII decimal digit.
pub open spec fn is_digit(b: u8) -> bool {
    48 <= b && b <= 57
}

/// The three-digit status code a status line carries.
pub open spec fn status_code_of(line: Seq<u8>) -> int {
    100 * (line[9] - 48) + 10 * (line[10] - 48) + (line[11] - 48)
}

/// The content of a status line is well formed: the fixed version prefix,
/// a three-digit code in 100..=599, then either nothing or a space and the
/// reason phrase (which may itself be empty).
pub open spec fn status_line_ok(line: Seq<u8>) -> bool {
    &&& line.len() >= 12
    &&& line.subrange(0, 9) == http_version_prefix()
    &&& is_digit(line[9]) && is_digit(line[10]) && is_digit(line[11])
    &&& line.len() > 12 ==> line[12] == 32
    &&& 100 <= status_code_of(line) <= 599
}

/// The reason phrase of a status line, possibly empty.
pub open spec fn reason_of(line: Seq<u8>) -> Seq<u8> {
    if line.len() > 13 {
        line.subrange(13, line.len() as int)
    } else {
        Seq::empty()
    }
}

/// A decoded response head: status, reason phrase, and headers in order
/// of arrival. Fixed once parsing completes; body consumption never
/// alters it.
#[derive(Debug, PartialEq, Eq)]
pub struct ResponseHead {
    pub status: u16,
    pub reason: Vec<u8>,
    pub headers: Vec<HeaderField>,
}

/// Outcome of decoding a response head from the front of a byte sequence.
pub enum HeadParse {
    /// Status line and header block are complete: status code, reason,
    /// fields, and how many bytes the head spans (blank line included).
    Complete { status: int, reason: Seq<u8>, fields: Seq<(Seq<u8>, Seq<u8>)>, used: int },
    /// The input ends inside the head.
    Truncated,
    /// The status line or some header line is malformed.
    Bad { err: HttpError },
}

/// Decodes a status line and header block from the front of `s`.
pub open spec fn spec_decode_head(s: Seq<u8>) -> HeadParse {
    if !has_line(s) {
        HeadParse::Truncated
    } else {
        let e = line_end(s);
        let line = s.subrange(0, e);
        if !status_line_ok(line) {
            HeadParse::Bad { err: HttpError::MalformedStatusLine }
        } else {
            match spec_parse_fields(s.skip(e + 2)) {
                FieldsParse::Complete { fields, used } => HeadParse::Complete {
                    status: status_code_of(line),
                    reason: reason_of(line),
                    fields,
                    used: e + 2 + used,
                },
                FieldsParse::Truncated => HeadParse::Truncated,
                FieldsParse::Bad { err } => HeadParse::Bad { err },
            }
        }
    }
}

/// Parses the content of a status line, `s[from..to]`.
pub fn parse_status_line(s: &Vec<u8>, from: usize, to: usize) -> (r: Result<
    (u16, Vec<u8>),
    HttpError,
>)
    requires
        from <= to <= s@.len(),
    ensures
        ({
            let line = s@.subrange(from as int, to as int);
            match r {
                Ok(p) => status_line_ok(line) && p.0 == status_code_of(line) && p.1@ == reason_of(
                    line,
                ),
                Err(e) => !status_line_ok(line) && e == HttpError::MalformedStatusLine,
            }
        }),
{
    let ghost line = s@.subrange(from as int, to as int);
    if to - from < 12 {
        return Err(HttpError::MalformedStatusLine);
    }
    let ok_prefix = s[from] == 72 && s[from + 1] == 84 && s[from + 2] == 84 && s[from + 3] == 80
        && s[from + 4] == 47 && s[from + 5] == 49 && s[from + 6] == 46 && s[from + 7] == 49
        && s[from + 8] == 32;
    if !ok_prefix {
        proof {
            assert(forall|k: int| 0 <= k < 9 ==> line[k] == s@[from + k]);
            assert(line.subrange(0, 9) != http_version_prefix()) by {
                if line.subrange(0, 9) == http_version_prefix() {
                    assert(forall|k: int|
                        0 <= k < 9 ==> line.subrange(0, 9)[k] == http_version_prefix()[k]);
                    assert(line[0] == 72 && line[1] == 84 && line[2] == 84 && line[3] == 80
                        && line[4] == 47 && line[5] == 49 && line[6] == 46 && line[7] == 49
                        && line[8] == 32);
                }
            }
        }
        return Err(HttpError::MalformedStatusLine);
    }
    let d0 = s[from + 9];
    let d1 = s[from + 10];
    let d2 = s[from + 11];
    if !(48 <= d0 && d0 <= 57 && 48 <= d1 && d1 <= 57 && 48 <= d2 && d2 <= 57) {
        return Err(HttpError::MalformedStatusLine);
    }
    let code: u16 = 100 * ((d0 - 48) as u16) + 10 * ((d1 - 48) as u16) + ((d2 - 48) as u16);
    if code < 100 || code > 599 {
        return Err(HttpError::MalformedStatusLine);
    }
    if to - from > 12 {
        if s[from + 12] != 32 {
            return Err(HttpError::MalformedStatusLine);
        }
    }
    proof {
        assert(line.subrange(0, 9) =~= http_version_prefix());
    }
    let reason: Vec<u8> = if to - from > 13 {
        let v = crate::headers::subvec(s, from + 13, to);
        proof {
            assert(v@ =~= reason_of(line));
        }
        v
    } else {
        let v: Vec<u8> = Vec::new();
        proof {
            assert(v@ =~= reason_of(line));
        }
        v
    };
    Ok((code, reason))
}

/// Decodes one response head starting at `from`: status line, header
/// lines, and the blank line that ends the block. Returns the head and
/// the index where body data begins; never reads past that boundary.
/// A head over `MAX_HEAD_BYTES` is rejected, not truncated.
pub fn decode_head(s: &Vec<u8>, from: usize) -> (r: Result<(ResponseHead, usize), HttpError>)
    requires
        from <= s@.len(),
    ensures
        match r {
            Ok(p) => spec_decode_head(s@.skip(from as int)) == (HeadParse::Complete {
                status: p.0.status as int,
                reason: p.0.reason@,
                fields: fields_of(p.0.headers@),
                used: p.1 - from,
            }) && from <= p.1 <= s@.len() && p.1 - from <= MAX_HEAD_BYTES,
            Err(e) => match spec_decode_head(s@.skip(from as int)) {
                HeadParse::Complete { used, .. } => used > MAX_HEAD_BYTES && e
                    == HttpError::HeaderBlockTooLarge,
                HeadParse::Truncated => (s@.len() - from < MAX_HEAD_BYTES && e
                    == HttpError::UnexpectedEndOfData) || (s@.len() - from >= MAX_HEAD_BYTES && e
                    == HttpError::HeaderBlockTooLarge),
                HeadParse::Bad { err } => e == err,
            },
        },
{
    let e = match find_crlf(s, from) {
        None => {
            proof {
                lemma_no_crlf_shift(s@, from as int);
            }
            if s.len() - from >= MAX_HEAD_BYTES {
                return Err(HttpError::HeaderBlockTooLarge);
            } else {
                return Err(HttpError::UnexpectedEndOfData);
            }
        },
        Some(e) => e,
    };
    proof {
        lemma_first_crlf_shift(s@, from as int, e as int);
        assert(s@.skip(from as int).subrange(0, e - from) =~= s@.subrange(from as int, e as int));
    }
    let (status, reason) = match parse_status_line(s, from, e) {
        Err(err) => {
            return Err(err);
        },
        Ok(p) => p,
    };
    let slen = s.len();
    assert(e + 2 <= slen);
    match parse_fields(s, e + 2) {
        Err(err) => {
            proof {
                assert(s@.skip(from as int).skip(e - from + 2) =~= s@.skip(e + 2));
            }
            if err == HttpError::UnexpectedEndOfData {
                if s.len() - from >= MAX_HEAD_BYTES {
                    return Err(HttpError::HeaderBlockTooLarge);
                } else {
                    return Err(HttpError::UnexpectedEndOfData);
                }
            } else {
                return Err(err);
            }
        },
        Ok((headers, end)) => {
            proof {
                assert(s@.skip(from as int).skip(e - from + 2) =~= s@.skip(e + 2));
            }
            if end - from > MAX_HEAD_BYTES {
                return Err(HttpError::HeaderBlockTooLarge);
            }
            Ok((ResponseHead { status, reason, headers }, end))
        },
    }
}

/// How the body after a response head must be read. Decided once, right
/// after the head is parsed, and never revisited.
#[derive(Clone, Copy, Debug, PartialEq, Eq, Structural)]
pub enum Framing {
    /// The body is chunked-coded; any Content-Length is ignored, never
    /// used to bound the body.
    Chunked,
    /// Exactly `len` body bytes follow the head.
    FixedLength { len: usize },
    /// The status owes no body, whatever the headers say.
    NoBody,
    /// The body runs until the transport ends; such a connection cannot
    /// be reused.
    CloseDelimited,
}

/// The lowercase header name `transfer-encoding`.
pub open spec fn te_name() -> Seq<u8> {
    seq![
        116u8, 114u8, 97u8, 110u8, 115u8, 102u8, 101u8, 114u8, 45u8, 101u8, 110u8, 99u8, 111u8,
        100u8, 105u8, 110u8, 103u8,
    ]
}

/// The lowercase header name `content-length`.
pub open spec fn cl_name() -> Seq<u8> {
    seq![99u8, 111u8, 110u8, 116u8, 101u8, 110u8, 116u8, 45u8, 108u8, 101u8, 110u8, 103u8, 116u8, 104u8]
}

/// The lowercase coding name `chunked`.
pub open spec fn chunked_token() -> Seq<u8> {
    seq![99u8, 104u8, 117u8, 110u8, 107u8, 101u8, 100u8]
}

/// The value of the last field named `target` (lowercase), if any; names
/// match case-insensitively.
pub open spec fn last_value_of(fields: Seq<(Seq<u8>, Seq<u8>)>, target: Seq<u8>) -> Option<Seq<u8>>
    decreases fields.len(),
{
    if fields.len() == 0 {
        None
    } else if lower_seq(fields.last().0) == target {
        Some(fields.last().1)
    } else {
        last_value_of(fields.drop_last(), target)
    }
}

/// The value of the first field named `target` (lowercase), if any.
pub open spec fn first_value_of(fields: Seq<(Seq<u8>, Seq<u8>)>, target: Seq<u8>) -> Option<
    Seq<u8>,
>
    decreases fields.len(),
{
    if fields.len() == 0 {
        None
    } else if lower_seq(fields[0].0) == target {
        Some(fields[0].1)
    } else {
        first_value_of(fields.skip(1), target)
    }
}

/// The bytes after the last comma of `v` (all of `v` when it has none).
pub open spec fn last_coding(v: Seq<u8>) -> Seq<u8>
    decreases v.len(),
{
    if v.len() == 0 {
        v
    } else if v.last() == 44u8 {
        Seq::empty()
    } else {
        last_coding(v.drop_last()).push(v.last())
    }
}

/// The last Transfer-Encoding header names `chunked` as its final coding.
pub open spec fn te_chunked(fields: Seq<(Seq<u8>, Seq<u8>)>) -> bool {
    match last_value_of(fields, te_name()) {
        Some(v) => lower_seq(trim_ws(last_coding(v))) == chunked_token(),
        None => false,
    }
}

/// The value of a run of decimal digits, most significant first.
pub open spec fn dec_run_val(s: Seq<u8>) -> nat
    decreases s.len(),
{
    if s.len() == 0 {
        0
    } else {
        (dec_run_val(s.drop_last()) * 10 + (if is_digit(s.last()) {
            s.last() - 48
        } else {
            0
        })) as nat
    }
}

/// `v` is a usable Content-Length value: all digits, at least one, and
/// its value fits the machine.
pub open spec fn valid_content_length(v: Seq<u8>) -> bool {
    &&& v.len() > 0
    &&& forall|j: int| 0 <= j < v.len() ==> is_digit(v[j])
    &&& dec_run_val(v) <= usize::MAX as nat
}

/// The declared content length: the first Content-Length header, when its
/// value is usable.
pub open spec fn content_length_of(fields: Seq<(Seq<u8>, Seq<u8>)>) -> Option<nat> {
    match first_value_of(fields, cl_name()) {
        Some(v) => if valid_content_length(v) {
            Some(dec_run_val(v))
        } else {
            None
        },
        None => None,
    }
}

/// HTTP semantics define the response as bodiless: informational,
/// no-content, not-modified, or the exchange was HEAD-style.
pub open spec fn bodiless_status(status: int, head_request: bool) -> bool {
    head_request || (100 <= status <= 199) || status == 204 || status == 304
}

/// The framing decision. Precedence: a chunked Transfer-Encoding first
/// (a conflicting Content-Length is ignored); then a bodiless status,
/// whatever Content-Length says; then a usable Content-Length; else the
/// body is delimited by the transport closing.
pub open spec fn spec_framing(
    status: int,
    fields: Seq<(Seq<u8>, Seq<u8>)>,
    head_request: bool,
) -> Framing {
    if te_chunked(fields) {
        Framing::Chunked
    } else if bodiless_status(status, head_request) {
        Framing::NoBody
    } else {
        match content_length_of(fields) {
            Some(n) => Framing::FixedLength { len: n as usize },
            None => Framing::CloseDelimited,
        }
    }
}

/// Framing precedence: a response whose last Transfer-Encoding coding is
/// `chunked` is always framed as chunked — any Content-Length header,
/// conflicting or not, is never used to bound the body.
pub proof fn lemma_framing_chunked_precedence(
    status: int,
    fields: Seq<(Seq<u8>, Seq<u8>)>,
    head_request: bool,
)
    requires
        te_chunked(fields),
    ensures
        spec_framing(status, fields, head_request) == Framing::Chunked,
{
}

/// A response with a bodiless status is framed as having no body,
/// regardless of any Content-Length header present.
pub proof fn lemma_framing_bodiless(
    status: int,
    fields: Seq<(Seq<u8>, Seq<u8>)>,
    head_request: bool,
)
    requires
        bodiless_status(status, head_request),
        !te_chunked(fields),
    ensures
        spec_framing(status, fields, head_request) == Framing::NoBody,
{
}

/// A match at `i` with none after it is the last match.
proof fn lemma_last_value_at(fields: Seq<(Seq<u8>, Seq<u8>)>, target: Seq<u8>, i: int)
    requires
        0 <= i < fields.len(),
        lower_seq(fields[i].0) == target,
        forall|j: int| i < j < fields.len() ==> lower_seq(fields[j].0) != target,
    ensures
        last_value_of(fields, target) == Some(fields[i].1),
    decreases fields.len(),
{
    if i == fields.len() - 1 {
    } else {
        lemma_last_value_at(fields.drop_last(), target, i);
    }
}

/// No match anywhere means no last match.
proof fn lemma_last_value_none(fields: Seq<(Seq<u8>, Seq<u8>)>, target: Seq<u8>)
    requires
        forall|j: int| 0 <= j < fields.len() ==> lower_seq(fields[j].0) != target,
    ensures
        last_value_of(fields, target) is None,
    decreases fields.len(),
{
    if fields.len() > 0 {
        lemma_last_value_none(fields.drop_last(), target);
    }
}

/// A match at `i` with none before it is the first match.
proof fn lemma_first_value_at(fields: Seq<(Seq<u8>, Seq<u8>)>, target: Seq<u8>, i: int)
    requires
        0 <= i < fields.len(),
        lower_seq(fields[i].0) == target,
        forall|j: int| 0 <= j < i ==> lower_seq(fields[j].0) != target,
    ensures
        first_value_of(fields, target) == Some(fields[i].1),
    decreases i,
{
    if i == 0 {
    } else {
        assert forall|j: int| 0 <= j < i - 1 implies lower_seq(fields.skip(1)[j].0) != target by {
            assert(fields.skip(1)[j] == fields[j + 1]);
        }
        assert(fields.skip(1)[i - 1] == fields[i]);
        lemma_first_value_at(fields.skip(1), target, i - 1);
    }
}

/// No match anywhere means no first match.
proof fn lemma_first_value_none(fields: Seq<(Seq<u8>, Seq<u8>)>, target: Seq<u8>)
    requires
        forall|j: int| 0 <= j < fields.len() ==> lower_seq(fields[j].0) != target,
    ensures
        first_value_of(fields, target) is None,
    decreases fields.len(),
{
    if fields.len() > 0 {
        assert forall|j: int| 0 <= j < fields.len() - 1 implies lower_seq(fields.skip(1)[j].0)
            != target by {
            assert(fields.skip(1)[j] == fields[j + 1]);
        }
        lemma_first_value_none(fields.skip(1), target);
    }
}

/// If nothing from `i` on is a comma, and the byte before `i` is one (or
/// `i` is the start), the last coding segment is `v[i..]`.
proof fn lemma_last_coding_at(v: Seq<u8>, i: int)
    requires
        0 <= i <= v.len(),
        forall|j: int| i <= j < v.len() ==> v[j] != 44u8,
        i > 0 ==> v[i - 1] == 44u8,
    ensures
        last_coding(v) == v.skip(i),
    decreases v.len() - i,
{
    if i == v.len() {
        if v.len() > 0 {
            assert(v.last() == 44u8);
        }
        assert(v.skip(i) =~= Seq::<u8>::empty());
    } else {
        assert(v.last() != 44u8);
        lemma_last_coding_at(v.drop_last(), i);
        assert(v.drop_last().skip(i).push(v.last()) =~= v.skip(i));
    }
}

/// The exec bytes of `transfer-encoding`.
pub fn te_name_vec() -> (r: Vec<u8>)
    ensures
        r@ == te_name(),
{
    let v: Vec<u8> = vec![116, 114, 97, 110, 115, 102, 101, 114, 45, 101, 110, 99, 111, 100, 105, 110, 103];
    proof {
        assert(v@ =~= te_name());
    }
    v
}

/// The exec bytes of `content-length`.
pub fn cl_name_vec() -> (r: Vec<u8>)
    ensures
        r@ == cl_name(),
{
    let v: Vec<u8> = vec![99, 111, 110, 116, 101, 110, 116, 45, 108, 101, 110, 103, 116, 104];
    proof {
        assert(v@ =~= cl_name());
    }
    v
}

/// The exec bytes of `chunked`.
pub fn chunked_vec() -> (r: Vec<u8>)
    ensures
        r@ == chunked_token(),
{
    let v: Vec<u8> = vec![99, 104, 117, 110, 107, 101, 100];
    proof {
        assert(v@ =~= chunked_token());
    }
    v
}

/// Finds the last header whose name case-insensitively equals `target`
/// (given lowercase).
fn find_last_header(hs: &Vec<HeaderField>, target: &Vec<u8>) -> (r: Option<usize>)
    ensures
        match r {
            Some(i) => i < hs@.len() && lower_seq(hs@[i as int].name@) == lower_seq(target@)
                && forall|j: int|
                i < j < hs@.len() ==> lower_seq(hs@[j].name@) != lower_seq(target@),
            None => forall|j: int| 0 <= j < hs@.len() ==> lower_seq(hs@[j].name@) != lower_seq(
                target@,
            ),
        },
{
    let mut i: usize = hs.len();
    while i > 0
        invariant
            i <= hs@.len(),
            forall|j: int| i <= j < hs@.len() ==> lower_seq(hs@[j].name@) != lower_seq(target@),
        decreases i,
    {
        let k = i - 1;
        if eq_ignore_case(&hs[k].name, target) {
            return Some(k);
        }
        i = k;
    }
    None
}

/// Finds the first header whose name case-insensitively equals `target`
/// (given lowercase).
fn find_first_header(hs: &Vec<HeaderField>, target: &Vec<u8>) -> (r: Option<usize>)
    ensures
        match r {
            Some(i) => i < hs@.len() && lower_seq(hs@[i as int].name@) == lower_seq(target@)
                && forall|j: int| 0 <= j < i ==> lower_seq(hs@[j].name@) != lower_seq(target@),
            None => forall|j: int| 0 <= j < hs@.len() ==> lower_seq(hs@[j].name@) != lower_seq(
                target@,
            ),
        },
{
    let mut i: usize = 0;
    while i < hs.len()
        invariant
            i <= hs@.len(),
            forall|j: int| 0 <= j < i ==> lower_seq(hs@[j].name@) != lower_seq(target@),
        decreases hs@.len() - i,
    {
        if eq_ignore_case(&hs[i].name, target) {
            return Some(i);
        }
        i = i + 1;
    }
    None
}

/// A longer digit run never has a smaller value.
proof fn lemma_dec_run_val_grows(s: Seq<u8>, i: int)
    requires
        0 <= i <= s.len(),
    ensures
        dec_run_val(s.take(i)) <= dec_run_val(s),
    decreases s.len() - i,
{
    if i == s.len() {
        assert(s.take(i) =~= s);
    } else {
        assert(s.take(i + 1).drop_last() =~= s.take(i));
        assert(s.take(i + 1).last() == s[i]);
        assert(dec_run_val(s.take(i + 1)) >= dec_run_val(s.take(i)));
        lemma_dec_run_val_grows(s, i + 1);
    }
}

/// Parses a Content-Length value: all decimal digits, value fitting the
/// machine. Anything else is unusable.
fn parse_content_length(v: &Vec<u8>) -> (r: Option<usize>)
    ensures
        match r {
            Some(n) => valid_content_length(v@) && dec_run_val(v@) == n,
            None => !valid_content_length(v@),
        },
{
    if v.len() == 0 {
        return None;
    }
    let mut i: usize = 0;
    let mut val: usize = 0;
    while i < v.len()
        invariant
            i <= v@.len(),
            forall|j: int| 0 <= j < i ==> is_digit(v@[j]),
            val == dec_run_val(v@.take(i as int)),
        decreases v@.len() - i,
    {
        let c = v[i];
        if !(48 <= c && c <= 57) {
            return None;
        }
        let d = c - 48;
        proof {
            assert(v@.take(i + 1).drop_last() =~= v@.take(i as int));
            assert(v@.take(i + 1).last() == v@[i as int]);
        }
        let limit = (usize::MAX - (d as usize)) / 10;
        if val > limit {
            proof {
                lemma_fundamental_div_mod(usize::MAX - d, 10);
                assert(val * 10 >= (limit + 1) * 10) by (nonlinear_arith)
                    requires
                        val >= limit + 1,
                ;
                assert((limit + 1) * 10 == limit * 10 + 10);
                assert(limit * 10 >= usize::MAX - d - 9);
                lemma_dec_run_val_grows(v@, i + 1);
            }
            return None;
        }
        proof {
            lemma_fundamental_div_mod(usize::MAX - d, 10);
            assert(val * 10 <= limit * 10) by (nonlinear_arith)
                requires
                    val <= limit,
            ;
            assert(limit * 10 <= usize::MAX - d);
        }
        val = val * 10 + (d as usize);
        i = i + 1;
    }
    proof {
        assert(v@.take(v@.len() as int) =~= v@);
    }
    Some(val)
}

/// Computes the framing decision for a decoded head, per the fixed
/// precedence of `spec_framing`. `head_request` says whether the exchange
/// was HEAD-style.
pub fn framing_of(head: &ResponseHead, head_request: bool) -> (f: Framing)
    ensures
        f == spec_framing(head.status as int, fields_of(head.headers@), head_request),
{
    let ghost fields = fields_of(head.headers@);
    proof {
        assert(fields.len() == head.headers@.len());
        assert(forall|j: int|
            0 <= j < fields.len() ==> fields[j] == (head.headers@[j].name@, head.headers@[j].value@));
        assert(lower_seq(te_name()) =~= te_name());
        assert(lower_seq(cl_name()) =~= cl_name());
        assert(lower_seq(chunked_token()) =~= chunked_token());
    }
    let te = te_name_vec();
    let is_chunked = match find_last_header(&head.headers, &te) {
        Some(i) => {
            proof {
                lemma_last_value_at(fields, te_name(), i as int);
            }
            let v = &head.headers[i].value;
            let mut cidx: usize = v.len();
            while cidx > 0 && v[cidx - 1] != 44
                invariant
                    cidx <= v@.len(),
                    forall|j: int| cidx <= j < v@.len() ==> v@[j] != 44u8,
                decreases cidx,
            {
                cidx = cidx - 1;
            }
            proof {
                lemma_last_coding_at(v@, cidx as int);
                assert(v@.subrange(cidx as int, v@.len() as int) =~= v@.skip(cidx as int));
            }
            let seg = trimmed_subvec(v, cidx, v.len());
            let ck = chunked_vec();
            eq_ignore_case(&seg, &ck)
        },
        None => {
            proof {
                lemma_last_value_none(fields, te_name());
            }
            false
        },
    };
    if is_chunked {
        return Framing::Chunked;
    }
    if head_request || (head.status >= 100 && head.status <= 199) || head.status == 204
        || head.status == 304 {
        return Framing::NoBody;
    }
    let cl = cl_name_vec();
    match find_first_header(&head.headers, &cl) {
        Some(i) => {
            proof {
                lemma_first_value_at(fields, cl_name(), i as int);
            }
            match parse_content_length(&head.headers[i].value) {
                Some(n) => Framing::FixedLength { len: n },
                None => Framing::CloseDelimited,
            }
        },
        None => {
            proof {
                lemma_first_value_none(fields, cl_name());
            }
            Framing::CloseDelimited
        },
    }
}

} // verus!
