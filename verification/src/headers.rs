//! Header fields and the byte-level grammar of a header line:
//! `name:value`, the name matched case-insensitively, the value trimmed of
//! leading and trailing whitespace. Obsolete line folding is rejected.

use vstd::prelude::*;

use crate::error::HttpError;
use crate::find_crlf;

verus! {

/// Space.
pub const SP: u8 = 32;
/// Horizontal tab.
pub const HTAB: u8 = 9;
/// Colon.
pub const COLON: u8 = 58;

/// One header field, name and value as raw bytes.
#[derive(Debug, PartialEq, Eq)]
pub struct HeaderField {
    pub name: Vec<u8>,
    pub value: Vec<u8>,
}

/// The ghost shape of a header list: (name, value) pairs in order.
pub open spec fn fields_of(hs: Seq<HeaderField>) -> Seq<(Seq<u8>, Seq<u8>)> {
    hs.map_values(|h: HeaderField| (h.name@, h.value@))
}

/// `b` is linear whitespace (space or horizontal tab).
pub open spec fn is_ws(b: u8) -> bool {
    b == SP || b == HTAB
}

/// ASCII lowercase of one byte.
pub open spec fn lower_byte(b: u8) -> u8 {
    if 65 <= b && b <= 90 {
        (b + 32) as u8
    } else {
        b
    }
}

/// ASCII lowercase of a byte sequence.
pub open spec fn lower_seq(s: Seq<u8>) -> Seq<u8> {
    s.map_values(|b: u8| lower_byte(b))
}

/// `s` with leading whitespace removed.
pub open spec fn trim_front(s: Seq<u8>) -> Seq<u8>
    decreases s.len(),
{
    if s.len() > 0 && is_ws(s[0]) {
        trim_front(s.skip(1))
    } else {
        s
    }
}

/// `s` with trailing whitespace removed.
pub open spec fn trim_back(s: Seq<u8>) -> Seq<u8>
    decreases s.len(),
{
    if s.len() > 0 && is_ws(s.last()) {
        trim_back(s.drop_last())
    } else {
        s
    }
}

/// `s` with leading and trailing whitespace removed.
pub open spec fn trim_ws(s: Seq<u8>) -> Seq<u8> {
    trim_back(trim_front(s))
}

/// If everything before `i` is whitespace and `i` is not (or is the end),
/// trimming the front of `s` is skipping `i` bytes.
proof fn lemma_trim_front_at(s: Seq<u8>, i: int)
    requires
        0 <= i <= s.len(),
        forall|j: int| 0 <= j < i ==> is_ws(s[j]),
        i < s.len() ==> !is_ws(s[i]),
    ensures
        trim_front(s) == s.skip(i),
    decreases i,
{
    if i == 0 {
        assert(s.skip(0) =~= s);
    } else {
        assert(is_ws(s[0]));
        lemma_trim_front_at(s.skip(1), i - 1);
        assert(s.skip(1).skip(i - 1) =~= s.skip(i));
    }
}

/// If everything from `e` on is whitespace and `e - 1` is not (or `e` is 0),
/// trimming the back of `s` is taking `e` bytes.
proof fn lemma_trim_back_at(s: Seq<u8>, e: int)
    requires
        0 <= e <= s.len(),
        forall|j: int| e <= j < s.len() ==> is_ws(s[j]),
        e > 0 ==> !is_ws(s[e - 1]),
    ensures
        trim_back(s) == s.take(e),
    decreases s.len() - e,
{
    if e == s.len() {
        assert(s.take(e) =~= s);
    } else {
        assert(is_ws(s.last()));
        lemma_trim_back_at(s.drop_last(), e);
        assert(s.drop_last().take(e) =~= s.take(e));
    }
}

/// Copies `s[from..to]` into a fresh vector.
pub fn subvec(s: &Vec<u8>, from: usize, to: usize) -> (r: Vec<u8>)
    requires
        from <= to <= s@.len(),
    ensures
        r@ == s@.subrange(from as int, to as int),
{
    let mut out: Vec<u8> = Vec::new();
    let mut i: usize = from;
    while i < to
        invariant
            from <= i <= to <= s@.len(),
            out@ == s@.subrange(from as int, i as int),
        decreases to - i,
    {
        out.push(s[i]);
        i = i + 1;
        proof {
            assert(out@ =~= s@.subrange(from as int, i as int));
        }
    }
    out
}

/// Copies `s[from..to]` with surrounding whitespace removed.
pub fn trimmed_subvec(s: &Vec<u8>, from: usize, to: usize) -> (r: Vec<u8>)
    requires
        from <= to <= s@.len(),
    ensures
        r@ == trim_ws(s@.subrange(from as int, to as int)),
{
    let ghost w = s@.subrange(from as int, to as int);
    let mut a: usize = from;
    while a < to && (s[a] == SP || s[a] == HTAB)
        invariant
            from <= a <= to <= s@.len(),
            forall|j: int| from <= j < a ==> is_ws(s@[j]),
        decreases to - a,
    {
        a = a + 1;
    }
    let mut b: usize = to;
    while b > a && (s[b - 1] == SP || s[b - 1] == HTAB)
        invariant
            a <= b <= to <= s@.len(),
            forall|j: int| b <= j < to ==> is_ws(s@[j]),
        decreases b,
    {
        b = b - 1;
    }
    proof {
        lemma_trim_front_at(w, a - from);
        lemma_trim_back_at(w.skip(a - from), b - a);
        assert(w.skip(a - from).take(b - a) =~= s@.subrange(a as int, b as int));
    }
    subvec(s, a, b)
}

/// Whether two byte strings are equal once both are ASCII-lowercased.
pub fn eq_ignore_case(a: &Vec<u8>, b: &Vec<u8>) -> (r: bool)
    ensures
        r == (lower_seq(a@) == lower_seq(b@)),
{
    if a.len() != b.len() {
        proof {
            assert(lower_seq(a@).len() == a@.len());
            assert(lower_seq(b@).len() == b@.len());
        }
        return false;
    }
    let mut i: usize = 0;
    while i < a.len()
        invariant
            i <= a@.len(),
            a@.len() == b@.len(),
            forall|j: int| 0 <= j < i ==> lower_byte(a@[j]) == lower_byte(b@[j]),
        decreases a@.len() - i,
    {
        let x = a[i];
        let y = b[i];
        let lx = if 65 <= x && x <= 90 { x + 32 } else { x };
        let ly = if 65 <= y && y <= 90 { y + 32 } else { y };
        if lx != ly {
            proof {
                assert(lower_seq(a@)[i as int] != lower_seq(b@)[i as int]);
            }
            return false;
        }
        i = i + 1;
    }
    proof {
        assert(lower_seq(a@) =~= lower_seq(b@));
    }
    true
}

/// `c` is the first colon of `line`.
pub open spec fn colon_at(line: Seq<u8>, c: int) -> bool {
    0 <= c < line.len() && line[c] == COLON && forall|j: int| 0 <= j < c ==> line[j] != COLON
}

/// The content of a header line is well formed: non-empty, does not look
/// like an obsolete continuation (no leading whitespace), and a colon
/// separates a non-empty name from the value.
pub open spec fn header_line_ok(line: Seq<u8>) -> bool {
    &&& line.len() > 0
    &&& !is_ws(line[0])
    &&& line[0] != COLON
    &&& exists|c: int| colon_at(line, c)
}

/// The index of the first colon of `line`.
pub open spec fn colon_idx(line: Seq<u8>) -> int {
    choose|c: int| colon_at(line, c)
}

/// The name part of a well-formed header line.
pub open spec fn header_name_of(line: Seq<u8>) -> Seq<u8> {
    line.subrange(0, colon_idx(line))
}

/// The value part of a well-formed header line, trimmed.
pub open spec fn header_value_of(line: Seq<u8>) -> Seq<u8> {
    trim_ws(line.subrange(colon_idx(line) + 1, line.len() as int))
}

/// The first colon of a line is unique.
pub proof fn lemma_colon_at_unique(line: Seq<u8>, c1: int, c2: int)
    requires
        colon_at(line, c1),
        colon_at(line, c2),
    ensures
        c1 == c2,
{
}

/// Parses the content of one header line (the bytes before its CRLF) into
/// a field. Rejects an empty name, a missing colon, and a line starting
/// with whitespace (an obsolete continuation).
pub fn parse_header_line(s: &Vec<u8>, from: usize, to: usize) -> (r: Result<
    HeaderField,
    HttpError,
>)
    requires
        from <= to <= s@.len(),
    ensures
        ({
            let line = s@.subrange(from as int, to as int);
            match r {
                Ok(h) => header_line_ok(line) && h.name@ == header_name_of(line) && h.value@
                    == header_value_of(line),
                Err(e) => !header_line_ok(line) && e == HttpError::MalformedHeaderLine,
            }
        }),
{
    let ghost line = s@.subrange(from as int, to as int);
    if from == to {
        return Err(HttpError::MalformedHeaderLine);
    }
    let b0 = s[from];
    if b0 == SP || b0 == HTAB || b0 == COLON {
        return Err(HttpError::MalformedHeaderLine);
    }
    let mut i: usize = from;
    while i < to && s[i] != COLON
        invariant
            from <= i <= to <= s@.len(),
            forall|j: int| from <= j < i ==> s@[j] != COLON,
        decreases to - i,
    {
        i = i + 1;
    }
    if i == to {
        proof {
            assert(forall|c: int| 0 <= c < line.len() ==> line[c] != COLON);
        }
        return Err(HttpError::MalformedHeaderLine);
    }
    proof {
        assert(colon_at(line, i - from));
        lemma_colon_at_unique(line, i - from, colon_idx(line));
        assert(line.subrange(0, i - from) =~= s@.subrange(from as int, i as int));
        assert(line.subrange(i - from + 1, line.len() as int) =~= s@.subrange(
            i as int + 1,
            to as int,
        ));
    }
    let name = subvec(s, from, i);
    let value = trimmed_subvec(s, i + 1, to);
    Ok(HeaderField { name, value })
}

/// Outcome of parsing a block of header-syntax lines up to a blank line:
/// the same grammar serves the response head and a chunked body's trailers.
pub enum FieldsParse {
    /// The block is complete: its fields, and how many bytes it spans
    /// (blank line included).
    Complete { fields: Seq<(Seq<u8>, Seq<u8>)>, used: int },
    /// The input ends before the blank line.
    Truncated,
    /// Some line is malformed.
    Bad { err: HttpError },
}

/// Parses header-syntax lines from the front of `s` until a blank line.
pub open spec fn spec_parse_fields(s: Seq<u8>) -> FieldsParse
    decreases s.len(),
{
    if !crate::has_line(s) {
        FieldsParse::Truncated
    } else {
        let e = crate::line_end(s);
        if e == 0 {
            FieldsParse::Complete { fields: Seq::empty(), used: 2 }
        } else if !header_line_ok(s.subrange(0, e)) {
            FieldsParse::Bad { err: HttpError::MalformedHeaderLine }
        } else {
            match spec_parse_fields(s.skip(e + 2)) {
                FieldsParse::Complete { fields, used } => FieldsParse::Complete {
                    fields: seq![
                        (header_name_of(s.subrange(0, e)), header_value_of(s.subrange(0, e))),
                    ] + fields,
                    used: e + 2 + used,
                },
                other => other,
            }
        }
    }
}

/// Folds already-parsed fields and consumed bytes into a block outcome.
pub open spec fn lift_fields(pre: Seq<(Seq<u8>, Seq<u8>)>, off: int, p: FieldsParse) -> FieldsParse {
    match p {
        FieldsParse::Complete { fields, used } => FieldsParse::Complete {
            fields: pre + fields,
            used: off + used,
        },
        other => other,
    }
}

/// Parses a block of header lines starting at `from`, up to and including
/// the blank line that ends it. Returns the fields in order and the index
/// just past the blank line.
pub fn parse_fields(s: &Vec<u8>, from: usize) -> (r: Result<(Vec<HeaderField>, usize), HttpError>)
    requires
        from <= s@.len(),
    ensures
        match r {
            Ok(p) => spec_parse_fields(s@.skip(from as int)) == (FieldsParse::Complete {
                fields: fields_of(p.0@),
                used: p.1 - from,
            }) && from <= p.1 <= s@.len(),
            Err(e) => (spec_parse_fields(s@.skip(from as int)) == FieldsParse::Truncated && e
                == HttpError::UnexpectedEndOfData) || (spec_parse_fields(s@.skip(from as int))
                == (FieldsParse::Bad { err: e }) && e == HttpError::MalformedHeaderLine),
        },
{
    let mut fields: Vec<HeaderField> = Vec::new();
    let mut pos: usize = from;
    loop
        invariant
            from <= pos <= s@.len(),
            spec_parse_fields(s@.skip(from as int)) == lift_fields(
                fields_of(fields@),
                pos - from,
                spec_parse_fields(s@.skip(pos as int)),
            ),
        decreases s@.len() - pos,
    {
        let e = match find_crlf(s, pos) {
            None => {
                proof {
                    crate::lemma_no_crlf_shift(s@, pos as int);
                }
                return Err(HttpError::UnexpectedEndOfData);
            },
            Some(e) => e,
        };
        proof {
            crate::lemma_first_crlf_shift(s@, pos as int, e as int);
        }
        let slen = s.len();
        assert(e + 2 <= slen);
        if e == pos {
            proof {
                assert(fields_of(fields@) + Seq::<(Seq<u8>, Seq<u8>)>::empty() =~= fields_of(
                    fields@,
                ));
            }
            return Ok((fields, e + 2));
        }
        let ghost line = s@.skip(pos as int).subrange(0, e - pos);
        proof {
            assert(line =~= s@.subrange(pos as int, e as int));
        }
        match parse_header_line(s, pos, e) {
            Err(err) => {
                return Err(err);
            },
            Ok(h) => {
                let ghost pre = fields_of(fields@);
                let ghost f = (h.name@, h.value@);
                fields.push(h);
                proof {
                    assert(fields_of(fields@) =~= pre.push(f));
                    let rest = s@.skip(e + 2);
                    assert(s@.skip(pos as int).skip(e - pos + 2) =~= rest);
                    match spec_parse_fields(rest) {
                        FieldsParse::Complete { fields: fs, used } => {
                            assert(pre + (seq![f] + fs) =~= pre.push(f) + fs);
                        },
                        _ => {},
                    }
                }
                pos = e + 2;
            },
        }
    }
}

} // verus!
