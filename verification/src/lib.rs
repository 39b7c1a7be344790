//! Client-side HTTP/1.1 message framing: request encoding, response
//! decoding, and body streaming (chunked, fixed-length, close-delimited,
//! or empty), verified against the wire grammar.

pub mod body;
pub mod chunked;
pub mod decode;
pub mod encode;
pub mod error;
pub mod headers;

use vstd::prelude::*;

verus! {

/// Carriage return.
pub const CR: u8 = 13;
/// Line feed.
pub const LF: u8 = 10;

/// A CRLF pair starts at index `i` of `s`.
pub open spec fn is_crlf_at(s: Seq<u8>, i: int) -> bool {
    0 <= i && i + 2 <= s.len() && s[i] == CR && s[i + 1] == LF
}

/// `e` is the first index at or after `from` where a CRLF pair starts.
pub open spec fn first_crlf(s: Seq<u8>, from: int, e: int) -> bool {
    from <= e && is_crlf_at(s, e) && forall|j: int| from <= j < e ==> !is_crlf_at(s, j)
}

/// `s` holds a complete line: some CRLF pair, with a first one.
pub open spec fn has_line(s: Seq<u8>) -> bool {
    exists|e: int| first_crlf(s, 0, e)
}

/// Where the first line of `s` ends (the index of its CR).
pub open spec fn line_end(s: Seq<u8>) -> int {
    choose|e: int| first_crlf(s, 0, e)
}

/// The first CRLF position is unique.
pub proof fn lemma_first_crlf_unique(s: Seq<u8>, from: int, e1: int, e2: int)
    requires
        first_crlf(s, from, e1),
        first_crlf(s, from, e2),
    ensures
        e1 == e2,
{
}

/// A witness for the first CRLF pins down `line_end`.
pub proof fn lemma_line_end(s: Seq<u8>, e: int)
    requires
        first_crlf(s, 0, e),
    ensures
        has_line(s),
        line_end(s) == e,
{
    assert(has_line(s));
    lemma_first_crlf_unique(s, 0, e, line_end(s));
}

/// A first CRLF of `s` at or after `from` is the first CRLF of `s.skip(from)`.
pub proof fn lemma_first_crlf_shift(s: Seq<u8>, from: int, e: int)
    requires
        0 <= from,
        first_crlf(s, from, e),
    ensures
        has_line(s.skip(from)),
        line_end(s.skip(from)) == e - from,
{
    assert(is_crlf_at(s.skip(from), e - from));
    assert forall|j: int| 0 <= j < e - from implies !is_crlf_at(s.skip(from), j) by {
        if is_crlf_at(s.skip(from), j) {
            assert(s[from + j] == CR);
            assert(s[from + j + 1] == LF);
            assert(is_crlf_at(s, from + j));
        }
    }
    lemma_line_end(s.skip(from), e - from);
}

/// If no CRLF pair starts at or after `from`, the tail has no line.
pub proof fn lemma_no_crlf_shift(s: Seq<u8>, from: int)
    requires
        0 <= from <= s.len(),
        forall|j: int| from <= j ==> !is_crlf_at(s, j),
    ensures
        !has_line(s.skip(from)),
{
    assert forall|e: int| !first_crlf(s.skip(from), 0, e) by {
        if is_crlf_at(s.skip(from), e) {
            assert(s[from + e] == CR);
            assert(s[from + e + 1] == LF);
            assert(is_crlf_at(s, from + e));
        }
    }
}

/// Appends all of `src` to `dst`.
pub fn push_all(dst: &mut Vec<u8>, src: &Vec<u8>)
    ensures
        final(dst)@ == old(dst)@ + src@,
{
    let mut i: usize = 0;
    while i < src.len()
        invariant
            i <= src@.len(),
            dst@ == old(dst)@ + src@.take(i as int),
        decreases src@.len() - i,
    {
        dst.push(src[i]);
        i = i + 1;
        proof {
            assert(old(dst)@ + src@.take(i as int) =~= (old(dst)@ + src@.take(i - 1)).push(
                src@[i - 1],
            ));
        }
    }
    proof {
        assert(src@.take(src@.len() as int) =~= src@);
    }
}

/// Finds the first CRLF pair at or after `from`.
pub fn find_crlf(s: &Vec<u8>, from: usize) -> (r: Option<usize>)
    requires
        from <= s@.len(),
    ensures
        match r {
            Some(e) => first_crlf(s@, from as int, e as int),
            None => forall|j: int| from <= j ==> !is_crlf_at(s@, j),
        },
{
    let mut i: usize = from;
    while s.len() >= 2 && i <= s.len() - 2
        invariant
            from <= i <= s@.len(),
            forall|j: int| from <= j < i ==> !is_crlf_at(s@, j),
        decreases s@.len() - i,
    {
        if s[i] == CR && s[i + 1] == LF {
            return Some(i);
        }
        i = i + 1;
    }
    None
}

} // verus!
