//! Error kinds for one HTTP/1.1 exchange. All parse-level errors are fatal
//! to the current exchange and sticky on any stream already handed out.

use vstd::prelude::*;

verus! {

/// What went wrong while encoding or decoding an exchange.
#[derive(Clone, Copy, Debug, PartialEq, Eq, Structural)]
pub enum HttpError {
    /// I/O failure of the underlying duplex transport; never retried here.
    TransportFailure,
    /// The status line is not `HTTP/1.1 <three-digit code> [<reason>]`.
    MalformedStatusLine,
    /// A header line has no colon, or looks like an obsolete continuation.
    MalformedHeaderLine,
    /// The header block exceeds the fixed size bound.
    HeaderBlockTooLarge,
    /// A chunk-size line is empty, not hex-leading, oversized, or holds a
    /// control byte in its extension.
    MalformedChunkSize,
    /// The CRLF after a chunk's data bytes is missing.
    MissingChunkTerminator,
    /// The transport ended mid-header or mid-chunk where more data was owed.
    UnexpectedEndOfData,
}

impl HttpError {
    /// A short human-readable description.
    pub fn message(&self) -> (r: &'static str) {
        match self {
            HttpError::TransportFailure => "transport failure",
            HttpError::MalformedStatusLine => "malformed status line",
            HttpError::MalformedHeaderLine => "malformed header line",
            HttpError::HeaderBlockTooLarge => "header block too large",
            HttpError::MalformedChunkSize => "malformed chunk size",
            HttpError::MissingChunkTerminator => "missing chunk terminator",
            HttpError::UnexpectedEndOfData => "unexpected end of data",
        }
    }
}

} // verus!
