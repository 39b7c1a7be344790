use h1_client::body::{select_body, BodyReader, ReadStep};
use h1_client::chunked::{encode_chunk, encode_chunked_body, encode_last_chunk};
use h1_client::decode::{decode_head, framing_of, parse_status_line, Framing};
use h1_client::encode::{encode_request, encode_request_head, Encoder, Request, RequestBody};
use h1_client::error::HttpError;
use h1_client::headers::HeaderField;

fn b(s: &str) -> Vec<u8> {
    s.as_bytes().to_vec()
}

fn header(name: &str, value: &str) -> HeaderField {
    HeaderField { name: b(name), value: b(value) }
}

fn drain(body: &mut BodyReader) -> Result<Vec<u8>, HttpError> {
    body.read_all()
}

#[test]
fn chunked_round_trip_exact() {
    let payload = b("hello, chunked world");
    let wire = encode_chunked_body(&payload);
    let mut body = select_body(Framing::Chunked, wire, 0);
    let out = drain(&mut body).unwrap();
    assert_eq!(out, payload);
}

#[test]
fn chunked_round_trip_empty() {
    let payload: Vec<u8> = Vec::new();
    let wire = encode_chunked_body(&payload);
    assert_eq!(wire, b("0\r\n\r\n"));
    let mut body = select_body(Framing::Chunked, wire, 0);
    let out = drain(&mut body).unwrap();
    assert_eq!(out, payload);
}

#[test]
fn chunked_round_trip_binary() {
    let payload: Vec<u8> = (0u16..=255).map(|x| x as u8).collect();
    let wire = encode_chunked_body(&payload);
    let mut body = select_body(Framing::Chunked, wire, 0);
    let out = drain(&mut body).unwrap();
    assert_eq!(out, payload);
}

#[test]
fn chunk_encoding_is_exact() {
    assert_eq!(encode_chunk(&b("hello")), b("5\r\nhello\r\n"));
    assert_eq!(encode_chunk(&b("")), b(""));
    assert_eq!(encode_last_chunk(), b("0\r\n\r\n"));
    let thirty = b("abcdefghijklmnopqrstuvwxyz0123");
    assert_eq!(encode_chunk(&thirty), b("1e\r\nabcdefghijklmnopqrstuvwxyz0123\r\n"));
}

#[test]
fn wikipedia_chunks_decode() {
    let wire = b("4\r\nWiki\r\n5\r\npedia\r\n0\r\n\r\n");
    let mut body = select_body(Framing::Chunked, wire, 0);
    let mut out = Vec::new();
    loop {
        match body.read(3).unwrap() {
            ReadStep::Data(d) => out.extend_from_slice(&d),
            ReadStep::End => break,
        }
    }
    assert_eq!(out, b("Wikipedia"));
    let trailers = body.trailer_fields().unwrap();
    assert_eq!(trailers.len(), 0);
    // end-of-stream is permanent
    assert!(matches!(body.read(3).unwrap(), ReadStep::End));
}

#[test]
fn chunked_missing_terminating_chunk_is_eof_error() {
    let wire = b("4\r\nWiki\r\n5\r\npedia\r\n");
    let mut body = select_body(Framing::Chunked, wire, 0);
    let err = loop {
        match body.read(1024) {
            Ok(ReadStep::Data(_)) => continue,
            Ok(ReadStep::End) => panic!("truncated stream must not end cleanly"),
            Err(e) => break e,
        }
    };
    assert_eq!(err, HttpError::UnexpectedEndOfData);
}

#[test]
fn malformed_chunk_size_is_sticky() {
    let wire = b("xyz\r\nWiki\r\n0\r\n\r\n");
    let mut body = select_body(Framing::Chunked, wire, 0);
    assert_eq!(body.read(1024), Err(HttpError::MalformedChunkSize));
    // every later read returns the same error
    assert_eq!(body.read(1024), Err(HttpError::MalformedChunkSize));
    assert_eq!(body.read(1), Err(HttpError::MalformedChunkSize));
    assert_eq!(body.read_all(), Err(HttpError::MalformedChunkSize));
}

#[test]
fn chunk_missing_terminator_crlf() {
    let wire = b("4\r\nWikiXX0\r\n\r\n");
    let mut body = select_body(Framing::Chunked, wire, 0);
    let err = loop {
        match body.read(1024) {
            Ok(ReadStep::Data(_)) => continue,
            Ok(ReadStep::End) => panic!("malformed stream must not end cleanly"),
            Err(e) => break e,
        }
    };
    assert_eq!(err, HttpError::MissingChunkTerminator);
}

#[test]
fn oversized_chunk_size_is_malformed() {
    // 2^68 does not fit any machine word
    let wire = b("10000000000000000\r\nWiki\r\n0\r\n\r\n");
    let mut body = select_body(Framing::Chunked, wire, 0);
    assert_eq!(body.read_all(), Err(HttpError::MalformedChunkSize));
}

#[test]
fn chunk_size_hex_is_case_insensitive() {
    let wire = b("A\r\n0123456789\r\n0\r\n\r\n");
    let mut body = select_body(Framing::Chunked, wire, 0);
    assert_eq!(body.read_all().unwrap(), b("0123456789"));
    let wire2 = b("a\r\n0123456789\r\n0\r\n\r\n");
    let mut body2 = select_body(Framing::Chunked, wire2, 0);
    assert_eq!(body2.read_all().unwrap(), b("0123456789"));
}

#[test]
fn chunked_trailers_are_collected() {
    let wire = b("4\r\nWiki\r\n0\r\nExpires: never\r\n\r\n");
    let mut body = select_body(Framing::Chunked, wire, 0);
    let out = body.read_all().unwrap();
    assert_eq!(out, b("Wiki"));
    let trailers = body.trailer_fields().unwrap();
    assert_eq!(trailers.len(), 1);
    assert_eq!(trailers[0].name, b("Expires"));
    assert_eq!(trailers[0].value, b("never"));
}

#[test]
fn chunk_extension_is_ignored() {
    let wire = b("4;name=value\r\nWiki\r\n0\r\n\r\n");
    let mut body = select_body(Framing::Chunked, wire, 0);
    assert_eq!(body.read_all().unwrap(), b("Wiki"));
}

#[test]
fn fixed_length_yields_exactly_n_and_leaves_remainder() {
    let data = b("0123456789NEXT-EXCHANGE");
    let mut body = select_body(Framing::FixedLength { len: 10 }, data, 0);
    let out = body.read_all().unwrap();
    assert_eq!(out, b("0123456789"));
    // end-of-stream even though more bytes are buffered
    assert!(matches!(body.read(100).unwrap(), ReadStep::End));
    // the remainder was never consumed
    assert_eq!(body.remainder().unwrap(), b("NEXT-EXCHANGE"));
}

#[test]
fn empty_stream_does_no_work() {
    let data = b("these bytes are never touched");
    let mut body = select_body(Framing::NoBody, data, 0);
    assert!(matches!(body.read(10).unwrap(), ReadStep::End));
    assert!(matches!(body.read(10).unwrap(), ReadStep::End));
    assert_eq!(body.read_all().unwrap(), b(""));
}

#[test]
fn close_delimited_reads_to_transport_end() {
    let data = b("all the way to the end");
    let mut body = select_body(Framing::CloseDelimited, data.clone(), 0);
    assert_eq!(body.read_all().unwrap(), data);
}

#[test]
fn status_line_parses_exactly() {
    let line = b("HTTP/1.1 200 OK");
    let (code, reason) = parse_status_line(&line, 0, line.len()).unwrap();
    assert_eq!(code, 200);
    assert_eq!(reason, b("OK"));

    let no_reason = b("HTTP/1.1 204");
    let (code, reason) = parse_status_line(&no_reason, 0, no_reason.len()).unwrap();
    assert_eq!(code, 204);
    assert_eq!(reason, b(""));
}

#[test]
fn status_line_rejects_malformed() {
    for bad in [
        "HTTP/1.0 200 OK",
        "HTTP/1.1 2x0 OK",
        "HTTP/1.1 099 low",
        "HTTP/1.1 600 high",
        "HTTP/1.1",
        "ICY 200 OK",
        "HTTP/1.1 200x",
    ] {
        let line = b(bad);
        assert_eq!(
            parse_status_line(&line, 0, line.len()),
            Err(HttpError::MalformedStatusLine),
            "{bad:?} must be rejected"
        );
    }
}

#[test]
fn head_decode_collects_headers_in_order() {
    let wire = b("HTTP/1.1 200 OK\r\nServer: a\r\nSet-Cookie: one\r\nset-cookie: two\r\n\r\nrest");
    let (head, body_start) = decode_head(&wire, 0).unwrap();
    assert_eq!(head.status, 200);
    assert_eq!(head.reason, b("OK"));
    assert_eq!(head.headers.len(), 3);
    assert_eq!(head.headers[1].name, b("Set-Cookie"));
    assert_eq!(head.headers[1].value, b("one"));
    assert_eq!(head.headers[2].name, b("set-cookie"));
    assert_eq!(head.headers[2].value, b("two"));
    assert_eq!(&wire[body_start..], b("rest").as_slice());
}

#[test]
fn head_decode_rejects_continuation_line() {
    let wire = b("HTTP/1.1 200 OK\r\nServer: a\r\n folded\r\n\r\n");
    assert_eq!(decode_head(&wire, 0), Err(HttpError::MalformedHeaderLine));
}

#[test]
fn head_decode_rejects_truncated_head() {
    let wire = b("HTTP/1.1 200 OK\r\nServer: a\r\n");
    assert_eq!(decode_head(&wire, 0), Err(HttpError::UnexpectedEndOfData));
}

#[test]
fn head_decode_rejects_oversized_head() {
    let mut wire = b("HTTP/1.1 200 OK\r\n");
    for i in 0..900 {
        wire.extend_from_slice(format!("X-Filler-{i}: aaaaaaaaaaaaaaaa\r\n").as_bytes());
    }
    wire.extend_from_slice(b"\r\n");
    assert_eq!(decode_head(&wire, 0), Err(HttpError::HeaderBlockTooLarge));
}

#[test]
fn framing_chunked_wins_over_content_length() {
    let wire =
        b("HTTP/1.1 200 OK\r\nContent-Length: 3\r\nTransfer-Encoding: chunked\r\n\r\n9\r\nWikipedia\r\n0\r\n\r\n");
    let (head, body_start) = decode_head(&wire, 0).unwrap();
    let framing = framing_of(&head, false);
    assert_eq!(framing, Framing::Chunked);
    // the content-length of 3 is never used to bound the body
    let mut body = select_body(framing, wire, body_start);
    assert_eq!(body.read_all().unwrap(), b("Wikipedia"));
}

#[test]
fn framing_last_coding_decides() {
    let wire = b("HTTP/1.1 200 OK\r\nTransfer-Encoding: gzip, CHUNKED\r\n\r\n");
    let (head, _) = decode_head(&wire, 0).unwrap();
    assert_eq!(framing_of(&head, false), Framing::Chunked);

    let wire2 = b("HTTP/1.1 200 OK\r\nTransfer-Encoding: chunked, gzip\r\n\r\n");
    let (head2, _) = decode_head(&wire2, 0).unwrap();
    assert_eq!(framing_of(&head2, false), Framing::CloseDelimited);
}

#[test]
fn bodiless_status_beats_content_length() {
    for status in ["204 No Content", "304 Not Modified", "100 Continue"] {
        let wire = b(&format!("HTTP/1.1 {status}\r\nContent-Length: 5\r\n\r\nxxxxx"));
        let (head, body_start) = decode_head(&wire, 0).unwrap();
        let framing = framing_of(&head, false);
        assert_eq!(framing, Framing::NoBody, "{status}");
        let mut body = select_body(framing, wire, body_start);
        assert_eq!(body.read_all().unwrap(), b(""));
    }
}

#[test]
fn head_exchange_has_no_body() {
    let wire = b("HTTP/1.1 200 OK\r\nContent-Length: 5\r\n\r\n");
    let (head, _) = decode_head(&wire, 0).unwrap();
    assert_eq!(framing_of(&head, true), Framing::NoBody);
    assert_eq!(framing_of(&head, false), Framing::FixedLength { len: 5 });
}

#[test]
fn framing_defaults() {
    let wire = b("HTTP/1.1 200 OK\r\nServer: x\r\n\r\n");
    let (head, _) = decode_head(&wire, 0).unwrap();
    assert_eq!(framing_of(&head, false), Framing::CloseDelimited);

    let wire2 = b("HTTP/1.1 200 OK\r\nContent-Length: junk\r\n\r\n");
    let (head2, _) = decode_head(&wire2, 0).unwrap();
    assert_eq!(framing_of(&head2, false), Framing::CloseDelimited);

    let wire3 = b("HTTP/1.1 200 OK\r\ncontent-LENGTH: 7\r\n\r\n");
    let (head3, _) = decode_head(&wire3, 0).unwrap();
    assert_eq!(framing_of(&head3, false), Framing::FixedLength { len: 7 });
}

#[test]
fn header_values_are_trimmed() {
    let wire = b("HTTP/1.1 200 OK\r\nServer:   spaced out  \r\n\r\n");
    let (head, _) = decode_head(&wire, 0).unwrap();
    assert_eq!(head.headers[0].name, b("Server"));
    assert_eq!(head.headers[0].value, b("spaced out"));
}

#[test]
fn request_encoding_with_fixed_body() {
    let req = Request {
        method: b("POST"),
        target: b("/submit"),
        headers: vec![header("Host", "example.com"), header("Accept", "*/*")],
        body: RequestBody::Fixed(b("hello")),
    };
    let wire = encode_request(&req);
    assert_eq!(
        wire,
        b("POST /submit HTTP/1.1\r\nHost: example.com\r\nAccept: */*\r\ncontent-length: 5\r\n\r\nhello")
    );
}

#[test]
fn request_encoding_streamed_declares_chunked() {
    let req = Request {
        method: b("GET"),
        target: b("/"),
        headers: vec![header("Host", "example.com")],
        body: RequestBody::Streamed,
    };
    let head = encode_request_head(&req);
    assert_eq!(
        head,
        b("GET / HTTP/1.1\r\nHost: example.com\r\ntransfer-encoding: chunked\r\n\r\n")
    );
}

#[test]
fn encoder_cursor_yields_bytes_incrementally() {
    let req = Request {
        method: b("GET"),
        target: b("/x"),
        headers: Vec::new(),
        body: RequestBody::Fixed(b("ab")),
    };
    let whole = encode_request(&req);
    let mut enc = Encoder::new(&req);
    let mut out = Vec::new();
    loop {
        let piece = enc.read(7);
        if piece.is_empty() {
            break;
        }
        assert!(piece.len() <= 7);
        out.extend_from_slice(&piece);
    }
    assert_eq!(out, whole);
}

#[test]
fn trailers_merge_into_response_headers() {
    let wire = b(
        "HTTP/1.1 200 OK\r\nServer: x\r\nTransfer-Encoding: chunked\r\n\r\n4\r\nWiki\r\n0\r\nExpires: never\r\n\r\n",
    );
    let (mut head, mut body) = h1_client::body::decode_response(wire, false).unwrap();
    assert_eq!(body.read_all().unwrap(), b("Wiki"));
    h1_client::body::merge_trailers(&mut head, &body);
    assert_eq!(head.headers.len(), 3);
    assert_eq!(head.headers[2].name, b("Expires"));
    assert_eq!(head.headers[2].value, b("never"));
}

#[test]
fn whole_exchange_decode() {
    let wire = b("HTTP/1.1 200 OK\r\nContent-Length: 9\r\n\r\nWikipedia!!");
    let (head, mut body) = h1_client::body::decode_response(wire, false).unwrap();
    assert_eq!(head.status, 200);
    assert_eq!(body.read_all().unwrap(), b("Wikipedia"));
    assert_eq!(body.remainder().unwrap(), b("!!"));
}
