use http_gateway::error::GatewayError;
use http_gateway::frame::{FrameReader, FrameStep, ResponseCollector, MAX_BODY_BYTES};
use http_gateway::request::parse_request_head;

fn feed_all(chunks: &[&[u8]]) -> Result<(Vec<u8>, Vec<u8>), GatewayError> {
    let mut reader = FrameReader::new();
    for chunk in chunks {
        match reader.feed(chunk) {
            FrameStep::NeedMore(next) => reader = next,
            FrameStep::Complete(h, b) => return Ok((h, b)),
            FrameStep::Failed(e) => return Err(e),
        }
    }
    Err(reader.closed())
}

#[test]
fn parses_request_line_and_length() {
    let req = parse_request_head(b"POST /submit?a=1 HTTP/1.1\r\nHost: x\r\ncontent-LENGTH:  5 ").unwrap();
    assert_eq!(req.method, b"POST".to_vec());
    assert_eq!(req.path, b"/submit?a=1".to_vec());
    assert_eq!(req.version, b"HTTP/1.1".to_vec());
    assert_eq!(req.content_length, 5);
}

#[test]
fn missing_length_means_no_body() {
    let req = parse_request_head(b"GET / HTTP/1.1\r\nHost: x").unwrap();
    assert_eq!(req.content_length, 0);
}

#[test]
fn last_length_line_wins_and_plus_sign_is_read() {
    let req = parse_request_head(b"GET / HTTP/1.1\r\nContent-Length: 3\r\nContent-Length: +7").unwrap();
    assert_eq!(req.content_length, 7);
}

#[test]
fn extra_tokens_on_request_line_are_ignored() {
    let req = parse_request_head(b"GET  /a   HTTP/1.0 trailing").unwrap();
    assert_eq!(req.path, b"/a".to_vec());
    assert_eq!(req.version, b"HTTP/1.0".to_vec());
}

#[test]
fn short_request_line_is_malformed() {
    assert_eq!(parse_request_head(b"GET /").unwrap_err(), GatewayError::MalformedHead);
    assert_eq!(parse_request_head(b"").unwrap_err(), GatewayError::MalformedHead);
}

#[test]
fn invalid_utf8_head_is_malformed() {
    assert_eq!(
        parse_request_head(b"GET /\xff HTTP/1.1").unwrap_err(),
        GatewayError::MalformedHead
    );
}

#[test]
fn bad_length_value_is_rejected() {
    assert_eq!(
        parse_request_head(b"GET / HTTP/1.1\r\nContent-Length: abc").unwrap_err(),
        GatewayError::InvalidContentLength
    );
    assert_eq!(
        parse_request_head(b"GET / HTTP/1.1\r\nContent-Length: -1").unwrap_err(),
        GatewayError::InvalidContentLength
    );
    assert_eq!(
        parse_request_head(b"GET / HTTP/1.1\r\nContent-Length:").unwrap_err(),
        GatewayError::InvalidContentLength
    );
}

#[test]
fn frame_in_one_chunk() {
    let (h, b) = feed_all(&[b"POST /x HTTP/1.1\r\nContent-Length: 3\r\n\r\nabc"]).unwrap();
    assert_eq!(h, b"POST /x HTTP/1.1\r\nContent-Length: 3".to_vec());
    assert_eq!(b, b"abc".to_vec());
}

#[test]
fn frame_across_chunks() {
    let (h, b) = feed_all(&[
        b"POST /x HTTP/1.1\r\nConte",
        b"nt-Length: 4\r\n",
        b"\r\nab",
        b"c",
        b"d",
    ])
    .unwrap();
    assert_eq!(h, b"POST /x HTTP/1.1\r\nContent-Length: 4".to_vec());
    assert_eq!(b, b"abcd".to_vec());
}

#[test]
fn excess_body_bytes_are_dropped() {
    let (_, b) = feed_all(&[b"POST /x HTTP/1.1\r\nContent-Length: 2\r\n\r\nabcdef"]).unwrap();
    assert_eq!(b, b"ab".to_vec());
    let (_, b) = feed_all(&[b"POST /x HTTP/1.1\r\nContent-Length: 3\r\n\r\na", b"bcdef"]).unwrap();
    assert_eq!(b, b"abc".to_vec());
}

#[test]
fn bodyless_request_ignores_trailing_bytes() {
    let (h, b) = feed_all(&[b"GET / HTTP/1.1\r\n\r\nleftover"]).unwrap();
    assert_eq!(h, b"GET / HTTP/1.1".to_vec());
    assert!(b.is_empty());
}

#[test]
fn completed_frame_body_matches_declared_length() {
    let (h, b) = feed_all(&[b"PUT /k HTTP/1.1\r\ncontent-length: 10\r\n\r\n0123", b"456789XYZ"]).unwrap();
    let req = parse_request_head(&h).unwrap();
    assert_eq!(req.content_length, b.len());
}

#[test]
fn oversized_body_fails_when_head_completes() {
    let head = format!("POST /x HTTP/1.1\r\nContent-Length: {}\r\n\r\n", MAX_BODY_BYTES + 1);
    let reader = FrameReader::new();
    match reader.feed(head.as_bytes()) {
        FrameStep::Failed(e) => assert_eq!(e, GatewayError::BodyTooLarge),
        _ => panic!("expected BodyTooLarge"),
    }
}

#[test]
fn body_at_the_ceiling_is_accepted() {
    let head = format!("POST /x HTTP/1.1\r\nContent-Length: {}\r\n\r\n", MAX_BODY_BYTES);
    let reader = FrameReader::new();
    match reader.feed(head.as_bytes()) {
        FrameStep::NeedMore(next) => assert!(next.awaiting_body()),
        _ => panic!("expected to wait for the body"),
    }
}

#[test]
fn oversized_head_fails() {
    let mut reader = FrameReader::new();
    let chunk = vec![b'a'; 4096];
    let mut failed = None;
    for _ in 0..17 {
        match reader.feed(&chunk) {
            FrameStep::NeedMore(next) => reader = next,
            FrameStep::Complete(_, _) => panic!("no terminator was sent"),
            FrameStep::Failed(e) => {
                failed = Some(e);
                break;
            }
        }
    }
    assert_eq!(failed, Some(GatewayError::HeadersTooLarge));
}

#[test]
fn early_close_errors() {
    assert_eq!(feed_all(&[]).unwrap_err(), GatewayError::ConnectionClosedEarly);
    assert_eq!(
        feed_all(&[b"GET / HTTP/1.1\r\n"]).unwrap_err(),
        GatewayError::ConnectionClosedEarly
    );
    assert_eq!(
        feed_all(&[b"POST / HTTP/1.1\r\nContent-Length: 9\r\n\r\nabc"]).unwrap_err(),
        GatewayError::IncompleteBody
    );
}

#[test]
fn response_collector_enforces_ceiling() {
    let mut c = ResponseCollector::new();
    assert!(c.push(b"HTTP/1.1 200 OK\r\n\r\nhi").is_ok());
    assert_eq!(c.finish(), b"HTTP/1.1 200 OK\r\n\r\nhi".to_vec());
    let mut c = ResponseCollector::new();
    let big = vec![0u8; 10 * 1024 * 1024];
    assert!(c.push(&big).is_ok());
    assert_eq!(c.push(b"x"), Err(GatewayError::ResponseTooLarge));
}

#[test]
fn unicode_whitespace_separates_tokens() {
    let req = parse_request_head("GET\u{a0}/a\u{3000}HTTP/1.1\u{2009}".as_bytes()).unwrap();
    assert_eq!(req.method, b"GET".to_vec());
    assert_eq!(req.path, b"/a".to_vec());
    assert_eq!(req.version, b"HTTP/1.1".to_vec());
}

#[test]
fn unicode_whitespace_is_trimmed_from_length() {
    let head = "GET / HTTP/1.1\r\nContent-Length:\u{a0}5\u{85}".as_bytes();
    assert_eq!(parse_request_head(head).unwrap().content_length, 5);
    let head = "GET / HTTP/1.1\r\nContent-Length: 5\u{200b}".as_bytes();
    assert_eq!(parse_request_head(head).unwrap_err(), GatewayError::InvalidContentLength);
}
