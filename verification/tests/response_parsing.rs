use chatge::response::{parse_response, HttpBodyType, HttpStatus};
use chatge::errors::HttpError;

#[test]
fn chunked_framing_is_case_insensitive() {
    let upper = b"HTTP/1.1 200 OK\r\nTransfer-Encoding: Chunked\r\n\r\n4\r\nWiki\r\n0\r\n";
    let lower = b"HTTP/1.1 200 OK\r\ntransfer-encoding: chunked\r\n\r\n4\r\nWiki\r\n0\r\n";
    let ru = parse_response(upper).expect("well formed");
    let rl = parse_response(lower).expect("well formed");
    assert_eq!(ru.status, HttpStatus::Success(200));
    assert_eq!(ru.body, HttpBodyType::Chunked(vec![b"Wiki".to_vec()]));
    assert_eq!(ru, rl);
}

#[test]
fn content_length_reads_exactly_n_bytes() {
    let input = b"HTTP/1.1 200 OK\r\nContent-Length: 5\r\n\r\nhelloEXTRA";
    let r = parse_response(input).expect("well formed");
    assert_eq!(r.body, HttpBodyType::Regular(b"hello".to_vec()));
}

#[test]
fn content_length_short_stream_is_protocol_error() {
    let input = b"HTTP/1.1 200 OK\r\nContent-Length: 10\r\n\r\nhello";
    match parse_response(input) {
        Err(HttpError::ProtocolError(_)) => {}
        other => panic!("expected a protocol error, got {:?}", other),
    }
}

#[test]
fn chunked_takes_priority_over_content_length() {
    let input =
        b"HTTP/1.1 200 OK\r\nContent-Length: 4\r\nTransfer-Encoding: chunked\r\n\r\n2\r\nok\r\n0\r\n";
    let r = parse_response(input).expect("well formed");
    assert_eq!(r.body, HttpBodyType::Chunked(vec![b"ok".to_vec()]));
}

#[test]
fn eof_framing_reads_until_close() {
    let input = b"HTTP/1.1 200 OK\r\nX-Other: 1\r\n\r\nrest of the stream";
    let r = parse_response(input).expect("well formed");
    assert_eq!(r.body, HttpBodyType::Regular(b"rest of the stream".to_vec()));
}

#[test]
fn empty_eof_stream_is_empty_body_not_error() {
    let input = b"HTTP/1.1 200 OK\r\n\r\n";
    let r = parse_response(input).expect("well formed");
    assert_eq!(r.body, HttpBodyType::Empty);
    assert_eq!(r.status, HttpStatus::Success(200));
}

#[test]
fn status_codes_classify_by_leading_digit() {
    let cases: [(&[u8], HttpStatus); 5] = [
        (b"HTTP/1.1 204 No Content\r\n\r\n", HttpStatus::Success(204)),
        (b"HTTP/1.1 404 Not Found\r\n\r\n", HttpStatus::ClientError(404)),
        (b"HTTP/1.1 500 Oops\r\n\r\n", HttpStatus::ServerError(500)),
        (b"HTTP/1.1 302 Found\r\n\r\n", HttpStatus::Other(302)),
        (b"HTTP/1.1 101 Switching\r\n\r\n", HttpStatus::Other(101)),
    ];
    for (input, expected) in cases {
        let r = parse_response(input).expect("well formed");
        assert_eq!(r.status, expected);
        assert_eq!(r.status.code(), expected.code());
    }
}

#[test]
fn non_numeric_status_is_protocol_error() {
    match parse_response(b"HTTP/1.1 abc Whatever\r\n\r\n") {
        Err(HttpError::ProtocolError(_)) => {}
        other => panic!("expected a protocol error, got {:?}", other),
    }
}

#[test]
fn missing_status_token_is_protocol_error() {
    match parse_response(b"HTTP/1.1\r\n\r\n") {
        Err(HttpError::ProtocolError(_)) => {}
        other => panic!("expected a protocol error, got {:?}", other),
    }
}

#[test]
fn unterminated_header_block_is_protocol_error() {
    match parse_response(b"HTTP/1.1 200 OK\r\nX-Other: 1\r\n") {
        Err(HttpError::ProtocolError(_)) => {}
        other => panic!("expected a protocol error, got {:?}", other),
    }
}

#[test]
fn malformed_chunk_in_response_fails_whole_response() {
    let input = b"HTTP/1.1 200 OK\r\nTransfer-Encoding: chunked\r\n\r\nzz\r\n";
    match parse_response(input) {
        Err(HttpError::ProtocolError(_)) => {}
        other => panic!("expected a protocol error, got {:?}", other),
    }
}

#[test]
fn content_length_zero_is_empty_regular_body() {
    let input = b"HTTP/1.1 200 OK\r\nContent-Length: 0\r\n\r\n";
    let r = parse_response(input).expect("well formed");
    assert_eq!(r.body, HttpBodyType::Regular(Vec::new()));
}
