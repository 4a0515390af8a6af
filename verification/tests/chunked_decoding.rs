use chatge::chunked::{decode_step, read_chunked_body, DecodeState};
use chatge::errors::HttpError;

#[test]
fn decodes_wikipedia_stream() {
    let input = b"4\r\nWiki\r\n5\r\npedia\r\n0\r\n\r\n";
    let chunks = read_chunked_body(input).expect("stream is well formed");
    assert_eq!(chunks, vec![b"Wiki".to_vec(), b"pedia".to_vec()]);
    let joined: Vec<u8> = chunks.concat();
    assert_eq!(joined, b"Wikipedia".to_vec());
}

#[test]
fn terminal_zero_chunk_halts_decoding() {
    let input = b"4\r\nWiki\r\n0\r\nleftover bytes that must not appear";
    let chunks = read_chunked_body(input).expect("stream is well formed");
    assert_eq!(chunks, vec![b"Wiki".to_vec()]);
}

#[test]
fn malformed_size_line_is_protocol_error() {
    let input = b"zz\r\nWiki\r\n0\r\n\r\n";
    match read_chunked_body(input) {
        Err(HttpError::ProtocolError(_)) => {}
        other => panic!("expected a protocol error, got {:?}", other),
    }
}

#[test]
fn empty_size_line_is_protocol_error() {
    match read_chunked_body(b"\r\nWiki\r\n0\r\n\r\n") {
        Err(HttpError::ProtocolError(_)) => {}
        other => panic!("expected a protocol error, got {:?}", other),
    }
}

#[test]
fn truncated_payload_is_protocol_error() {
    match read_chunked_body(b"c\r\nshort\r\n0\r\n\r\n") {
        Err(HttpError::ProtocolError(_)) => {}
        other => panic!("expected a protocol error, got {:?}", other),
    }
}

#[test]
fn unterminated_size_line_is_protocol_error() {
    match read_chunked_body(b"4") {
        Err(HttpError::ProtocolError(_)) => {}
        other => panic!("expected a protocol error, got {:?}", other),
    }
}

#[test]
fn hex_sizes_accept_both_cases() {
    let input = b"A\r\n0123456789\r\na\r\nabcdefghij\r\n0\r\n\r\n";
    let chunks = read_chunked_body(input).expect("stream is well formed");
    assert_eq!(chunks, vec![b"0123456789".to_vec(), b"abcdefghij".to_vec()]);
}

#[test]
fn payload_may_hold_embedded_line_breaks() {
    let input = b"5\r\na\r\nb\r\r\n0\r\n";
    let chunks = read_chunked_body(input).expect("stream is well formed");
    assert_eq!(chunks, vec![b"a\r\nb\r".to_vec()]);
}

#[test]
fn immediate_terminal_chunk_is_empty_body() {
    let chunks = read_chunked_body(b"0

").expect("stream is well formed");
    assert_eq!(chunks, Vec::<Vec<u8>>::new());
}

#[test]
fn step_machine_walks_one_chunk() {
    let input = b"4\r\nWiki\r\n0\r\n";
    let (s1, p1, e1) = decode_step(DecodeState::ReadSize, input, 0).unwrap();
    assert_eq!(s1, DecodeState::ReadPayload(4));
    assert_eq!(p1, 3);
    assert!(e1.is_none());
    let (s2, p2, e2) = decode_step(s1, input, p1).unwrap();
    assert_eq!(s2, DecodeState::ReadTrailingCrlf);
    assert_eq!(p2, 7);
    assert_eq!(e2, Some(b"Wiki".to_vec()));
    let (s3, p3, e3) = decode_step(s2, input, p2).unwrap();
    assert_eq!(s3, DecodeState::ReadSize);
    assert_eq!(p3, 9);
    assert!(e3.is_none());
    let (s4, _p4, e4) = decode_step(s3, input, p3).unwrap();
    assert_eq!(s4, DecodeState::Done);
    assert!(e4.is_none());
}
