use chatge::chat::{
    build_chat_body, build_chat_request, classify_line, interpret_chat_response, reduce_lines,
    reduce_ndjson, NdjsonLine,
};
use chatge::errors::HttpError;
use chatge::request::HttpMethod;
use chatge::response::{HttpBodyType, HttpResponse, HttpStatus};

fn lines(parts: &[&str]) -> Vec<Vec<u8>> {
    parts.iter().map(|p| p.as_bytes().to_vec()).collect()
}

#[test]
fn reduces_streamed_reply_to_hello() {
    let chunks = lines(&[
        r#"{"message":{"content":"Hel"}}"#,
        r#"{"message":{"content":"lo"}}"#,
        r#"{"done":true}"#,
    ]);
    assert_eq!(reduce_ndjson(&chunks).expect("well formed"), "Hello");
}

#[test]
fn completion_marker_halts_reduction() {
    let chunks = lines(&[
        r#"{"message":{"content":"kept"}}"#,
        r#"{"done":true}"#,
        r#"{"message":{"content":"dropped"}}"#,
    ]);
    assert_eq!(reduce_ndjson(&chunks).expect("well formed"), "kept");
}

#[test]
fn missing_completion_marker_is_protocol_error() {
    let chunks = lines(&[r#"{"message":{"content":"Hel"}}"#]);
    match reduce_ndjson(&chunks) {
        Err(HttpError::ProtocolError(_)) => {}
        other => panic!("expected a protocol error, got {:?}", other),
    }
}

#[test]
fn invalid_json_line_is_protocol_error() {
    let chunks = lines(&[r#"{"message""#, r#"{"done":true}"#]);
    match reduce_ndjson(&chunks) {
        Err(HttpError::ProtocolError(_)) => {}
        other => panic!("expected a protocol error, got {:?}", other),
    }
}

#[test]
fn classify_reads_single_lines() {
    assert_eq!(
        classify_line(br#"{"message":{"content":"seg"}}"#).unwrap(),
        NdjsonLine::Content("seg".to_string())
    );
    assert_eq!(classify_line(br#"{"done":true}"#).unwrap(), NdjsonLine::Done);
    assert_eq!(
        classify_line(br#"{"done":false,"message":{"content":"x"}}"#).unwrap(),
        NdjsonLine::Content("x".to_string())
    );
    assert_eq!(
        classify_line(br#"{"other":1}"#).unwrap(),
        NdjsonLine::Content(String::new())
    );
}

#[test]
fn reduce_lines_concatenates_before_first_done() {
    let ls = vec![
        NdjsonLine::Content("a".to_string()),
        NdjsonLine::Content("b".to_string()),
        NdjsonLine::Done,
        NdjsonLine::Content("c".to_string()),
    ];
    assert_eq!(reduce_lines(&ls).expect("has a marker"), "ab");
}

#[test]
fn chat_body_interpolates_model_and_question() {
    let body = build_chat_body("mistral", "why is the sky blue?");
    assert_eq!(
        body,
        "{\n  \"model\": \"mistral\",\n  \"messages\": [\n    {\n      \"role\": \"user\",\n      \"content\": \"why is the sky blue?\"\n    }\n  ]\n}"
    );
}

#[test]
fn chat_request_is_a_post_to_the_chat_endpoint() {
    let req = build_chat_request("localhost:11434".to_string(), "mistral", "hi");
    assert_eq!(req.method, HttpMethod::Post);
    assert_eq!(req.endpoint, "/api/chat");
    assert_eq!(req.addr, "localhost:11434");
    let body = req.body.clone().expect("chat request carries a body");
    assert_eq!(body, build_chat_body("mistral", "hi").into_bytes());
    let wire = String::from_utf8(req.serialize()).unwrap();
    assert!(wire.starts_with("POST /api/chat HTTP/1.1\r\n"));
    assert!(wire.contains("Host: localhost:11434\r\n"));
    assert!(wire.contains("Content-Type: application/json\r\n"));
}

#[test]
fn lines_may_end_in_a_newline() {
    let chunks = lines(&["{\"message\":{\"content\":\"Hi\"}}\n", "{\"done\":true}\n"]);
    assert_eq!(reduce_ndjson(&chunks).expect("well formed"), "Hi");
}

#[test]
fn whole_pipeline_assembles_the_reply() {
    let raw = b"HTTP/1.1 200 OK\r\nTransfer-Encoding: chunked\r\n\r\n\
1d\r\n{\"message\":{\"content\":\"Hel\"}}\r\n\
1c\r\n{\"message\":{\"content\":\"lo\"}}\r\n\
d\r\n{\"done\":true}\r\n\
0\r\n\r\n";
    let resp = chatge::response::parse_response(raw).expect("well formed");
    assert_eq!(interpret_chat_response(resp).expect("well formed"), "Hello");
}

#[test]
fn non_success_status_is_upstream_error_with_body() {
    let resp = HttpResponse {
        status: HttpStatus::ServerError(500),
        body: HttpBodyType::Regular(b"boom".to_vec()),
    };
    match interpret_chat_response(resp) {
        Err(HttpError::UpstreamError(code, body)) => {
            assert_eq!(code, 500);
            assert_eq!(body, b"boom".to_vec());
        }
        other => panic!("expected an upstream error, got {:?}", other),
    }
}

#[test]
fn successful_unchunked_reply_is_protocol_error() {
    let resp = HttpResponse { status: HttpStatus::Success(200), body: HttpBodyType::Empty };
    match interpret_chat_response(resp) {
        Err(HttpError::ProtocolError(_)) => {}
        other => panic!("expected a protocol error, got {:?}", other),
    }
}

#[test]
fn successful_chunked_reply_is_reduced() {
    let resp = HttpResponse {
        status: HttpStatus::Success(200),
        body: HttpBodyType::Chunked(lines(&[
            r#"{"message":{"content":"Hi"}}"#,
            r#"{"done":true}"#,
        ])),
    };
    assert_eq!(interpret_chat_response(resp).expect("well formed"), "Hi");
}
