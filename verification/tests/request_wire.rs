use chatge::request::{HttpMethod, HttpRequest};

fn text(bytes: Vec<u8>) -> String {
    String::from_utf8(bytes).expect("serialized request is valid UTF-8")
}

#[test]
fn serialize_post_with_body() {
    let req = HttpRequest::new("localhost:11434".to_string())
        .set_method(HttpMethod::Post)
        .set_endpoint("/api/chat")
        .set_header("Host", "localhost:11434")
        .set_header("Content-Type", "application/json")
        .set_body(b"hello".to_vec());
    let wire = text(req.serialize());
    assert_eq!(
        wire,
        "POST /api/chat HTTP/1.1\r\nHost: localhost:11434\r\nContent-Type: application/json\r\nContent-length: 5\r\n\r\nhello"
    );
}

#[test]
fn content_length_equals_exact_body_length() {
    for body in [Vec::new(), b"x".to_vec(), b"some longer body, 28 bytes..".to_vec()] {
        let n = body.len();
        let req = HttpRequest::new("h:1".to_string())
            .set_method(HttpMethod::Post)
            .set_body(body);
        let wire = text(req.serialize());
        let marker = format!("Content-length: {}\r\n\r\n", n);
        assert!(wire.contains(&marker), "missing {:?} in {:?}", marker, wire);
    }
}

#[test]
fn serialize_bodyless_request_is_well_formed() {
    let req = HttpRequest::new("h:1".to_string());
    let wire = text(req.serialize());
    assert_eq!(wire, "GET / HTTP/1.1\r\n\r\n");
    assert!(!wire.contains("Content-length"));
}

#[test]
fn every_verb_has_a_wire_token() {
    let cases = [
        (HttpMethod::Get, "GET / HTTP/1.1\r\n\r\n"),
        (HttpMethod::Post, "POST / HTTP/1.1\r\n\r\n"),
        (HttpMethod::Put, "PUT / HTTP/1.1\r\n\r\n"),
        (HttpMethod::Delete, "DELETE / HTTP/1.1\r\n\r\n"),
    ];
    for (m, expected) in cases {
        let req = HttpRequest::new("h:1".to_string()).set_method(m);
        assert_eq!(text(req.serialize()), expected);
    }
}

#[test]
fn set_header_overwrites_on_duplicate_name() {
    let req = HttpRequest::new("h:1".to_string())
        .set_header("Host", "first")
        .set_header("Host", "second");
    let wire = text(req.serialize());
    assert!(wire.contains("Host: second\r\n"));
    assert!(!wire.contains("first"));
}

#[test]
fn set_header_matches_names_case_insensitively() {
    let req = HttpRequest::new("h:1".to_string())
        .set_header("Host", "first")
        .set_header("host", "second");
    let wire = text(req.serialize());
    assert!(wire.contains("host: second\r\n"));
    assert!(!wire.contains("first"));
    assert!(!wire.contains("Host:"));
}

#[test]
fn header_values_sent_verbatim() {
    let req = HttpRequest::new("h:1".to_string()).set_header("X-Mixed-Case", "VaLuE");
    let wire = text(req.serialize());
    assert!(wire.contains("X-Mixed-Case: VaLuE\r\n"));
}
