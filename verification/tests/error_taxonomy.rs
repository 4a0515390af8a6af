use chatge::errors::{classify_read_failure, HttpError, ToResult};

#[test]
fn messages_name_the_failure_class() {
    assert_eq!(
        HttpError::ConfigurationError("bad verb".to_string()).message(),
        "configuration error: bad verb"
    );
    assert_eq!(
        HttpError::ConnectionError("refused".to_string()).message(),
        "connection error: refused"
    );
    assert_eq!(
        HttpError::TimeoutError("30 s".to_string()).message(),
        "timeout error: 30 s"
    );
    assert_eq!(
        HttpError::ProtocolError("bad chunk".to_string()).message(),
        "protocol error: bad chunk"
    );
    assert_eq!(
        HttpError::UpstreamError(404, b"gone".to_vec()).message(),
        "upstream error: status 404"
    );
}

#[test]
fn read_timeout_classifies_as_timeout_error() {
    match classify_read_failure(true, "no data within 30 s") {
        HttpError::TimeoutError(d) => assert_eq!(d, "no data within 30 s"),
        other => panic!("expected a timeout error, got {:?}", other),
    }
    match classify_read_failure(false, "connection reset") {
        HttpError::ConnectionError(d) => assert_eq!(d, "connection reset"),
        other => panic!("expected a connection error, got {:?}", other),
    }
}

#[test]
fn to_result_keeps_success_and_prefixes_failure() {
    let ok: Result<u32, HttpError> = Ok(7);
    assert_eq!(ok.to_result("reading body"), Ok(7));
    let err: Result<u32, HttpError> = Err(HttpError::TimeoutError("read".to_string()));
    assert_eq!(
        err.to_result("reading body"),
        Err("reading body. timeout error: read".to_string())
    );
}
