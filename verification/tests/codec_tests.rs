use primesocket_core::protocol::{ReqTask, Request, RespStatus, RespTask, Response};

fn assert_request_roundtrip(request: Request) -> Request {
    let bytes = request.to_json();
    Request::from_json(&bytes).expect("canonical bytes must decode")
}

fn assert_response_roundtrip(response: Response) -> Response {
    let bytes = response.to_json();
    Response::from_json(&bytes).expect("canonical bytes must decode")
}

/// The exact bytes of a bare request.
#[test]
fn test_encode_start_request() {
    let request = Request { task: ReqTask::Start, end: None, primes: None };
    assert_eq!(request.to_json(), b"{\"task\":\"start\"}".to_vec());
}

/// The exact bytes of a full save request.
#[test]
fn test_encode_save_request() {
    let request = Request { task: ReqTask::Save, end: Some(30), primes: Some(vec![11, 13]) };
    assert_eq!(request.to_json(), b"{\"task\":\"save\",\"end\":30,\"primes\":[11,13]}".to_vec());
}

/// The exact bytes of a range response.
#[test]
fn test_encode_range_response() {
    let response = Response {
        task: RespTask::Range,
        status: RespStatus::Processing,
        start: Some(0),
        end: Some(10),
        primes: Some(vec![2, 3]),
    };
    assert_eq!(
        response.to_json(),
        b"{\"task\":\"range\",\"status\":\"processing\",\"start\":0,\"end\":10,\"primes\":[2,3]}"
            .to_vec()
    );
}

/// Requests of every field shape decode back to what was encoded.
#[test]
fn test_request_roundtrip() {
    let full = assert_request_roundtrip(Request {
        task: ReqTask::Save,
        end: Some(4294967295),
        primes: Some(vec![0, 1, 4294967295]),
    });
    assert_eq!(full.task, ReqTask::Save);
    assert_eq!(full.end, Some(4294967295));
    assert_eq!(full.primes, Some(vec![0, 1, 4294967295]));

    let bare = assert_request_roundtrip(Request { task: ReqTask::Close, end: None, primes: None });
    assert_eq!(bare.task, ReqTask::Close);
    assert_eq!(bare.end, None);
    assert_eq!(bare.primes, None);

    let empty_list = assert_request_roundtrip(Request {
        task: ReqTask::Continue,
        end: Some(0),
        primes: Some(vec![]),
    });
    assert_eq!(empty_list.end, Some(0));
    assert_eq!(empty_list.primes, Some(vec![]));
}

/// Responses of every field shape decode back to what was encoded.
#[test]
fn test_response_roundtrip() {
    let full = assert_response_roundtrip(Response {
        task: RespTask::Done,
        status: RespStatus::Completed,
        start: Some(7),
        end: Some(100),
        primes: Some(vec![2, 3, 5, 7]),
    });
    assert_eq!(full.task, RespTask::Done);
    assert_eq!(full.status, RespStatus::Completed);
    assert_eq!(full.start, Some(7));
    assert_eq!(full.end, Some(100));
    assert_eq!(full.primes, Some(vec![2, 3, 5, 7]));

    let bare = assert_response_roundtrip(Response {
        task: RespTask::Error,
        status: RespStatus::Invalid,
        start: None,
        end: None,
        primes: None,
    });
    assert_eq!(bare.task, RespTask::Error);
    assert_eq!(bare.status, RespStatus::Invalid);
    assert_eq!(bare.start, None);
    assert_eq!(bare.end, None);
    assert_eq!(bare.primes, None);
}

/// Malformed or truncated payloads decode to nothing rather than crashing.
#[test]
fn test_decode_rejects_malformed() {
    assert!(Request::from_json(b"").is_none());
    assert!(Request::from_json(b"{").is_none());
    assert!(Request::from_json(b"{\"task\":\"star").is_none());
    assert!(Request::from_json(b"{\"task\":\"fetch\"}").is_none());
    assert!(Request::from_json(b"{\"task\":\"save\",\"end\":}").is_none());
    assert!(Request::from_json(b"{\"task\":\"save\",\"primes\":[1,]}").is_none());
    assert!(Request::from_json(b"{\"task\":\"start\"}x").is_none());
    assert!(Response::from_json(b"{\"task\":\"range\"}").is_none());
    assert!(Response::from_json(b"{\"task\":\"range\",\"status\":\"ok\"}").is_none());
}

/// Only canonical encodings decode: padded numbers and permuted fields are
/// rejected rather than guessed at.
#[test]
fn test_decode_rejects_non_canonical() {
    assert!(Request::from_json(b"{\"task\":\"save\",\"end\":007}").is_none());
    assert!(Request::from_json(b"{\"task\":\"save\",\"primes\":[2],\"end\":7}").is_none());
    assert!(Request::from_json(b"{ \"task\":\"start\" }").is_none());
    // values past the field's width are malformed, not wrapped
    assert!(Request::from_json(b"{\"task\":\"save\",\"end\":4294967296}").is_none());
}
