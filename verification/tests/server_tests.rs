use primesocket_core::coordinator::{handle_datagram, handler};
use primesocket_core::protocol::{ReqTask, Request, RespStatus, RespTask, Response};
use primesocket_core::state::ServerState;

fn start_request() -> Request {
    Request { task: ReqTask::Start, end: None, primes: None }
}

fn save_request(end: u32, primes: Vec<u32>) -> Request {
    Request { task: ReqTask::Save, end: Some(end), primes: Some(primes) }
}

/// Tests the `handler` function when a "start" request is sent.
///
/// This test ensures that when a client sends a `"start"` request, the handler:
/// - Returns a response with `"task": "range"`.
/// - Has a `"status"` of `"processing"`.
/// - Contains valid `start` and `end` values.
#[test]
fn test_handler_start_request() {
    let start = 0;
    let end = 100;
    let step = 10;

    let mut server_state = ServerState::with_step(start, end, step);

    let request = start_request();

    let response = handler(&mut server_state, request);
    println!("Handler response: {:?}", response);

    assert_eq!(response.task.label(), "range");
    assert_eq!(response.status.label(), "processing");
    assert!(response.start.is_some());
    assert!(response.end.is_some());
}

/// The same behaviour holds when the state is shared and locked per request,
/// as the server loop does: the transition itself is unchanged.
#[test]
fn request_handler_test_handler_start_request() {
    let start = 0;
    let end = 100;
    let step = 10;

    let mut server_state = ServerState::with_step(start, end, step);

    let request = start_request();

    let response = handler(&mut server_state, request);
    println!("Handler response: {:?}", response);

    assert_eq!(response.task.label(), "range");
    assert_eq!(response.status.label(), "processing");
    assert!(response.start.is_some());
    assert!(response.end.is_some());
}

/// Tests the creation of a `ServerState` instance.
///
/// This test ensures that:
/// - The `end` and `step` values are correctly assigned.
/// - The `last_checked` starts at `0`.
/// - The `primes` vector is initialized with values.
/// - The initial status is "processing".
#[test]
fn test_server_state_creation() {
    let start = 0;
    let end = 100;

    let server_state = ServerState::new(start, end);

    assert_eq!(server_state.last_checked, 0);
    assert_eq!(server_state.end, 100);
    assert_eq!(server_state.step, 5);
    assert!(!server_state.primes.is_empty());
    assert_eq!(server_state.status.label(), "processing");
}

/// The derived step is one twentieth of the span, at least 1, at most 10000.
#[test]
fn test_step_derivation_clamped() {
    assert_eq!(ServerState::new(0, 10).step, 1);
    assert_eq!(ServerState::new(0, 100).step, 5);
    assert_eq!(ServerState::new(0, 4_000_000).step, 10000);
}

/// A fresh state assigns the first segment on `start` and acknowledges its
/// `save` with `continue` while work remains.
#[test]
fn test_start_then_save_advances_cursor() {
    let mut state = ServerState::with_step(0, 100, 10);

    let range = handler(&mut state, start_request());
    assert_eq!(range.task.label(), "range");
    assert_eq!(range.start, Some(0));
    assert_eq!(range.end, Some(10));

    let ack = handler(&mut state, save_request(10, vec![2, 3, 5, 7]));
    assert_eq!(state.last_checked, 10);
    assert_eq!(ack.task.label(), "continue");
    assert_eq!(ack.status.label(), "processing");
}

/// A state whose cursor sits at the end answers any request with `done` and
/// the completed status.
#[test]
fn test_completed_answers_done() {
    let mut state = ServerState::with_step(0, 10, 10);
    let done = handler(&mut state, save_request(10, vec![]));
    assert_eq!(done.task.label(), "done");
    assert_eq!(done.status.label(), "completed");
    assert!(done.primes.is_some());

    // every further request, of any task, is answered the same way
    let primes_before = state.primes.clone();
    let again = handler(&mut state, start_request());
    assert_eq!(again.task.label(), "done");
    assert_eq!(again.status.label(), "completed");
    assert_eq!(again.primes, Some(primes_before.clone()));

    let save_again = handler(&mut state, save_request(50, vec![999]));
    assert_eq!(save_again.task.label(), "done");
    assert_eq!(save_again.primes, Some(primes_before.clone()));
    assert_eq!(state.primes, primes_before);
}

/// Two `start` requests issued before any `save` are answered with the very
/// same range, and neither disturbs the confirmed primes.
#[test]
fn test_concurrent_starts_get_same_range() {
    let mut state = ServerState::with_step(0, 100, 10);
    let primes_before = state.primes.clone();

    let first = handler(&mut state, start_request());
    let second = handler(&mut state, start_request());

    assert_eq!(first.start, second.start);
    assert_eq!(first.end, second.end);
    assert_eq!(first.start, Some(0));
    assert_eq!(first.end, Some(10));
    assert_eq!(state.primes, primes_before);
    assert_eq!(state.last_checked, 0);
}

/// The cursor never moves backward, whatever order duplicate and overlapping
/// reports arrive in.
#[test]
fn test_save_monotonic_cursor() {
    let mut state = ServerState::with_step(0, 100, 10);

    handler(&mut state, save_request(10, vec![]));
    assert_eq!(state.last_checked, 10);

    // an older or duplicate report never lowers it
    handler(&mut state, save_request(5, vec![]));
    assert_eq!(state.last_checked, 10);
    handler(&mut state, save_request(10, vec![]));
    assert_eq!(state.last_checked, 10);

    handler(&mut state, save_request(20, vec![]));
    assert_eq!(state.last_checked, 20);

    // a report past the end is clamped to the end
    handler(&mut state, save_request(500, vec![]));
    assert_eq!(state.last_checked, 100);
    assert_eq!(state.status.label(), "completed");
}

/// Reported primes are folded in ascending and without duplicates; entries
/// the state already holds are not repeated.
#[test]
fn test_save_merges_new_primes_only() {
    let mut state = ServerState::with_step(0, 1000, 10);
    let len_before = state.primes.len();

    // everything reported here is already seeded
    handler(&mut state, save_request(10, vec![2, 3, 5, 7]));
    assert_eq!(state.primes.len(), len_before);

    // new primes beyond the seed are appended in order, duplicates dropped
    handler(&mut state, save_request(110, vec![97, 101, 101, 103]));
    assert_eq!(state.primes.len(), len_before + 2);
    assert_eq!(state.primes[len_before], 101);
    assert_eq!(state.primes[len_before + 1], 103);
}

/// An honest report of a segment's primes extends the confirmed list to
/// exactly the primes up to the segment's upper bound.
#[test]
fn test_honest_save_yields_exact_prime_list() {
    let mut state = ServerState::with_step(2, 127, 125);
    let done = handler(&mut state, save_request(127, vec![101, 103, 107, 109, 113, 127]));
    assert_eq!(done.task.label(), "done");
    assert_eq!(
        state.primes,
        vec![
            2, 3, 5, 7, 11, 13, 17, 19, 23, 29, 31, 37, 41, 43, 47, 53, 59, 61, 67, 71, 73, 79,
            83, 89, 97, 101, 103, 107, 109, 113, 127
        ]
    );
}

/// A task the master does not serve is answered with an error and the
/// invalid status; the state is untouched and the worker can simply retry.
#[test]
fn test_unknown_task_gets_error() {
    let mut state = ServerState::with_step(0, 100, 10);
    let response = handler(&mut state, Request { task: ReqTask::Continue, end: None, primes: None });
    assert_eq!(response.task.label(), "error");
    assert_eq!(response.status.label(), "invalid");
    assert_eq!(state.last_checked, 0);
}

/// A raw datagram holding a canonical request is served; the reply decodes
/// to the expected response.
#[test]
fn test_handle_datagram_start() {
    let mut state = ServerState::with_step(0, 100, 10);
    let data = start_request().to_json();
    let out = handle_datagram(&mut state, &data);
    let response = Response::from_json(&out).expect("reply must decode");
    assert_eq!(response.task, RespTask::Range);
    assert_eq!(response.status, RespStatus::Processing);
    assert_eq!(response.start, Some(0));
    assert_eq!(response.end, Some(10));
}

/// A malformed datagram is answered with the encoded error response and
/// leaves the state untouched.
#[test]
fn test_handle_datagram_malformed() {
    let mut state = ServerState::with_step(0, 100, 10);
    let out = handle_datagram(&mut state, b"not a request");
    let response = Response::from_json(&out).expect("reply must decode");
    assert_eq!(response.task, RespTask::Error);
    assert_eq!(response.status, RespStatus::Invalid);
    assert_eq!(state.last_checked, 0);
}

/// The runtime invariant check accepts what the constructors build and the
/// handler preserves.
#[test]
fn test_wf_check_holds() {
    let mut state = ServerState::with_step(0, 100, 10);
    assert!(state.wf_check());
    handler(&mut state, save_request(10, vec![101]));
    assert!(state.wf_check());
    assert!(!state.is_completed());
}
