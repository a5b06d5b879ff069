use primesocket_core::protocol::{ReqTask, RespStatus, RespTask, Response};
use primesocket_core::worker::handler;

/// Tests the `handler` function when a "range" request is sent.
///
/// This test ensures that when a client sends a `"range"` request:
/// - The function computes a valid list of primes using `sieve_segment`.
/// - The function returns a `"save"` task with the new primes and updated `end`.
#[test]
fn test_handler_range_request() {
    let response = Response {
        task: RespTask::Range,
        status: RespStatus::Processing,
        start: Some(0),
        end: Some(100),
        primes: Some(vec![2, 3, 5, 7, 11]),
    };

    let request = handler(response);
    assert_eq!(request.task.label(), "save");
    assert_eq!(request.end, Some(100));
    assert!(request.primes.is_some());
}

/// Tests the `handler` function when a "continue" request is sent.
///
/// This test ensures that when a client sends a `"continue"` request:
/// - The function returns a `"continue"` task with no primes or end value.
#[test]
fn test_handler_continue_request() {
    let response = Response {
        task: RespTask::Continue,
        status: RespStatus::Completed,
        start: None,
        end: None,
        primes: None,
    };

    let request = handler(response);
    assert_eq!(request.task.label(), "continue");
    assert!(request.end.is_none());
    assert!(request.primes.is_none());
}

/// A sieved segment reports exactly the primes of the range.
#[test]
fn test_handler_range_reports_primes() {
    let response = Response {
        task: RespTask::Range,
        status: RespStatus::Processing,
        start: Some(10),
        end: Some(30),
        primes: Some(vec![2, 3, 5, 7]),
    };

    let request = handler(response);
    assert_eq!(request.task, ReqTask::Save);
    assert_eq!(request.primes, Some(vec![11, 13, 17, 19, 23, 29]));
}

/// A `range` response missing its payload is treated as retryable, not a
/// crash: the worker loops and asks again.
#[test]
fn test_range_missing_fields_retries() {
    let response = Response {
        task: RespTask::Range,
        status: RespStatus::Processing,
        start: Some(10),
        end: None,
        primes: None,
    };

    let request = handler(response);
    assert_eq!(request.task, ReqTask::Continue);
    assert!(request.end.is_none());
    assert!(request.primes.is_none());
}

/// An unusable divisor list is retried too, never fed to the sieve.
#[test]
fn test_range_bad_divisors_retries() {
    let response = Response {
        task: RespTask::Range,
        status: RespStatus::Processing,
        start: Some(10),
        end: Some(30),
        primes: Some(vec![7, 3, 0]),
    };

    let request = handler(response);
    assert_eq!(request.task, ReqTask::Continue);
}

/// `done` and `error` both stop the worker.
#[test]
fn test_done_and_error_stop_worker() {
    let done = Response {
        task: RespTask::Done,
        status: RespStatus::Completed,
        start: None,
        end: None,
        primes: Some(vec![2, 3, 5, 7]),
    };
    assert_eq!(handler(done).task, ReqTask::Close);

    let error = Response {
        task: RespTask::Error,
        status: RespStatus::Invalid,
        start: None,
        end: None,
        primes: None,
    };
    assert_eq!(handler(error).task, ReqTask::Close);
}
