use wiki_utils::client::{
    admission_batches, article_url, endpoint_of_url, AfterResponse, BeforeAttempt, ClientError, RetryPolicy,
    BASE_URL, MAX_CONCURRENT_FETCHES, MAX_RETRIES,
};

/// Drives one fetch with the backoff signal lowered, answering each request
/// with the next response; returns requests sent, backoff sleeps and result.
fn drive(responses: &[Result<(), ClientError>]) -> (usize, usize, Result<(), ClientError>) {
    let mut policy = RetryPolicy::new();
    let mut sent = 0;
    let mut sleeps = 0;
    loop {
        match policy.before_attempt(false) {
            BeforeAttempt::GiveUp(e) => return (sent, sleeps, Err(e)),
            BeforeAttempt::Wait => panic!("signal is lowered"),
            BeforeAttempt::Send => {}
        }
        let outcome = responses[sent].clone();
        sent += 1;
        match policy.after_response(outcome) {
            AfterResponse::Accept => return (sent, sleeps, Ok(())),
            AfterResponse::Fail(e) => return (sent, sleeps, Err(e)),
            AfterResponse::BackOff => sleeps += 1,
        }
    }
}

#[test]
fn not_found_is_attempted_once() {
    let responses = vec![Err(ClientError::StatusCodeError(404)), Ok(())];
    let (sent, sleeps, r) = drive(&responses);
    assert_eq!(sent, 1);
    assert_eq!(sleeps, 0);
    assert!(matches!(r, Err(ClientError::StatusCodeError(404))));
}

#[test]
fn persistent_failure_is_attempted_max_times() {
    let mut responses: Vec<Result<(), ClientError>> = vec![Err(ClientError::StatusCodeError(503)); 4];
    responses.push(Err(ClientError::RequestError("reset".to_string())));
    responses.push(Ok(()));
    let (sent, sleeps, r) = drive(&responses);
    assert_eq!(MAX_RETRIES, 5);
    assert_eq!(sent, 5);
    assert_eq!(sleeps, 5);
    assert!(matches!(r, Err(ClientError::RequestError(m)) if m == "reset"));
}

#[test]
fn success_after_transient_failure() {
    let responses = vec![Err(ClientError::StatusCodeError(500)), Ok(())];
    let (sent, sleeps, r) = drive(&responses);
    assert_eq!((sent, sleeps), (2, 1));
    assert!(r.is_ok());
}

#[test]
fn admission_failure_is_terminal() {
    let mut policy = RetryPolicy::new();
    assert!(matches!(policy.before_attempt(false), BeforeAttempt::Send));
    assert!(matches!(
        policy.after_response(Err(ClientError::SemaphoreAcquireError)),
        AfterResponse::Fail(ClientError::SemaphoreAcquireError)
    ));
}

#[test]
fn raised_signal_makes_worker_wait_without_using_a_try() {
    let mut policy = RetryPolicy::new();
    for _ in 0..3 * MAX_RETRIES {
        assert!(matches!(policy.before_attempt(true), BeforeAttempt::Wait));
    }
    assert_eq!(policy.attempts, 0);
    assert!(matches!(policy.before_attempt(false), BeforeAttempt::Send));
    assert!(matches!(policy.after_response(Ok(())), AfterResponse::Accept));
    assert_eq!(policy.attempts, 1);
}

#[test]
fn waits_between_failures_do_not_shorten_the_retries() {
    let mut policy = RetryPolicy::new();
    let mut sent = 0;
    loop {
        assert!(matches!(policy.before_attempt(true), BeforeAttempt::Wait) || sent == MAX_RETRIES);
        match policy.before_attempt(false) {
            BeforeAttempt::Send => {}
            BeforeAttempt::GiveUp(e) => {
                assert!(matches!(e, ClientError::StatusCodeError(502)));
                break;
            }
            BeforeAttempt::Wait => panic!("signal is lowered"),
        }
        sent += 1;
        assert!(matches!(policy.after_response(Err(ClientError::StatusCodeError(502))), AfterResponse::BackOff));
    }
    assert_eq!(sent, MAX_RETRIES);
}

#[test]
fn fresh_policy_gives_up_with_default_error_when_no_tries_left() {
    let mut policy = RetryPolicy { attempts: MAX_RETRIES, last_error: ClientError::Default };
    assert!(matches!(policy.before_attempt(false), BeforeAttempt::GiveUp(ClientError::Default)));
}

#[test]
fn status_code_reads_status_errors_only() {
    assert_eq!(ClientError::StatusCodeError(404).status_code(), Some(404));
    assert_eq!(ClientError::RedirectError.status_code(), None);
    assert_eq!(ClientError::RequestError("x".to_string()).status_code(), None);
}

#[test]
fn article_url_joins_base_and_endpoint() {
    assert_eq!(article_url("Rust_(language)"), "https://en.wikipedia.org/wiki/Rust_(language)");
}

#[test]
fn served_endpoint_is_read_from_final_url() {
    assert_eq!(endpoint_of_url("https://en.wikipedia.org/wiki/Baz").unwrap(), "Baz");
    assert_eq!(endpoint_of_url(BASE_URL).unwrap(), "");
    assert!(matches!(endpoint_of_url("https://example.org/wiki/Baz"), Err(ClientError::RedirectError)));
    assert!(matches!(endpoint_of_url("https://en.wikipedia.org/w/index.php"), Err(ClientError::RedirectError)));
}

#[test]
fn batches_respect_the_cap_and_keep_order() {
    let endpoints: Vec<String> = (0..70).map(|i| format!("E{}", i)).collect();
    let batches = admission_batches(&endpoints, MAX_CONCURRENT_FETCHES);
    assert_eq!(batches.len(), 3);
    assert_eq!(batches.iter().map(|b| b.len()).collect::<Vec<_>>(), vec![32, 32, 6]);
    assert_eq!(batches.concat(), endpoints);
    assert!(admission_batches(&Vec::new(), 4).is_empty());
    assert_eq!(admission_batches(&endpoints[..3].to_vec(), 1).len(), 3);
}
