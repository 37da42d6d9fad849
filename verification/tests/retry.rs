use std::cell::{Cell, RefCell};

use hosp::util::{classify, retry_get, Attempt, RetryState, Verdict, REFRESH_INTERVAL_MS};
use hosp::{HospError, HospResult};

/// Runs `retry_get` on an operation that gives the replies of `script` in
/// turn, and `Ok(None)` after them. Returns the result, the number of
/// attempts and the pauses that were made.
fn run(
    script: Vec<HospResult<Option<u32>>>,
    max_attempts: u32,
    delay_ms: u64,
    max_failures: u32,
) -> (Result<u32, HospError>, usize, Vec<u64>) {
    let calls = Cell::new(0usize);
    let waits = RefCell::new(Vec::new());
    let result = retry_get(
        || {
            let i = calls.get();
            calls.set(i + 1);
            if i < script.len() {
                script[i]
            } else {
                Ok(None)
            }
        },
        |ms| waits.borrow_mut().push(ms),
        max_attempts,
        delay_ms,
        max_failures,
    );
    (result, calls.get(), waits.into_inner())
}

#[test]
fn refresh_interval() {
    assert_eq!(REFRESH_INTERVAL_MS, 100);
}

#[test]
fn value_at_first_attempt_needs_no_wait() {
    let (result, attempts, waits) = run(vec![Ok(Some(42))], 250, 1, 3);
    assert_eq!(result, Ok(42));
    assert_eq!(attempts, 1);
    assert!(waits.is_empty());
}

#[test]
fn first_value_is_returned_without_waiting_afterward() {
    let script = vec![Ok(None), Ok(None), Err(HospError::Io), Ok(Some(7)), Ok(Some(8))];
    let (result, attempts, waits) = run(script, 250, 5, 3);
    assert_eq!(result, Ok(7));
    assert_eq!(attempts, 4);
    assert_eq!(waits, vec![5, 5, 5]);
}

#[test]
fn not_ready_resets_the_failure_count() {
    let script = vec![Err(HospError::Io), Ok(None), Err(HospError::Io), Err(HospError::Io)];
    let (result, attempts, waits) = run(script.clone(), 4, 1, 3);
    assert_eq!(result, Err(HospError::FatalAbort));
    assert_eq!(attempts, 4);
    assert_eq!(waits.len(), 4);

    let mut longer = script;
    longer.push(Ok(Some(9)));
    let (result, attempts, waits) = run(longer, 250, 1, 3);
    assert_eq!(result, Ok(9));
    assert_eq!(attempts, 5);
    assert_eq!(waits.len(), 4);
}

#[test]
fn aborts_at_the_failure_that_completes_the_streak() {
    let script = vec![
        Ok(None),
        Err(HospError::Io),
        Err(HospError::Io),
        Err(HospError::Io),
        Ok(Some(1)),
    ];
    let (result, attempts, waits) = run(script, 250, 1, 3);
    assert_eq!(result, Err(HospError::FatalAbort));
    assert_eq!(attempts, 4);
    assert_eq!(waits.len(), 3);
}

#[test]
fn aborts_on_first_failure_with_threshold_one() {
    let (result, attempts, waits) = run(vec![Err(HospError::Io), Ok(Some(1))], 250, 1, 1);
    assert_eq!(result, Err(HospError::FatalAbort));
    assert_eq!(attempts, 1);
    assert!(waits.is_empty());
}

#[test]
fn any_error_counts_as_a_failure() {
    let script = vec![Err(HospError::Parse), Err(HospError::Open), Ok(Some(1))];
    let (result, attempts, _) = run(script, 250, 1, 2);
    assert_eq!(result, Err(HospError::FatalAbort));
    assert_eq!(attempts, 2);
}

#[test]
fn gives_up_when_attempts_are_used_up() {
    let (result, attempts, waits) = run(vec![], 10, 2, 3);
    assert_eq!(result, Err(HospError::FatalAbort));
    assert_eq!(attempts, 10);
    assert_eq!(waits, vec![2; 10]);
}

#[test]
fn value_at_the_last_attempt_is_returned() {
    let script = vec![Ok(None), Ok(None), Ok(Some(3))];
    let (result, attempts, waits) = run(script, 3, 1, 3);
    assert_eq!(result, Ok(3));
    assert_eq!(attempts, 3);
    assert_eq!(waits.len(), 2);
}

#[test]
fn value_after_the_budget_is_not_seen() {
    let script = vec![Ok(None), Ok(None), Ok(Some(3))];
    let (result, attempts, _) = run(script, 2, 1, 3);
    assert_eq!(result, Err(HospError::FatalAbort));
    assert_eq!(attempts, 2);
}

#[test]
fn no_attempt_without_budget() {
    let (result, attempts, waits) = run(vec![Ok(Some(1))], 0, 1, 3);
    assert_eq!(result, Err(HospError::FatalAbort));
    assert_eq!(attempts, 0);
    assert!(waits.is_empty());
}

#[test]
fn threshold_zero_is_never_reached() {
    let script = vec![Err(HospError::Io); 6];
    let (result, attempts, waits) = run(script, 5, 1, 0);
    assert_eq!(result, Err(HospError::FatalAbort));
    assert_eq!(attempts, 5);
    assert_eq!(waits.len(), 5);
}

#[test]
fn threshold_above_budget_is_never_reached() {
    let script = vec![Err(HospError::Io); 6];
    let (result, attempts, waits) = run(script, 5, 1, 6);
    assert_eq!(result, Err(HospError::FatalAbort));
    assert_eq!(attempts, 5);
    assert_eq!(waits.len(), 5);
}

#[test]
fn returns_values_of_any_type() {
    let result = retry_get(|| Ok(Some(String::from("v3.0"))), |_| {}, 3, 0, 3);
    assert_eq!(result, Ok(String::from("v3.0")));
}

#[test]
fn classify_sorts_replies() {
    assert_eq!(classify(Ok(Some(5u32))), Attempt::Ready(5));
    assert_eq!(classify::<u32>(Ok(None)), Attempt::NotReady);
    assert_eq!(classify::<u32>(Err(HospError::Io)), Attempt::Failed);
    assert_eq!(classify::<u32>(Err(HospError::Parse)), Attempt::Failed);
}

#[test]
fn state_starts_empty() {
    let state = RetryState::new(5, 3);
    assert_eq!(state.attempts_made(), 0);
    assert_eq!(state.consecutive_failures(), 0);
    assert!(state.may_attempt());
    assert!(!RetryState::new(0, 3).may_attempt());
}

#[test]
fn record_counts_consecutive_failures() {
    let state = RetryState::new(10, 3);
    let (verdict, state) = state.record(Attempt::<u32>::Failed);
    assert_eq!(verdict, Verdict::Wait);
    assert_eq!(state.consecutive_failures(), 1);
    let (verdict, state) = state.record(Attempt::<u32>::NotReady);
    assert_eq!(verdict, Verdict::Wait);
    assert_eq!(state.consecutive_failures(), 0);
    let (verdict, state) = state.record(Attempt::<u32>::Failed);
    assert_eq!(verdict, Verdict::Wait);
    let (verdict, state) = state.record(Attempt::<u32>::Failed);
    assert_eq!(verdict, Verdict::Wait);
    assert_eq!(state.consecutive_failures(), 2);
    assert_eq!(state.attempts_made(), 4);
    let (verdict, state) = state.record(Attempt::<u32>::Failed);
    assert_eq!(verdict, Verdict::Abort);
    assert_eq!(state.consecutive_failures(), 3);
    assert_eq!(state.attempts_made(), 5);
    assert!(state.may_attempt());
}

#[test]
fn record_delivers_a_value_at_once() {
    let state = RetryState::new(10, 1);
    let (verdict, state) = state.record(Attempt::Ready(11u32));
    assert_eq!(verdict, Verdict::Deliver(11));
    assert_eq!(state.attempts_made(), 1);
    assert_eq!(state.consecutive_failures(), 0);
}

#[test]
fn record_refuses_an_attempt_past_the_budget() {
    let state = RetryState::new(1, 3);
    let (verdict, state) = state.record(Attempt::<u32>::NotReady);
    assert_eq!(verdict, Verdict::Wait);
    assert!(!state.may_attempt());
    let (verdict, state) = state.record(Attempt::Ready(1u32));
    assert_eq!(verdict, Verdict::Abort);
    assert_eq!(state.attempts_made(), 1);
}
