//! The retry policy for reads from the meter.
//!
//! The meter refreshes its answers ten times a second and replies
//! asynchronously, so a read often finds nothing new. That is no fault: the
//! policy waits and asks again. A failure of the transport is one, and a
//! run of them without a clean reply in between ends the reading. The two
//! budgets are kept apart: one for attempts, one for consecutive failures.

use vstd::prelude::*;

use crate::error::{HospError, HospResult};

verus! {

/// The normal refresh interval of the meter, in milliseconds.
pub const REFRESH_INTERVAL_MS: u64 = 100;

/// What one attempt to read came to.
#[derive(Debug, PartialEq, Eq)]
pub enum Attempt<T> {
    /// The meter answered with a value.
    Ready(T),
    /// The transport worked, but there was no answer yet.
    NotReady,
    /// The transport failed.
    Failed,
}

/// What is to be done after an attempt.
#[derive(Debug, PartialEq, Eq)]
pub enum Verdict<T> {
    /// Hand the value to the caller at once.
    Deliver(T),
    /// Pause, then go on.
    Wait,
    /// Give up at once.
    Abort,
}

/// The outcome that a reply of a read operation stands for.
pub open spec fn outcome_of<T>(reply: HospResult<Option<T>>) -> Attempt<T> {
    match reply {
        Ok(Some(value)) => Attempt::Ready(value),
        Ok(None) => Attempt::NotReady,
        Err(_) => Attempt::Failed,
    }
}

/// The outcomes that a sequence of replies stands for.
pub open spec fn outcomes_of<T>(replies: Seq<HospResult<Option<T>>>) -> Seq<Attempt<T>> {
    Seq::new(replies.len(), |i: int| outcome_of(replies[i]))
}

/// The number of failures at the end of `log` with no other outcome among
/// them.
pub open spec fn failure_streak<T>(log: Seq<Attempt<T>>) -> nat
    decreases log.len(),
{
    if log.len() > 0 && log.last() is Failed {
        1 + failure_streak(log.drop_last())
    } else {
        0
    }
}

/// Whether the last attempt of `log` ends the reading: it brought a value,
/// or it was the failure that made the streak `max_failures` long.
pub open spec fn halts<T>(log: Seq<Attempt<T>>, max_failures: nat) -> bool {
    log.len() > 0 && (log.last() is Ready || (log.last() is Failed && failure_streak(log)
        == max_failures))
}

/// Whether the reading is still going on after the attempts of `log`: they
/// are within the budget, and none of them ended it.
pub open spec fn running<T>(log: Seq<Attempt<T>>, max_attempts: nat, max_failures: nat) -> bool {
    log.len() <= max_attempts && forall|k: int|
        0 < k <= log.len() ==> !#[trigger] halts(log.take(k), max_failures)
}

/// The result of a reading whose attempts were exactly those of `log`.
///
/// The reading ends with its first attempt that brings a value, and returns
/// it; it ends in `FatalAbort` with the failure that makes a streak of
/// `max_failures`, or when `max_attempts` attempts have brought nothing.
/// `None` says that `log` is no complete reading: it goes on past its end,
/// or does not end there.
pub open spec fn retry_result<T>(
    log: Seq<Attempt<T>>,
    max_attempts: nat,
    max_failures: nat,
) -> Option<Result<T, HospError>> {
    if 0 < log.len() <= max_attempts && halts(log, max_failures) && running(
        log.drop_last(),
        max_attempts,
        max_failures,
    ) {
        match log.last() {
            Attempt::Ready(value) => Some(Ok(value)),
            _ => Some(Err(HospError::FatalAbort)),
        }
    } else if log.len() == max_attempts && running(log, max_attempts, max_failures) {
        Some(Err(HospError::FatalAbort))
    } else {
        None
    }
}

/// The verdict on an attempt that follows `failures` consecutive failures.
pub open spec fn verdict_of<T>(failures: nat, max_failures: nat, outcome: Attempt<T>) -> Verdict<
    T,
> {
    match outcome {
        Attempt::Ready(value) => Verdict::Deliver(value),
        Attempt::NotReady => Verdict::Wait,
        Attempt::Failed => if failures + 1 == max_failures {
            Verdict::Abort
        } else {
            Verdict::Wait
        },
    }
}

/// The count of consecutive failures after an attempt that follows
/// `failures` of them: one more after a failure, none after a clean reply.
pub open spec fn failures_after<T>(failures: nat, outcome: Attempt<T>) -> nat {
    match outcome {
        Attempt::Failed => failures + 1,
        _ => 0,
    }
}

/// The bookkeeping of one reading: the two budgets, and what was used of
/// them so far.
#[derive(Clone, Copy, Debug)]
pub struct RetryState {
    max_attempts: u32,
    max_failures: u32,
    attempts: u32,
    failures: u32,
}

impl RetryState {
    #[verifier::type_invariant]
    spec fn well_formed(self) -> bool {
        self.failures <= self.attempts <= self.max_attempts
    }

    /// The budget of attempts.
    pub closed spec fn max_attempts(self) -> nat {
        self.max_attempts as nat
    }

    /// The number of consecutive failures that ends the reading.
    pub closed spec fn max_failures(self) -> nat {
        self.max_failures as nat
    }

    /// The number of attempts made so far.
    pub closed spec fn attempts(self) -> nat {
        self.attempts as nat
    }

    /// The number of failures since the last clean reply.
    pub closed spec fn failures(self) -> nat {
        self.failures as nat
    }

    /// The state before the first attempt.
    pub fn new(max_attempts: u32, max_failures: u32) -> (state: RetryState)
        ensures
            state.max_attempts() == max_attempts,
            state.max_failures() == max_failures,
            state.attempts() == 0,
            state.failures() == 0,
    {
        RetryState { max_attempts, max_failures, attempts: 0, failures: 0 }
    }

    /// The number of attempts made so far.
    pub fn attempts_made(&self) -> (n: u32)
        ensures
            n == self.attempts(),
    {
        self.attempts
    }

    /// The number of failures since the last clean reply.
    pub fn consecutive_failures(&self) -> (n: u32)
        ensures
            n == self.failures(),
    {
        self.failures
    }

    /// Whether the budget allows another attempt.
    pub fn may_attempt(&self) -> (yes: bool)
        ensures
            yes == (self.attempts() < self.max_attempts()),
    {
        self.attempts < self.max_attempts
    }

    /// Takes note of the outcome of an attempt, and says what is to be done
    /// next.
    ///
    /// A value is delivered at once. A clean reply without a value clears
    /// the count of failures. A failure adds to it, and ends the reading
    /// when the count reaches the threshold. An attempt that the budget did
    /// not allow changes nothing and ends the reading.
    pub fn record<T>(self, outcome: Attempt<T>) -> (r: (Verdict<T>, RetryState))
        ensures
            r.1.max_attempts() == self.max_attempts(),
            r.1.max_failures() == self.max_failures(),
            self.attempts() < self.max_attempts() ==> {
                &&& r.0 == verdict_of(self.failures(), self.max_failures(), outcome)
                &&& r.1.attempts() == self.attempts() + 1
                &&& r.1.failures() == failures_after(self.failures(), outcome)
            },
            self.attempts() >= self.max_attempts() ==> r.0 == Verdict::<T>::Abort && r.1 == self,
    {
        proof {
            use_type_invariant(&self);
        }
        if self.attempts >= self.max_attempts {
            return (Verdict::Abort, self);
        }
        let attempts: u32 = self.attempts + 1;
        match outcome {
            Attempt::Ready(value) => (
                Verdict::Deliver(value),
                RetryState {
                    max_attempts: self.max_attempts,
                    max_failures: self.max_failures,
                    attempts,
                    failures: 0,
                },
            ),
            Attempt::NotReady => (
                Verdict::Wait,
                RetryState {
                    max_attempts: self.max_attempts,
                    max_failures: self.max_failures,
                    attempts,
                    failures: 0,
                },
            ),
            Attempt::Failed => {
                let failures: u32 = self.failures + 1;
                let next = RetryState {
                    max_attempts: self.max_attempts,
                    max_failures: self.max_failures,
                    attempts,
                    failures,
                };
                if failures == self.max_failures {
                    (Verdict::Abort, next)
                } else {
                    (Verdict::Wait, next)
                }
            },
        }
    }
}

/// Sorts the reply of a read operation into the three outcomes.
pub fn classify<T>(reply: HospResult<Option<T>>) -> (outcome: Attempt<T>)
    ensures
        outcome == outcome_of(reply),
{
    match reply {
        Ok(Some(value)) => Attempt::Ready(value),
        Ok(None) => Attempt::NotReady,
        Err(_) => Attempt::Failed,
    }
}

/// One more attempt that does not end the reading keeps it going.
proof fn lemma_running_extends<T>(
    log: Seq<Attempt<T>>,
    outcome: Attempt<T>,
    max_attempts: nat,
    max_failures: nat,
)
    requires
        running(log, max_attempts, max_failures),
        log.len() < max_attempts,
        !halts(log.push(outcome), max_failures),
    ensures
        running(log.push(outcome), max_attempts, max_failures),
{
    let longer = log.push(outcome);
    assert forall|k: int| 0 < k <= longer.len() implies !#[trigger] halts(
        longer.take(k),
        max_failures,
    ) by {
        if k <= log.len() {
            assert(longer.take(k) =~= log.take(k));
        } else {
            assert(longer.take(k) =~= longer);
        }
    }
}

/// Reads with `op` until it yields a value, under the two budgets.
///
/// `op` is called up to `max_attempts` times. A value ends the reading at
/// once. After a clean reply without a value, and after a failure that the
/// budget of failures still covers, `wait` is called with `delay_ms`, and
/// the reading goes on. The failure that makes `max_failures` in a row ends
/// the reading at once with `FatalAbort`, and so does the end of the
/// attempts.
///
/// What comes back is the result of the policy on the replies that `op`
/// gave, whatever they were.
pub fn retry_get<T, O, W>(
    op: O,
    wait: W,
    max_attempts: u32,
    delay_ms: u64,
    max_failures: u32,
) -> (r: Result<T, HospError>) where O: Fn() -> HospResult<Option<T>>, W: Fn(u64) -> ()
    requires
        call_requires(op, ()),
        call_requires(wait, (delay_ms,)),
    ensures
        exists|replies: Seq<HospResult<Option<T>>>|
            {
                &&& forall|i: int|
                    0 <= i < replies.len() ==> call_ensures(op, (), #[trigger] replies[i])
                &&& #[trigger] retry_result(
                    outcomes_of(replies),
                    max_attempts as nat,
                    max_failures as nat,
                ) == Some(r)
            },
        r is Ok ==> call_ensures(op, (), Ok(Some(r.unwrap()))),
        r is Err ==> r == Err::<T, HospError>(HospError::FatalAbort),
        max_attempts == 0 ==> r is Err,
{
    let mut state = RetryState::new(max_attempts, max_failures);
    let ghost mut replies: Seq<HospResult<Option<T>>> = Seq::empty();
    assert(outcomes_of(replies) =~= Seq::<Attempt<T>>::empty());
    while state.may_attempt()
        invariant
            call_requires(op, ()),
            call_requires(wait, (delay_ms,)),
            state.max_attempts() == max_attempts,
            state.max_failures() == max_failures,
            state.attempts() == replies.len(),
            state.failures() == failure_streak(outcomes_of(replies)),
            running(outcomes_of(replies), max_attempts as nat, max_failures as nat),
            forall|i: int| 0 <= i < replies.len() ==> call_ensures(op, (), #[trigger] replies[i]),
        decreases state.max_attempts() - state.attempts(),
    {
        let reply = op();
        let ghost before = outcomes_of(replies);
        proof {
            replies = replies.push(reply);
            assert(outcomes_of(replies) =~= before.push(outcome_of(reply)));
            assert(outcomes_of(replies).drop_last() =~= before);
        }
        let (verdict, next) = state.record(classify(reply));
        state = next;
        match verdict {
            Verdict::Deliver(value) => {
                assert(retry_result(
                    outcomes_of(replies),
                    max_attempts as nat,
                    max_failures as nat,
                ) == Some(Ok::<T, HospError>(value)));
                return Ok(value);
            },
            Verdict::Abort => {
                assert(retry_result(
                    outcomes_of(replies),
                    max_attempts as nat,
                    max_failures as nat,
                ) == Some(Err::<T, HospError>(HospError::FatalAbort)));
                return Err(HospError::FatalAbort);
            },
            Verdict::Wait => {
                proof {
                    lemma_running_extends(
                        before,
                        outcome_of(reply),
                        max_attempts as nat,
                        max_failures as nat,
                    );
                }
                wait(delay_ms);
            },
        }
    }
    proof {
        let log = outcomes_of(replies);
        if log.len() > 0 {
            assert(log.take(log.len() as int) =~= log);
        }
        assert(retry_result(log, max_attempts as nat, max_failures as nat) == Some(
            Err::<T, HospError>(HospError::FatalAbort),
        ));
    }
    Err(HospError::FatalAbort)
}

/// The count that `record` keeps is the streak of failures at the end of the
/// attempts so far: a failure makes it one longer, any other outcome clears
/// it.
pub proof fn lemma_failures_are_consecutive<T>(log: Seq<Attempt<T>>, outcome: Attempt<T>)
    ensures
        failure_streak(log.push(outcome)) == failures_after(failure_streak(log), outcome),
        !(outcome is Failed) ==> failure_streak(log.push(outcome)) == 0,
{
    assert(log.push(outcome).drop_last() =~= log);
}

/// A streak of failures is made of the last attempts of the log, and the
/// attempt before them, if there is one, did not fail.
pub proof fn lemma_streak_is_trailing_failures<T>(log: Seq<Attempt<T>>)
    ensures
        failure_streak(log) <= log.len(),
        forall|i: int| log.len() - failure_streak(log) <= i < log.len() ==> log[i] is Failed,
        failure_streak(log) < log.len() ==> !(log[log.len() - failure_streak(log) - 1] is Failed),
    decreases log.len(),
{
    if log.len() > 0 && log.last() is Failed {
        lemma_streak_is_trailing_failures(log.drop_last());
        assert forall|i: int| log.len() - failure_streak(log) <= i < log.len() implies log[i]
            is Failed by {
            if i < log.len() - 1 {
                assert(log.drop_last()[i] == log[i]);
            }
        }
    }
}

/// What `record` decides after an attempt is what the log of all attempts
/// says: it goes on exactly where the attempt does not end the reading,
/// delivers exactly a value, and aborts exactly on the failure that
/// completes the streak.
pub proof fn lemma_verdict_follows_log<T>(
    log: Seq<Attempt<T>>,
    outcome: Attempt<T>,
    max_failures: nat,
)
    ensures
        verdict_of(failure_streak(log), max_failures, outcome) is Wait <==> !halts(
            log.push(outcome),
            max_failures,
        ),
        verdict_of(failure_streak(log), max_failures, outcome) is Deliver <==> outcome is Ready,
        verdict_of(failure_streak(log), max_failures, outcome) is Abort <==> outcome is Failed
            && failure_streak(log.push(outcome)) == max_failures,
{
    lemma_failures_are_consecutive(log, outcome);
}

/// The first attempt that brings a value ends the reading with that value:
/// no value came before it, and no attempt, and so no pause, comes after it.
pub proof fn lemma_first_value_is_returned<T>(
    log: Seq<Attempt<T>>,
    max_attempts: nat,
    max_failures: nat,
    value: T,
)
    requires
        0 < log.len() <= max_attempts,
        running(log.drop_last(), max_attempts, max_failures),
        log.last() == Attempt::Ready(value),
    ensures
        retry_result(log, max_attempts, max_failures) == Some(Ok::<T, HospError>(value)),
        forall|i: int| 0 <= i < log.len() - 1 ==> !(log[i] is Ready),
        forall|longer: Seq<Attempt<T>>|
            longer.len() > log.len() && longer.take(log.len() as int) == log ==> #[trigger] retry_result(
                longer,
                max_attempts,
                max_failures,
            ) is None,
{
    let shorter = log.drop_last();
    assert forall|i: int| 0 <= i < log.len() - 1 implies !(log[i] is Ready) by {
        assert(!halts(shorter.take(i + 1), max_failures));
        assert(shorter.take(i + 1).last() == log[i]);
    }
    assert forall|longer: Seq<Attempt<T>>|
        longer.len() > log.len() && longer.take(log.len() as int) == log implies #[trigger] retry_result(
        longer,
        max_attempts,
        max_failures,
    ) is None by {
        lemma_halted_stays_halted(log, longer, max_attempts, max_failures);
    }
}

/// A reading returns the first value that an attempt brings: where a
/// complete reading holds a value at all, that attempt is its last, and its
/// value is the result.
pub proof fn lemma_result_is_first_value<T>(
    log: Seq<Attempt<T>>,
    max_attempts: nat,
    max_failures: nat,
    i: int,
)
    requires
        retry_result(log, max_attempts, max_failures) is Some,
        0 <= i < log.len(),
        log[i] is Ready,
    ensures
        i == log.len() - 1,
        retry_result(log, max_attempts, max_failures) == Some(
            Ok::<T, HospError>(log[i]->Ready_0),
        ),
{
    let shorter = log.drop_last();
    if i < log.len() - 1 {
        assert(shorter.take(i + 1).last() == log[i]);
        assert(log.take(i + 1).last() == log[i]);
        assert(halts(shorter.take(i + 1), max_failures));
        assert(halts(log.take(i + 1), max_failures));
        assert(false);
    }
    assert(log.take(log.len() as int) =~= log);
    assert(halts(log.take(log.len() as int), max_failures));
}

/// Consecutive failures end the reading exactly at the attempt where their
/// streak reaches `max_failures`, whatever is left of the attempts: that
/// failure aborts, and an abort with attempts to spare is such a failure.
pub proof fn lemma_aborts_exactly_at_threshold<T>(
    log: Seq<Attempt<T>>,
    max_attempts: nat,
    max_failures: nat,
)
    requires
        0 < log.len() <= max_attempts,
        running(log.drop_last(), max_attempts, max_failures),
    ensures
        log.last() is Failed && failure_streak(log) == max_failures ==> retry_result(
            log,
            max_attempts,
            max_failures,
        ) == Some(Err::<T, HospError>(HospError::FatalAbort)),
        log.len() < max_attempts && retry_result(log, max_attempts, max_failures) == Some(
            Err::<T, HospError>(HospError::FatalAbort),
        ) ==> log.last() is Failed && failure_streak(log) == max_failures,
        log.last() is Failed && failure_streak(log) == max_failures ==> forall|
            longer: Seq<Attempt<T>>,
        |
            longer.len() > log.len() && longer.take(log.len() as int) == log ==> #[trigger] retry_result(
                longer,
                max_attempts,
                max_failures,
            ) is None,
{
    if log.last() is Failed && failure_streak(log) == max_failures {
        assert forall|longer: Seq<Attempt<T>>|
            longer.len() > log.len() && longer.take(log.len() as int) == log implies #[trigger] retry_result(
            longer,
            max_attempts,
            max_failures,
        ) is None by {
            lemma_halted_stays_halted(log, longer, max_attempts, max_failures);
        }
    }
}

/// An abort by failures needs `max_failures` failures in a row: the last
/// `max_failures` attempts of the reading all failed, with no clean reply
/// among them.
pub proof fn lemma_abort_needs_consecutive_failures<T>(
    log: Seq<Attempt<T>>,
    max_attempts: nat,
    max_failures: nat,
)
    requires
        log.len() < max_attempts,
        retry_result(log, max_attempts, max_failures) == Some(
            Err::<T, HospError>(HospError::FatalAbort),
        ),
    ensures
        0 < max_failures <= log.len(),
        forall|i: int| log.len() - max_failures <= i < log.len() ==> log[i] is Failed,
{
    lemma_streak_is_trailing_failures(log);
}

/// Once an attempt has ended the reading, no longer log is a reading.
proof fn lemma_halted_stays_halted<T>(
    log: Seq<Attempt<T>>,
    longer: Seq<Attempt<T>>,
    max_attempts: nat,
    max_failures: nat,
)
    requires
        halts(log, max_failures),
        longer.len() > log.len(),
        longer.take(log.len() as int) == log,
    ensures
        retry_result(longer, max_attempts, max_failures) is None,
{
    let n = log.len() as int;
    assert(longer.drop_last().take(n) =~= longer.take(n));
    assert(halts(longer.drop_last().take(n), max_failures));
    assert(halts(longer.take(n), max_failures));
}

} // verus!
