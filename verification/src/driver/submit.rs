//! Handing the submission queue to the kernel: what to do with each answer.

use vstd::prelude::*;

use crate::driver::Driver;

verus! {

/// An error of the operating system, with its number where it has one.
pub struct OsError<E> {
    /// The error number.
    pub code: Option<i32>,
    /// The error itself.
    pub error: E,
}

/// What to do after an attempt to submit.
pub enum SubmitStep<E> {
    /// The queue was submitted: synchronise it and return.
    Done,
    /// The kernel has too many completions waiting: take them out, then submit again.
    Tick,
    /// The attempt was interrupted: submit again.
    Retry,
    /// The attempt failed: return the error.
    Fail(E),
}

/// The constant `libc::EBUSY`, which is 16 on Linux.
#[verifier::external_body]
fn ebusy() -> (code: i32)
    ensures
        code == 16,
{
    libc::EBUSY
}

/// The constant `libc::EINTR`, which is 4 on Linux.
#[verifier::external_body]
fn eintr() -> (code: i32)
    ensures
        code == 4,
{
    libc::EINTR
}

/// The attempt failed because too many completions are waiting (`EBUSY`).
pub open spec fn is_busy<E>(outcome: Result<usize, OsError<E>>) -> bool {
    outcome is Err && outcome->Err_0.code == Some(16i32)
}

/// The attempt was interrupted (`EINTR`).
pub open spec fn is_interrupted<E>(outcome: Result<usize, OsError<E>>) -> bool {
    outcome is Err && outcome->Err_0.code == Some(4i32)
}

/// What to do after an attempt to submit that came out as `outcome`.
pub open spec fn submit_step<E>(outcome: Result<usize, OsError<E>>) -> SubmitStep<E> {
    match outcome {
        Ok(_) => SubmitStep::Done,
        Err(failure) => if is_busy(outcome) {
            SubmitStep::Tick
        } else if is_interrupted(outcome) {
            SubmitStep::Retry
        } else {
            SubmitStep::Fail(failure.error)
        },
    }
}

impl<R> Driver<R> {
    /// Decides what follows an attempt to submit. Submitting goes on until the answer is
    /// `Done` or `Fail`.
    pub fn submit<E>(outcome: Result<usize, OsError<E>>) -> (step: SubmitStep<E>)
        ensures
            step == submit_step(outcome),
            match outcome {
                Ok(_) => step is Done,
                Err(failure) => match failure.code {
                    Some(16i32) => step is Tick,
                    Some(4i32) => step is Retry,
                    _ => step is Fail && step->Fail_0 == failure.error,
                },
            },
    {
        match outcome {
            Ok(_) => SubmitStep::Done,
            Err(failure) => match failure.code {
                Some(code) => if code == ebusy() {
                    SubmitStep::Tick
                } else if code == eintr() {
                    SubmitStep::Retry
                } else {
                    SubmitStep::Fail(failure.error)
                },
                None => SubmitStep::Fail(failure.error),
            },
        }
    }
}

/// What submitting returns when its attempts come out as `outcomes`, one after the other;
/// `None` where it has not returned by then.
pub open spec fn submit_result<E>(outcomes: Seq<Result<usize, OsError<E>>>) -> Option<
    Result<(), E>,
>
    decreases outcomes.len(),
{
    if outcomes.len() == 0 {
        None
    } else {
        match submit_step(outcomes.first()) {
            SubmitStep::Done => Some(Ok(())),
            SubmitStep::Fail(error) => Some(Err(error)),
            _ => submit_result(outcomes.drop_first()),
        }
    }
}

/// An attempt that succeeds is the end. One that fails with error 16 (`EBUSY`) asks for a tick,
/// one that fails with error 4 (`EINTR`) is tried again, and any other returns its own error.
pub proof fn each_outcome_has_its_answer<E>(count: usize, code: Option<i32>, error: E)
    ensures
        submit_step(Ok::<usize, OsError<E>>(count)) is Done,
        ({
            let step = submit_step(Err::<usize, OsError<E>>(OsError { code, error }));
            &&& step is Tick <==> code == Some(16i32)
            &&& step is Retry <==> code == Some(4i32)
            &&& step is Fail <==> code != Some(16i32) && code != Some(4i32)
            &&& step is Fail ==> step->Fail_0 == error
        }),
{
}

/// Submitting returns what the first attempt came to that succeeded, or that failed with
/// neither error 16 nor error 4; and it has not returned before.
pub proof fn submit_returns_the_first_that_counts<E>(
    outcomes: Seq<Result<usize, OsError<E>>>,
    at: int,
)
    requires
        0 <= at < outcomes.len(),
        forall|i: int|
            0 <= i < at ==> (#[trigger] outcomes[i]) is Err && (outcomes[i]->Err_0.code == Some(
                16i32,
            ) || outcomes[i]->Err_0.code == Some(4i32)),
    ensures
        submit_result(outcomes.take(at)) is None,
        outcomes[at] is Ok ==> submit_result(outcomes) == Some(Ok::<(), E>(())),
        outcomes[at] is Err && outcomes[at]->Err_0.code != Some(16i32)
            && outcomes[at]->Err_0.code != Some(4i32) ==> submit_result(outcomes) == Some(
            Err::<(), E>(outcomes[at]->Err_0.error),
        ),
    decreases at,
{
    if at > 0 {
        assert(outcomes[0] is Err);
        let rest = outcomes.drop_first();
        assert forall|i: int| 0 <= i < at - 1 implies (#[trigger] rest[i]) is Err && (
        rest[i]->Err_0.code == Some(16i32) || rest[i]->Err_0.code == Some(4i32)) by {
            assert(rest[i] == outcomes[i + 1]);
        }
        submit_returns_the_first_that_counts(rest, at - 1);
        assert(outcomes.take(at).drop_first() =~= rest.take(at - 1));
    }
}

/// Submitting returns on the first attempt that is neither refused for waiting completions
/// nor interrupted, with what that attempt came to, whatever comes after it.
pub proof fn submit_returns_first_decisive<E>(
    outcomes: Seq<Result<usize, OsError<E>>>,
    at: int,
)
    requires
        0 <= at < outcomes.len(),
        forall|i: int|
            0 <= i < at ==> is_busy(#[trigger] outcomes[i]) || is_interrupted(outcomes[i]),
        !is_busy(outcomes[at]),
        !is_interrupted(outcomes[at]),
    ensures
        submit_result(outcomes) == Some(
            match outcomes[at] {
                Ok(_) => Ok(()),
                Err(failure) => Err(failure.error),
            },
        ),
    decreases at,
{
    if at > 0 {
        assert(is_busy(outcomes[0]) || is_interrupted(outcomes[0]));
        let rest = outcomes.drop_first();
        assert forall|i: int| 0 <= i < at - 1 implies is_busy(#[trigger] rest[i])
            || is_interrupted(rest[i]) by {
            assert(rest[i] == outcomes[i + 1]);
        }
        submit_returns_first_decisive(rest, at - 1);
    }
}

/// Submitting does not return while every attempt is refused for waiting completions or
/// interrupted.
pub proof fn submit_outlasts_transient<E>(outcomes: Seq<Result<usize, OsError<E>>>)
    requires
        forall|i: int|
            0 <= i < outcomes.len() ==> is_busy(#[trigger] outcomes[i]) || is_interrupted(
                outcomes[i],
            ),
    ensures
        submit_result(outcomes) is None,
    decreases outcomes.len(),
{
    if outcomes.len() > 0 {
        assert(is_busy(outcomes[0]) || is_interrupted(outcomes[0]));
        let rest = outcomes.drop_first();
        assert forall|i: int| 0 <= i < rest.len() implies is_busy(#[trigger] rest[i])
            || is_interrupted(rest[i]) by {
            assert(rest[i] == outcomes[i + 1]);
        }
        submit_outlasts_transient(rest);
    }
}

} // verus!
