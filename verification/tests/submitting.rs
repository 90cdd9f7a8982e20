use tokio_uring::driver::submit::{OsError, SubmitStep};
use tokio_uring::driver::Driver;

fn step(outcome: Result<usize, Option<i32>>) -> SubmitStep<&'static str> {
    Driver::<()>::submit(outcome.map_err(|code| OsError { code, error: "failed" }))
}

#[test]
fn success_is_the_end() {
    assert!(matches!(step(Ok(0)), SubmitStep::Done));
    assert!(matches!(step(Ok(8)), SubmitStep::Done));
}

#[test]
fn a_busy_kernel_makes_room_for_completions() {
    assert!(matches!(step(Err(Some(libc::EBUSY))), SubmitStep::Tick));
    assert!(matches!(step(Err(Some(16))), SubmitStep::Tick));
}

#[test]
fn an_interruption_is_tried_again() {
    assert!(matches!(step(Err(Some(libc::EINTR))), SubmitStep::Retry));
    assert!(matches!(step(Err(Some(4))), SubmitStep::Retry));
}

#[test]
fn other_errors_are_returned() {
    assert!(matches!(step(Err(Some(libc::EBADF))), SubmitStep::Fail("failed")));
    assert!(matches!(step(Err(None)), SubmitStep::Fail("failed")));
}

#[test]
fn the_first_decisive_outcome_is_returned() {
    let outcomes = [
        Err(Some(libc::EINTR)),
        Err(Some(libc::EBUSY)),
        Err(Some(libc::EBUSY)),
        Err(Some(libc::EINVAL)),
        Ok(1),
    ];
    let mut ticks = 0;
    let mut attempts = 0;
    for outcome in outcomes {
        attempts += 1;
        match step(outcome) {
            SubmitStep::Tick => ticks += 1,
            SubmitStep::Retry => {}
            SubmitStep::Done => panic!("an error was passed over"),
            SubmitStep::Fail(error) => {
                assert_eq!(error, "failed");
                break;
            }
        }
    }
    assert_eq!((attempts, ticks), (4, 2));
}

#[test]
fn transient_failures_do_not_end_it() {
    for code in [libc::EBUSY, libc::EINTR, libc::EINTR, libc::EBUSY] {
        assert!(matches!(step(Err(Some(code))), SubmitStep::Tick | SubmitStep::Retry));
    }
}
