use tokio_uring::driver::completion::{Cqe, CqeResult};
use tokio_uring::driver::op::Lifecycle;
use tokio_uring::driver::shutdown::{Reply, Request, Shutdown};
use tokio_uring::driver::Driver;

const MORE: u32 = 2;

fn driver(operations: usize) -> Driver<()> {
    let mut driver = Driver::new::<()>(Ok(())).ok().unwrap();
    for index in 0..operations {
        assert_eq!(driver.ops.insert(), index);
    }
    driver
}

fn cqe(index: usize, result: i32, flags: u32) -> Cqe {
    Cqe { user_data: index as u64, result, flags }
}

fn pushes(shutdown: &Shutdown) -> bool {
    match shutdown.request() {
        Request::Push(entry) => {
            let like = io_uring::opcode::AsyncCancel::new(0).build().user_data(u64::MAX);
            assert_eq!(entry.get_user_data(), u64::MAX);
            assert_eq!(format!("{:?}", entry), format!("{:?}", like));
            true
        }
        _ => false,
    }
}

#[test]
fn settling_marks_what_has_not_finished() {
    let mut driver = driver(6);
    *driver.ops.get_mut(1).unwrap().0 = Lifecycle::Waiting;
    *driver.ops.get_mut(2).unwrap().0 = Lifecycle::Ignored;
    driver.tick(&[
        cqe(3, 30, 0),
        cqe(4, 1, MORE),
        cqe(4, 2, MORE),
        cqe(5, 1, MORE),
        cqe(5, 2, 0),
    ]);
    driver.ops.settle();
    assert_eq!(driver.num_operations(), 6);
    for index in [0, 1, 2, 4] {
        assert!(matches!(driver.ops.get_mut(index), Some((Lifecycle::Ignored, _))));
    }
    let finished = |driver: &mut Driver<()>, index: usize| match driver.ops.get_mut(index) {
        Some((Lifecycle::Completed(cqe), _)) => Some(*cqe),
        _ => None,
    };
    assert_eq!(finished(&mut driver, 3), Some(CqeResult { result: Ok(30), flags: 0 }));
    assert_eq!(finished(&mut driver, 5), Some(CqeResult { result: Ok(0), flags: 0 }));
    assert!(driver.ops.get_mut(0).unwrap().1.is_empty());
    assert_eq!(driver.ops.ignored(), vec![0, 1, 2, 4]);
    // Settling again changes nothing.
    driver.ops.settle();
    assert_eq!(driver.num_operations(), 6);
    assert_eq!(driver.ops.ignored(), vec![0, 1, 2, 4]);
    assert_eq!(finished(&mut driver, 3), Some(CqeResult { result: Ok(30), flags: 0 }));
}

#[test]
fn draining_stops_at_the_first_ignored_operation() {
    let mut driver = driver(4);
    driver.tick(&[cqe(0, 0, 0), cqe(1, 0, 0), cqe(3, 0, 0)]);
    driver.ops.settle();
    driver.ops.remove(0);
    assert_eq!(driver.ops.drain(0), Some(2));
    assert_eq!(driver.num_operations(), 2);
    assert_eq!(driver.ops.drain(2), Some(2));
    driver.tick(&[cqe(2, -125, 0)]);
    assert_eq!(driver.ops.drain(2), None);
    assert_eq!(driver.num_operations(), 0);
}

#[test]
fn nothing_in_flight_is_nothing_to_cancel() {
    let mut driver = driver(0);
    let mut shutdown = Shutdown::new();
    assert!(matches!(shutdown.request(), Request::Inspect));
    shutdown.step(&mut driver, Reply::Empty(true));
    assert!(matches!(shutdown.request(), Request::Stop));
}

#[test]
fn finished_operations_are_dropped_without_cancelling() {
    let mut driver = driver(3);
    driver.tick(&[cqe(0, 0, 0), cqe(1, -5, 0), cqe(2, 9, 0)]);
    let mut shutdown = Shutdown::new();
    shutdown.step(&mut driver, Reply::Empty(true));
    assert!(matches!(shutdown.request(), Request::Stop));
    assert_eq!(driver.num_operations(), 0);
}

#[test]
fn the_submission_queue_is_flushed_first() {
    let mut driver = driver(1);
    let mut shutdown = Shutdown::new();
    for _ in 0..3 {
        assert!(matches!(shutdown.request(), Request::Inspect));
        shutdown.step(&mut driver, Reply::Empty(false));
        assert!(matches!(shutdown.request(), Request::Submit));
        shutdown.step(&mut driver, Reply::Done);
    }
    assert!(matches!(driver.ops.get_mut(0), Some((Lifecycle::Submitted, _))));
    shutdown.step(&mut driver, Reply::Empty(true));
    assert!(matches!(driver.ops.get_mut(0), Some((Lifecycle::Ignored, _))));
}

#[test]
fn each_unfinished_operation_is_cancelled_once() {
    let mut driver = driver(4);
    driver.tick(&[cqe(1, 0, 0)]);
    let mut shutdown = Shutdown::new();
    shutdown.step(&mut driver, Reply::Empty(true));
    let mut pushed = 0;
    let mut refused = 0;
    while pushes(&shutdown) {
        if refused < pushed + 1 {
            shutdown.step(&mut driver, Reply::Pushed(false));
            refused += 1;
            assert!(matches!(shutdown.request(), Request::MakeRoom));
            shutdown.step(&mut driver, Reply::Done);
        } else {
            shutdown.step(&mut driver, Reply::Pushed(true));
            pushed += 1;
        }
    }
    assert_eq!((pushed, refused), (3, 3));
    assert!(matches!(shutdown.request(), Request::WaitAndTick));
}

#[test]
fn the_driver_waits_for_the_last_operation() {
    let mut driver = driver(3);
    driver.tick(&[cqe(0, 0, 0)]);
    let mut shutdown = Shutdown::new();
    shutdown.step(&mut driver, Reply::Empty(true));
    for _ in 0..2 {
        assert!(pushes(&shutdown));
        shutdown.step(&mut driver, Reply::Pushed(true));
    }
    assert!(matches!(shutdown.request(), Request::WaitAndTick));
    // A wait that brings nothing.
    shutdown.step(&mut driver, Reply::Done);
    assert!(matches!(shutdown.request(), Request::WaitAndTick));
    // The result of a cancellation, and the later operation first.
    driver.tick(&[Cqe { user_data: u64::MAX, result: 0, flags: 0 }, cqe(2, -125, 0)]);
    shutdown.step(&mut driver, Reply::Done);
    assert!(matches!(shutdown.request(), Request::WaitAndTick));
    assert_eq!(driver.num_operations(), 1);
    // A report that says that more follow is not the last.
    driver.tick(&[cqe(1, 1, MORE)]);
    shutdown.step(&mut driver, Reply::Done);
    assert!(matches!(shutdown.request(), Request::WaitAndTick));
    driver.tick(&[cqe(1, -125, 0)]);
    shutdown.step(&mut driver, Reply::Done);
    assert!(matches!(shutdown.request(), Request::Stop));
    assert_eq!(driver.num_operations(), 0);
    assert!(driver.ops.all_completed());
}

#[test]
fn completions_that_nobody_holds_stay_in_the_slab() {
    let mut driver = driver(3);
    driver.tick(&[cqe(0, 1, MORE), cqe(0, 2, MORE)]);
    driver.ops.remove(0);
    driver.tick(&[]);
    driver.tick(&[Cqe { user_data: u64::MAX, result: 0, flags: 0 }]);
    assert_eq!(driver.ops.get_mut(1).unwrap().1.len(), 2);
    driver.tick(&[cqe(1, 7, MORE), cqe(1, 8, 0)]);
    assert_eq!(driver.ops.get_mut(1).unwrap().1.len(), 4);
    driver.ops.settle();
    assert_eq!(driver.ops.get_mut(1).unwrap().1.len(), 2);
    assert_eq!(driver.ops.drain(0), Some(2));
    assert_eq!(driver.ops.get_mut(2).unwrap().1.len(), 2);
}

#[test]
fn last_completions_end_the_shutdown() {
    let mut driver = driver(3);
    let mut shutdown = Shutdown::new();
    shutdown.step(&mut driver, Reply::Empty(true));
    for _ in 0..3 {
        assert!(pushes(&shutdown));
        shutdown.step(&mut driver, Reply::Pushed(true));
    }
    driver.tick(&[cqe(2, 1, MORE), cqe(1, -125, 0), cqe(2, -125, 0), cqe(0, -125, 0)]);
    shutdown.step(&mut driver, Reply::Done);
    assert!(matches!(shutdown.request(), Request::Stop));
    assert!(driver.ops.is_empty());
}
