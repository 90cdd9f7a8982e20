use tokio_uring::driver::completion::{Cqe, CqeResult};
use tokio_uring::driver::op::Lifecycle;
use tokio_uring::driver::ops::Ops;
use tokio_uring::driver::Driver;

const MORE: u32 = 2;

fn driver() -> Driver<u8> {
    Driver::new::<()>(Ok(7)).ok().unwrap()
}

fn cqe(index: usize, result: i32, flags: u32) -> Cqe {
    Cqe { user_data: index as u64, result, flags }
}

fn finished_with(ops: &mut Ops, index: usize) -> Option<CqeResult> {
    match ops.get_mut(index) {
        Some((Lifecycle::Completed(cqe), _)) => Some(*cqe),
        _ => None,
    }
}

fn last_report(ops: &mut Ops, index: usize) -> Option<CqeResult> {
    match ops.get_mut(index) {
        Some((Lifecycle::CompletionList(list), completions)) => Some(list.peek_end(completions)),
        _ => None,
    }
}

fn set(ops: &mut Ops, index: usize, cycle: Lifecycle) {
    *ops.get_mut(index).unwrap().0 = cycle;
}

#[test]
fn new_driver_has_nothing_in_flight() {
    let driver = driver();
    assert_eq!(driver.num_operations(), 0);
    assert_eq!(driver.uring, 7);
    assert!(driver.ops.all_completed());
}

#[test]
fn new_driver_passes_the_error_on() {
    assert_eq!(Driver::<u8>::new(Err("no ring")).err(), Some("no ring"));
}

#[test]
fn inserted_operations_have_distinct_keys() {
    let mut driver = driver();
    let first = driver.ops.insert();
    let second = driver.ops.insert();
    assert_ne!(first, second);
    assert_eq!(driver.num_operations(), 2);
    assert!(matches!(driver.ops.get_mut(first), Some((Lifecycle::Submitted, _))));
    driver.ops.remove(first);
    assert_eq!(driver.num_operations(), 1);
    assert!(driver.ops.get_mut(first).is_none());
    assert!(driver.ops.get_mut(second).is_some());
}

#[test]
fn a_single_completion_finishes_an_operation() {
    let mut driver = driver();
    let index = driver.ops.insert();
    assert!(!driver.ops.all_completed());
    driver.tick(&[cqe(index, 12, 0)]);
    assert_eq!(
        finished_with(&mut driver.ops, index),
        Some(CqeResult { result: Ok(12), flags: 0 })
    );
    assert_eq!(driver.num_operations(), 1);
    assert!(driver.ops.all_completed());
}

#[test]
fn a_waiting_operation_finishes_too() {
    let mut driver = driver();
    let index = driver.ops.insert();
    set(&mut driver.ops, index, Lifecycle::Waiting);
    driver.tick(&[cqe(index, -111, 0)]);
    assert_eq!(
        finished_with(&mut driver.ops, index),
        Some(CqeResult { result: Err(111), flags: 0 })
    );
}

#[test]
fn results_are_counts_or_error_numbers() {
    let read = |result: i32| CqeResult::from_cqe(Cqe { user_data: 1, result, flags: 5 });
    assert_eq!(read(0), CqeResult { result: Ok(0), flags: 5 });
    assert_eq!(read(i32::MAX), CqeResult { result: Ok(2147483647), flags: 5 });
    assert_eq!(read(-4), CqeResult { result: Err(4), flags: 5 });
    assert_eq!(read(i32::MIN), CqeResult { result: Err(i32::MIN), flags: 5 });
}

#[test]
fn the_result_of_a_cancellation_changes_nothing() {
    let mut driver = driver();
    let index = driver.ops.insert();
    let answer = Cqe { user_data: u64::MAX, result: -2, flags: 0 };
    assert!(driver.can_dispatch(&answer));
    driver.tick(&[answer, answer]);
    assert_eq!(driver.num_operations(), 1);
    assert!(matches!(driver.ops.get_mut(index), Some((Lifecycle::Submitted, _))));
}

#[test]
fn reports_are_kept_until_the_last() {
    let mut driver = driver();
    let index = driver.ops.insert();
    driver.tick(&[cqe(index, 1, MORE)]);
    assert_eq!(
        last_report(&mut driver.ops, index),
        Some(CqeResult { result: Ok(1), flags: MORE })
    );
    driver.tick(&[cqe(index, 2, MORE), cqe(index, 3, 0)]);
    assert_eq!(
        last_report(&mut driver.ops, index),
        Some(CqeResult { result: Ok(3), flags: 0 })
    );
    assert_eq!(driver.num_operations(), 1);
}

#[test]
fn lists_of_different_operations_do_not_mix() {
    let mut driver = driver();
    let first = driver.ops.insert();
    let second = driver.ops.insert();
    driver.tick(&[
        cqe(first, 1, MORE),
        cqe(second, 10, MORE),
        cqe(first, 2, MORE),
        cqe(second, 20, MORE),
    ]);
    assert_eq!(last_report(&mut driver.ops, first).unwrap().result, Ok(2));
    assert_eq!(last_report(&mut driver.ops, second).unwrap().result, Ok(20));
    let (cycle, completions) = driver.ops.get_mut(first).unwrap();
    assert_eq!(completions.len(), 4);
    if let Lifecycle::CompletionList(list) = *cycle {
        list.discard(completions);
        assert_eq!(completions.len(), 2);
        *cycle = Lifecycle::Ignored;
    }
    assert_eq!(last_report(&mut driver.ops, second).unwrap().result, Ok(20));
}

#[test]
fn an_ignored_operation_leaves_with_its_last_completion() {
    let mut driver = driver();
    let index = driver.ops.insert();
    set(&mut driver.ops, index, Lifecycle::Ignored);
    driver.tick(&[cqe(index, 1, MORE)]);
    assert!(matches!(driver.ops.get_mut(index), Some((Lifecycle::Ignored, _))));
    driver.tick(&[cqe(index, -125, 0)]);
    assert_eq!(driver.num_operations(), 0);
}

#[test]
fn completions_without_an_unfinished_operation_have_no_place() {
    let mut driver = driver();
    let index = driver.ops.insert();
    assert!(driver.can_dispatch(&cqe(index, 0, 0)));
    assert!(!driver.can_dispatch(&cqe(index + 1, 0, 0)));
    driver.tick(&[cqe(index, 0, 0)]);
    assert!(!driver.can_dispatch(&cqe(index, 0, 0)));
}

#[test]
fn two_batches_do_what_one_does() {
    let mut once = driver();
    let mut twice = driver();
    for driver in [&mut once, &mut twice] {
        let first = driver.ops.insert();
        let second = driver.ops.insert();
        assert_eq!((first, second), (0, 1));
        set(&mut driver.ops, second, Lifecycle::Ignored);
    }
    once.tick(&[cqe(0, 5, MORE), cqe(1, 0, 0), cqe(0, 6, 0)]);
    twice.tick(&[cqe(0, 5, MORE)]);
    twice.tick(&[cqe(1, 0, 0), cqe(0, 6, 0)]);
    assert_eq!(once.num_operations(), 1);
    assert_eq!(twice.num_operations(), 1);
    assert_eq!(last_report(&mut once.ops, 0), last_report(&mut twice.ops, 0));
}

#[test]
fn completions_of_different_operations_commute() {
    for order in [[0usize, 1usize], [1, 0]] {
        let mut driver = driver();
        driver.ops.insert();
        driver.ops.insert();
        for index in order {
            driver.tick(&[cqe(index, 100 + index as i32, 0)]);
        }
        assert_eq!(finished_with(&mut driver.ops, 0).unwrap().result, Ok(100));
        assert_eq!(finished_with(&mut driver.ops, 1).unwrap().result, Ok(101));
    }
}

#[test]
fn a_batch_stops_at_the_first_entry_without_a_place() {
    let mut driver = driver();
    let first = driver.ops.insert();
    let second = driver.ops.insert();
    let answer = Cqe { user_data: u64::MAX, result: 0, flags: 0 };
    let batch = [cqe(first, 1, 0), answer, cqe(first, 2, 0), cqe(second, 3, 0)];
    assert_eq!(driver.try_tick(&batch), 2);
    assert_eq!(finished_with(&mut driver.ops, first).unwrap().result, Ok(1));
    assert!(matches!(driver.ops.get_mut(second), Some((Lifecycle::Submitted, _))));
    assert!(!driver.can_dispatch(&batch[2]));
    assert_eq!(driver.try_tick(&batch[3..]), 1);
    assert_eq!(finished_with(&mut driver.ops, second).unwrap().result, Ok(3));
    assert_eq!(driver.try_tick(&[]), 0);
}

#[test]
fn operations_are_empty_when_none_is_left() {
    let mut driver = driver();
    assert!(driver.ops.is_empty());
    let index = driver.ops.insert();
    driver.tick(&[cqe(index, 0, 0)]);
    assert!(driver.ops.all_completed());
    assert!(!driver.ops.is_empty());
    driver.ops.remove(index);
    assert!(driver.ops.is_empty());
}
