use task_composer::task::{run_to_completion, Step, Task};

/// Driving a task exactly once yields the result it was built with, and its
/// markers land in the log in order.
#[test]
fn run_yields_result() {
    let mut log: Vec<u64> = Vec::new();
    let t = Task::create(vec![7], 42u64);
    let r = run_to_completion(&mut log, t);
    assert_eq!(r, 42);
    assert_eq!(log, vec![7]);
}

/// Building a task runs nothing: the log stays empty until a driver advances
/// the task.
#[test]
fn create_runs_nothing() {
    let log: Vec<u64> = Vec::new();
    let _t = Task::create(vec![1, 2, 3], 0u64);
    assert!(log.is_empty());
}

/// A task with no markers completes on its very first advancement.
#[test]
fn empty_body_resolves_on_first_poll() {
    let mut log: Vec<u64> = Vec::new();
    let mut t = Task::create(Vec::new(), 5u64);
    match t.advance(&mut log) {
        Step::Ready(v) => assert_eq!(v, 5),
        Step::Pending => panic!("a task with nothing left to emit must complete"),
    }
    assert!(log.is_empty());
}

/// A one-marker task also resolves on its first advancement, emitting its
/// marker in the same step.
#[test]
fn one_step_body_resolves_on_first_poll() {
    let mut log: Vec<u64> = Vec::new();
    let mut t = Task::create(vec![11], 6u64);
    match t.advance(&mut log) {
        Step::Ready(v) => assert_eq!(v, 6),
        Step::Pending => panic!("a one-marker task must complete on its first step"),
    }
    assert_eq!(log, vec![11]);
}

/// A two-marker task suspends after its first step and completes on the
/// second, emitting one marker per step.
#[test]
fn two_step_body_suspends_once() {
    let mut log: Vec<u64> = Vec::new();
    let mut t = Task::create(vec![1, 2], 9u64);
    assert!(matches!(t.advance(&mut log), Step::Pending));
    assert_eq!(log, vec![1]);
    match t.advance(&mut log) {
        Step::Ready(v) => assert_eq!(v, 9),
        Step::Pending => panic!("the second step must complete the task"),
    }
    assert_eq!(log, vec![1, 2]);
}

/// Anything in the log before the driver is called stays strictly before the
/// task's own markers: create, then log a marker by hand, then drive.
#[test]
fn output_before_driving_comes_first() {
    let mut log: Vec<u64> = Vec::new();
    let t = Task::create(vec![20], ());
    log.push(10);
    run_to_completion(&mut log, t);
    assert_eq!(log, vec![10, 20]);
}

/// A body that can fail yields a `Result`, and the driver hands it back
/// unchanged: the failure propagates to the caller of the driver.
#[test]
fn failure_propagates_through_the_driver() {
    let mut log: Vec<u64> = Vec::new();
    let failing: Task<Result<u64, u64>> = Task::create(vec![1], Err(3));
    assert_eq!(run_to_completion(&mut log, failing), Err(3));
    let fine: Task<Result<u64, u64>> = Task::create(vec![2], Ok(4));
    assert_eq!(run_to_completion(&mut log, fine), Ok(4));
    assert_eq!(log, vec![1, 2]);
}

/// The driver handles a body with several suspension points: every marker
/// arrives, in the body's own order.
#[test]
fn long_body_runs_to_completion() {
    let mut log: Vec<u64> = Vec::new();
    let t = Task::create(vec![4, 3, 2, 1], 1u64);
    let r = run_to_completion(&mut log, t);
    assert_eq!(r, 1);
    assert_eq!(log, vec![4, 3, 2, 1]);
}
