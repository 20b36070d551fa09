use oscore::bankers::bankers_check;
use oscore::process::ProcessState;
use oscore::{SysOutcome, DEADLOCK_AVOIDED};

#[test]
fn circular_wait_refused_without_blocking_requester() {
    let mut p = ProcessState::new(0);
    let b: usize = p.task_create();
    assert_eq!(b, 1);
    assert_eq!(p.sys_enable_deadlock_detect(1), 0);
    assert_eq!(p.sys_mutex_create(true), 0);
    assert_eq!(p.sys_mutex_create(true), 1);
    assert_eq!(p.sys_mutex_lock(0, 0), SysOutcome::Done(0));
    assert_eq!(p.sys_mutex_lock(b, 1), SysOutcome::Done(0));
    assert_eq!(p.sys_mutex_lock(b, 0), SysOutcome::Suspend);
    assert_eq!(p.sys_mutex_lock(0, 1), SysOutcome::Done(DEADLOCK_AVOIDED));
    match &p.tasks[0] {
        Some(t) => {
            assert!(t.blocked_on.is_none());
            assert_eq!(t.mutex_need[1], 0);
        },
        None => panic!("task missing"),
    }
}

#[test]
fn detection_disabled_lets_unsafe_request_block() {
    let mut p = ProcessState::new(0);
    let b: usize = p.task_create();
    assert_eq!(p.sys_mutex_create(true), 0);
    assert_eq!(p.sys_mutex_create(true), 1);
    assert_eq!(p.sys_mutex_lock(0, 0), SysOutcome::Done(0));
    assert_eq!(p.sys_mutex_lock(b, 1), SysOutcome::Done(0));
    assert_eq!(p.sys_mutex_lock(b, 0), SysOutcome::Suspend);
    assert_eq!(p.sys_mutex_lock(0, 1), SysOutcome::Suspend);
}

#[test]
fn bankers_classic_safe_example() {
    let alloc: Vec<Vec<usize>> = vec![
        vec![0, 1, 0],
        vec![2, 0, 0],
        vec![3, 0, 2],
        vec![2, 1, 1],
        vec![0, 0, 2],
    ];
    let need: Vec<Vec<usize>> = vec![
        vec![7, 4, 3],
        vec![1, 2, 2],
        vec![6, 0, 0],
        vec![0, 1, 1],
        vec![4, 3, 1],
    ];
    let work: Vec<i128> = vec![3, 3, 2];
    assert!(bankers_check(&work, &alloc, &need));
}

#[test]
fn bankers_circular_example_unsafe() {
    let alloc: Vec<Vec<usize>> = vec![vec![1, 0], vec![0, 1]];
    let need: Vec<Vec<usize>> = vec![vec![0, 1], vec![1, 0]];
    let work: Vec<i128> = vec![0, 0];
    assert!(!bankers_check(&work, &alloc, &need));
}

#[test]
fn semaphore_request_in_safe_state_is_granted() {
    let mut p = ProcessState::new(0);
    let b: usize = p.task_create();
    let c: usize = p.task_create();
    assert_eq!(p.sys_enable_deadlock_detect(1), 0);
    assert_eq!(p.sys_semaphore_create(10), 0);
    assert_eq!(p.sys_semaphore_create(5), 1);
    assert_eq!(p.sys_semaphore_create(7), 2);
    assert_eq!(p.sys_semaphore_down(0, 1), SysOutcome::Done(0));
    assert_eq!(p.sys_semaphore_down(b, 0), SysOutcome::Done(0));
    assert_eq!(p.sys_semaphore_down(b, 0), SysOutcome::Done(0));
    assert_eq!(p.sys_semaphore_down(c, 0), SysOutcome::Done(0));
    assert_eq!(p.sys_semaphore_down(c, 0), SysOutcome::Done(0));
    assert_eq!(p.sys_semaphore_down(c, 0), SysOutcome::Done(0));
    assert_eq!(p.sys_semaphore_down(c, 2), SysOutcome::Done(0));
    assert_eq!(p.sys_semaphore_down(c, 2), SysOutcome::Done(0));
    assert_eq!(p.sys_semaphore_down(c, 2), SysOutcome::Done(0));
}

#[test]
fn semaphore_self_deadlock_refused() {
    let mut p = ProcessState::new(0);
    assert_eq!(p.sys_enable_deadlock_detect(1), 0);
    assert_eq!(p.sys_semaphore_create(0), 0);
    assert_eq!(p.sys_semaphore_down(0, 0), SysOutcome::Done(DEADLOCK_AVOIDED));
}

#[test]
fn enable_deadlock_detect_argument_validation() {
    let mut p = ProcessState::new(0);
    assert_eq!(p.sys_enable_deadlock_detect(1), 0);
    assert!(p.deadlock_detect);
    assert_eq!(p.sys_enable_deadlock_detect(0), 0);
    assert!(!p.deadlock_detect);
    assert_eq!(p.sys_enable_deadlock_detect(2), -1);
}
