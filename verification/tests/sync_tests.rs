use oscore::process::ProcessState;
use oscore::task::TaskStatus;
use oscore::SysOutcome;

#[test]
fn mutex_create_first_fit_and_reuse() {
    let mut p = ProcessState::new(0);
    assert_eq!(p.sys_mutex_create(false), 0);
    assert_eq!(p.sys_mutex_create(true), 1);
    assert_eq!(p.mutex_free(0), 0);
    assert_eq!(p.sys_mutex_create(true), 0);
    assert_eq!(p.sys_mutex_create(true), 2);
}

#[test]
fn mutex_free_rejects_locked_or_empty_slot() {
    let mut p = ProcessState::new(0);
    assert_eq!(p.sys_mutex_create(true), 0);
    assert_eq!(p.sys_mutex_lock(0, 0), SysOutcome::Done(0));
    assert_eq!(p.mutex_free(0), -1);
    assert_eq!(p.mutex_free(5), -1);
    assert_eq!(p.sys_mutex_unlock(0, 0), 0);
    assert_eq!(p.mutex_free(0), 0);
}

#[test]
fn lock_unlock_pair_nets_zero_and_mutex_is_relockable() {
    let mut p = ProcessState::new(0);
    let other: usize = p.task_create();
    assert_eq!(p.sys_mutex_create(true), 0);
    let before: Vec<usize> = match &p.tasks[0] {
        Some(t) => t.mutex_allocation.clone(),
        None => panic!("task 0 missing"),
    };
    assert_eq!(p.sys_mutex_lock(0, 0), SysOutcome::Done(0));
    assert_eq!(p.sys_mutex_unlock(0, 0), 0);
    let after: Vec<usize> = match &p.tasks[0] {
        Some(t) => t.mutex_allocation.clone(),
        None => panic!("task 0 missing"),
    };
    assert_eq!(before, after);
    assert_eq!(p.sys_mutex_lock(other, 0), SysOutcome::Done(0));
}

#[test]
fn mutex_lock_invalid_slot_reports_error() {
    let mut p = ProcessState::new(0);
    assert_eq!(p.sys_mutex_lock(0, 0), SysOutcome::Done(-1));
    assert_eq!(p.sys_mutex_create(true), 0);
    assert_eq!(p.sys_mutex_lock(0, 7), SysOutcome::Done(-1));
    assert_eq!(p.sys_mutex_unlock(0, 3), -1);
}

#[test]
fn unlock_hands_mutex_to_first_waiter() {
    let mut p = ProcessState::new(0);
    let b: usize = p.task_create();
    assert_eq!(p.sys_mutex_create(true), 0);
    assert_eq!(p.sys_mutex_lock(0, 0), SysOutcome::Done(0));
    assert_eq!(p.sys_mutex_lock(b, 0), SysOutcome::Suspend);
    match &p.tasks[b] {
        Some(t) => assert_eq!(t.status, TaskStatus::Blocked),
        None => panic!("waiter missing"),
    }
    assert_eq!(p.sys_mutex_unlock(0, 0), 0);
    match &p.tasks[b] {
        Some(t) => {
            assert_eq!(t.status, TaskStatus::Ready);
            assert_eq!(t.trap_ret, 0);
            assert_eq!(t.mutex_allocation[0], 1);
            assert_eq!(t.mutex_need[0], 0);
        },
        None => panic!("waiter missing"),
    }
    match &p.mutexes[0] {
        Some(m) => {
            assert!(m.locked);
            assert_eq!(m.holder, Some(b));
            assert!(m.wait_queue.is_empty());
        },
        None => panic!("mutex missing"),
    }
}

#[test]
fn semaphore_down_up_counts_units() {
    let mut p = ProcessState::new(0);
    assert_eq!(p.sys_semaphore_create(2), 0);
    assert_eq!(p.sys_semaphore_down(0, 0), SysOutcome::Done(0));
    assert_eq!(p.sys_semaphore_down(0, 0), SysOutcome::Done(0));
    match &p.semaphores[0] {
        Some(s) => assert_eq!(s.count, 0),
        None => panic!("semaphore missing"),
    }
    assert_eq!(p.sys_semaphore_up(0, 0), 0);
    match &p.semaphores[0] {
        Some(s) => assert_eq!(s.count, 1),
        None => panic!("semaphore missing"),
    }
}

#[test]
fn semaphore_up_wakes_blocked_waiter() {
    let mut p = ProcessState::new(0);
    let b: usize = p.task_create();
    assert_eq!(p.sys_semaphore_create(0), 0);
    assert_eq!(p.sys_semaphore_down(b, 0), SysOutcome::Suspend);
    match &p.tasks[b] {
        Some(t) => {
            assert_eq!(t.status, TaskStatus::Blocked);
            assert_eq!(t.sem_need[0], 1);
        },
        None => panic!("waiter missing"),
    }
    assert_eq!(p.sys_semaphore_up(0, 0), 0);
    match &p.tasks[b] {
        Some(t) => {
            assert_eq!(t.status, TaskStatus::Ready);
            assert_eq!(t.sem_need[0], 0);
            assert_eq!(t.sem_allocation[0], 1);
            assert_eq!(t.trap_ret, 0);
        },
        None => panic!("waiter missing"),
    }
    match &p.semaphores[0] {
        Some(s) => {
            assert_eq!(s.count, 0);
            assert!(s.wait_queue.is_empty());
        },
        None => panic!("semaphore missing"),
    }
}

#[test]
fn semaphore_invalid_slot_reports_error() {
    let mut p = ProcessState::new(0);
    assert_eq!(p.sys_semaphore_down(0, 0), SysOutcome::Done(-1));
    assert_eq!(p.sys_semaphore_up(0, 2), -1);
    assert_eq!(p.semaphore_free(0), -1);
}

#[test]
fn semaphore_free_clears_held_unit_accounting() {
    let mut p = ProcessState::new(0);
    assert_eq!(p.sys_semaphore_create(3), 0);
    assert_eq!(p.sys_semaphore_down(0, 0), SysOutcome::Done(0));
    assert_eq!(p.sys_semaphore_down(0, 0), SysOutcome::Done(0));
    match &p.tasks[0] {
        Some(t) => assert_eq!(t.sem_allocation[0], 2),
        None => panic!("task missing"),
    }
    assert_eq!(p.semaphore_free(0), 0);
    match &p.tasks[0] {
        Some(t) => assert_eq!(t.sem_allocation[0], 0),
        None => panic!("task missing"),
    }
    assert_eq!(p.sys_semaphore_create(9), 0);
}

#[test]
fn condvar_wait_releases_mutex_and_signal_wakes() {
    let mut p = ProcessState::new(0);
    let b: usize = p.task_create();
    assert_eq!(p.sys_mutex_create(true), 0);
    assert_eq!(p.sys_condvar_create(), 0);
    assert_eq!(p.sys_mutex_lock(0, 0), SysOutcome::Done(0));
    assert_eq!(p.sys_condvar_wait(0, 0, 0), SysOutcome::Suspend);
    match &p.mutexes[0] {
        Some(m) => assert!(!m.locked),
        None => panic!("mutex missing"),
    }
    match &p.tasks[0] {
        Some(t) => assert_eq!(t.status, TaskStatus::Blocked),
        None => panic!("task missing"),
    }
    assert_eq!(p.sys_mutex_lock(b, 0), SysOutcome::Done(0));
    assert_eq!(p.sys_condvar_signal(0), 0);
    match &p.tasks[0] {
        Some(t) => {
            assert_eq!(t.status, TaskStatus::Ready);
            assert_eq!(t.mutex_allocation[0], 0);
        },
        None => panic!("task missing"),
    }
    match &p.mutexes[0] {
        Some(m) => assert_eq!(m.holder, Some(b)),
        None => panic!("mutex missing"),
    }
}

#[test]
fn condvar_signal_with_no_waiter_is_a_no_op() {
    let mut p = ProcessState::new(0);
    assert_eq!(p.sys_condvar_create(), 0);
    assert_eq!(p.sys_condvar_signal(0), 0);
    assert_eq!(p.sys_condvar_signal(3), -1);
    assert_eq!(p.sys_condvar_wait(0, 1, 0), SysOutcome::Done(-1));
}

#[test]
fn sleep_blocks_until_timer_deadline() {
    let mut p = ProcessState::new(0);
    assert_eq!(p.sys_sleep(0, 150), SysOutcome::Suspend);
    match &p.tasks[0] {
        Some(t) => assert_eq!(t.status, TaskStatus::Blocked),
        None => panic!("task missing"),
    }
    assert_eq!(p.timer_wake(0, 100), -1);
    assert_eq!(p.timer_wake(0, 150), 0);
    match &p.tasks[0] {
        Some(t) => assert_eq!(t.status, TaskStatus::Ready),
        None => panic!("task missing"),
    }
    assert_eq!(p.timer_wake(0, 200), -1);
}
