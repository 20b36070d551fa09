use oscore::kernel::Kernel;
use oscore::process::ProcessState;
use oscore::task::{sys_get_time, sys_task_info, TaskStatus, MAX_SYSCALL_NUM};
use oscore::vm::AddressSpace;
use oscore::{SysOutcome, PAGE_SIZE};

#[test]
fn waitpid_reports_each_child_state_exactly_once() {
    let mut k = Kernel::new();
    assert_eq!(k.sys_waitpid(0, -1), (-1, None));
    assert_eq!(k.sys_fork(0), 1);
    assert_eq!(k.sys_waitpid(0, -1), (-2, None));
    match &mut k.processes[1] {
        Some(child) => child.sys_exit(42),
        None => panic!("child missing"),
    }
    assert_eq!(k.sys_waitpid(0, -1), (1, Some(42)));
    assert!(k.processes[1].is_none());
    assert_eq!(k.sys_waitpid(0, -1), (-1, None));
}

#[test]
fn waitpid_matches_by_pid() {
    let mut k = Kernel::new();
    assert_eq!(k.sys_fork(0), 1);
    assert_eq!(k.sys_fork(0), 2);
    assert_eq!(k.sys_waitpid(0, 5), (-1, None));
    assert_eq!(k.sys_waitpid(0, 2), (-2, None));
    match &mut k.processes[2] {
        Some(child) => child.sys_exit(-7),
        None => panic!("child missing"),
    }
    assert_eq!(k.sys_waitpid(0, 1), (-2, None));
    assert_eq!(k.sys_waitpid(0, 2), (2, Some(-7)));
    assert_eq!(k.sys_waitpid(0, 2), (-1, None));
}

#[test]
fn fork_child_shares_image_and_starts_clean() {
    let mut k = Kernel::new();
    match &mut k.processes[0] {
        Some(p) => {
            assert_eq!(p.addr_space.sys_mmap(0x8000, PAGE_SIZE, 0x3), 0);
            assert_eq!(p.sys_mutex_create(true), 0);
            assert_eq!(p.sys_mutex_lock(0, 0), SysOutcome::Done(0));
        },
        None => panic!("root missing"),
    }
    assert_eq!(k.sys_fork(0), 1);
    match &k.processes[1] {
        Some(c) => {
            assert_eq!(c.pid, 1);
            assert!(c.addr_space.translate(0x8000 / PAGE_SIZE).is_some());
            assert_eq!(c.tasks.len(), 1);
            match &c.tasks[0] {
                Some(t) => {
                    assert_eq!(t.trap_ret, 0);
                    assert_eq!(t.status, TaskStatus::Ready);
                    assert_eq!(t.mutex_allocation[0], 0);
                },
                None => panic!("child task missing"),
            }
            match &c.mutexes[0] {
                Some(m) => {
                    assert!(m.locked);
                    assert!(m.holder.is_none());
                },
                None => panic!("child mutex handle missing"),
            }
        },
        None => panic!("child missing"),
    }
    match &k.processes[0] {
        Some(p) => assert_eq!(p.children, vec![1]),
        None => panic!("root missing"),
    }
}

#[test]
fn parent_held_mutex_reaches_child_locked_until_released() {
    let mut k = Kernel::new();
    match &mut k.processes[0] {
        Some(p) => {
            assert_eq!(p.sys_mutex_create(true), 0);
            assert_eq!(p.sys_mutex_lock(0, 0), SysOutcome::Done(0));
        },
        None => panic!("root missing"),
    }
    assert_eq!(k.sys_fork(0), 1);
    match &mut k.processes[1] {
        Some(c) => {
            assert_eq!(c.sys_mutex_lock(0, 0), SysOutcome::Suspend);
            match &c.tasks[0] {
                Some(t) => assert_eq!(t.status, TaskStatus::Blocked),
                None => panic!("child task missing"),
            }
        },
        None => panic!("child missing"),
    }
    match &mut k.processes[0] {
        Some(p) => assert_eq!(p.sys_mutex_unlock(0, 0), 0),
        None => panic!("root missing"),
    }
    match &mut k.processes[1] {
        Some(c) => assert_eq!(c.mutex_external_release(0), 0),
        None => panic!("child missing"),
    }
    match &k.processes[1] {
        Some(c) => {
            match (&c.tasks[0], &c.mutexes[0]) {
                (Some(t), Some(m)) => {
                    assert_eq!(t.status, TaskStatus::Ready);
                    assert_eq!(t.mutex_allocation[0], 1);
                    assert!(m.locked);
                    assert_eq!(m.holder, Some(0));
                },
                _ => panic!("child state missing"),
            }
        },
        None => panic!("child missing"),
    }
}

#[test]
fn reaped_pid_is_reused_first_fit() {
    let mut k = Kernel::new();
    assert_eq!(k.sys_fork(0), 1);
    assert_eq!(k.sys_fork(0), 2);
    match &mut k.processes[1] {
        Some(child) => child.sys_exit(0),
        None => panic!("child missing"),
    }
    assert_eq!(k.sys_waitpid(0, 1), (1, Some(0)));
    assert_eq!(k.sys_fork(0), 1);
}

#[test]
fn spawn_creates_process_directly_from_image() {
    let mut k = Kernel::new();
    assert_eq!(k.sys_spawn(0, None), -1);
    let mut image = AddressSpace::new();
    assert_eq!(image.sys_mmap(0, 4 * PAGE_SIZE, 0x7), 0);
    let pid = k.sys_spawn(0, Some(image));
    assert_eq!(pid, 1);
    match &k.processes[1] {
        Some(c) => {
            assert!(c.addr_space.translate(0).is_some());
            assert_eq!(c.mutexes.len(), 0);
            assert_eq!(c.tasks.len(), 1);
        },
        None => panic!("spawned process missing"),
    }
    match &k.processes[0] {
        Some(p) => assert_eq!(p.children, vec![1]),
        None => panic!("root missing"),
    }
}

#[test]
fn exec_replaces_image_in_place_or_fails() {
    let mut p = ProcessState::new(3);
    assert_eq!(p.sys_exec(None), -1);
    assert_eq!(p.addr_space.pages.len(), 0);
    let mut image = AddressSpace::new();
    assert_eq!(image.sys_mmap(0, PAGE_SIZE, 0x5), 0);
    assert_eq!(p.sys_exec(Some(image)), 0);
    assert!(p.addr_space.translate(0).is_some());
    assert_eq!(p.pid, 3);
}

#[test]
fn exit_retires_process_and_records_code() {
    let mut p = ProcessState::new(0);
    let b: usize = p.task_create();
    p.sys_exit(99);
    assert!(p.zombie);
    assert_eq!(p.exit_code, 99);
    match (&p.tasks[0], &p.tasks[b]) {
        (Some(t0), Some(t1)) => {
            assert_eq!(t0.status, TaskStatus::Zombie);
            assert_eq!(t1.status, TaskStatus::Zombie);
        },
        _ => panic!("tasks missing"),
    }
}

#[test]
fn getpid_yield_and_priority() {
    let mut p = ProcessState::new(7);
    assert_eq!(p.sys_getpid(), 7);
    assert_eq!(p.sys_yield(0), 0);
    match &p.tasks[0] {
        Some(t) => assert_eq!(t.status, TaskStatus::Ready),
        None => panic!("task missing"),
    }
    assert_eq!(p.sys_set_priority(0, 1), -1);
    assert_eq!(p.sys_set_priority(0, 10), 10);
    match &p.tasks[0] {
        Some(t) => assert_eq!(t.priority, 10),
        None => panic!("task missing"),
    }
}

#[test]
fn sbrk_moves_break_and_rejects_underflow() {
    let mut p = ProcessState::new(0);
    assert_eq!(p.sys_sbrk(4096), 0);
    assert_eq!(p.brk, 4096);
    assert_eq!(p.sys_sbrk(-1000), 4096);
    assert_eq!(p.brk, 3096);
    assert_eq!(p.sys_sbrk(-4000), -1);
    assert_eq!(p.brk, 3096);
}

#[test]
fn get_time_splits_microseconds() {
    let t = sys_get_time(3_456_789);
    assert_eq!(t.sec, 3);
    assert_eq!(t.usec, 456_789);
}

#[test]
fn task_info_fills_syscall_counters_last_record_wins() {
    let times: Vec<(usize, u32)> = vec![(64, 3), (93, 1), (64, 5)];
    let info = sys_task_info(TaskStatus::Running, &times, 777);
    assert_eq!(info.status, TaskStatus::Running);
    assert_eq!(info.time, 777);
    assert_eq!(info.syscall_times.len(), MAX_SYSCALL_NUM);
    assert_eq!(info.syscall_times[64], 5);
    assert_eq!(info.syscall_times[93], 1);
    assert_eq!(info.syscall_times[0], 0);
}

#[test]
fn waitpid_negative_target_other_than_any_matches_nothing() {
    let mut k = Kernel::new();
    assert_eq!(k.sys_fork(0), 1);
    assert_eq!(k.sys_waitpid(0, -3), (-1, None));
}

#[test]
fn shared_semaphore_unit_reaches_child_waiter() {
    let mut k = Kernel::new();
    match &mut k.processes[0] {
        Some(p) => {
            assert_eq!(p.sys_semaphore_create(1), 0);
            assert_eq!(p.sys_semaphore_down(0, 0), SysOutcome::Done(0));
        },
        None => panic!("root missing"),
    }
    assert_eq!(k.sys_fork(0), 1);
    match &mut k.processes[1] {
        Some(c) => {
            match &c.semaphores[0] {
                Some(s) => assert_eq!(s.count, 0),
                None => panic!("child semaphore handle missing"),
            }
            assert_eq!(c.sys_semaphore_down(0, 0), SysOutcome::Suspend);
        },
        None => panic!("child missing"),
    }
    match &mut k.processes[0] {
        Some(p) => assert_eq!(p.sys_semaphore_up(0, 0), 0),
        None => panic!("root missing"),
    }
    match &mut k.processes[1] {
        Some(c) => assert_eq!(c.semaphore_external_up(0), 0),
        None => panic!("child missing"),
    }
    match &k.processes[1] {
        Some(c) => match &c.tasks[0] {
            Some(t) => {
                assert_eq!(t.status, TaskStatus::Ready);
                assert_eq!(t.sem_allocation[0], 1);
            },
            None => panic!("child task missing"),
        },
        None => panic!("child missing"),
    }
}
