//! Processes: task sets, resource tables with first-fit slot reuse, the
//! address space, and the per-process lifecycle operations.
use vstd::prelude::*;

use crate::task::{BlockReason, TaskControl, TaskStatus};
use crate::vm::AddressSpace;
use crate::{MAX_PROCS, MAX_TASKS, RESOURCE_SLOTS};

verus! {

/// A binary lock, spin or blocking; both variants share one contract, the
/// tag recording which the creator asked for. `holder` is the task holding
/// the lock; `wait_queue` the tasks suspended on it (for the spin variant,
/// the tasks currently polling it).
pub struct MutexState {
    pub blocking: bool,
    pub locked: bool,
    pub holder: Option<usize>,
    pub wait_queue: Vec<usize>,
}

/// A counting semaphore. `total` is the capacity recorded at creation,
/// read only by the deadlock detector; `count` the units currently
/// available; `wait_queue` the tasks suspended on it.
pub struct SemState {
    pub total: usize,
    pub count: usize,
    pub wait_queue: Vec<usize>,
}

/// A condition variable: the tasks suspended waiting for a signal.
pub struct CondvarState {
    pub wait_queue: Vec<usize>,
}

/// An open file as the process sees it: access rights, the inode the
/// external store resolved, and the canonical path it was opened under.
pub struct FileHandle {
    pub readable: bool,
    pub writable: bool,
    pub ino: u64,
    pub path: Vec<u8>,
}

/// True when `j` indexes an occupied slot of `s`.
pub open spec fn opt_live<T>(s: Seq<Option<T>>, j: int) -> bool {
    0 <= j < s.len() && s[j] is Some
}

/// The occupant of slot `j` of `s`.
pub open spec fn opt_at<T>(s: Seq<Option<T>>, j: int) -> T {
    s[j]->Some_0
}

/// True when `i` occurs in queue `q`.
pub open spec fn in_queue(q: Seq<usize>, i: int) -> bool {
    exists|k: int| 0 <= k < q.len() && q[k] == i
}

/// True when task `t` is blocked acquiring mutex slot `j`.
pub open spec fn blocked_on_mutex(t: TaskControl, j: int) -> bool {
    match t.blocked_on {
        Some(BlockReason::OnMutex(m)) => m == j,
        _ => false,
    }
}

/// True when task `t` is blocked acquiring semaphore slot `j`.
pub open spec fn blocked_on_sem(t: TaskControl, j: int) -> bool {
    match t.blocked_on {
        Some(BlockReason::OnSemaphore(s)) => s == j,
        _ => false,
    }
}

/// True when task `t` stands in no wait queue: it is unblocked or merely
/// sleeping on the timer.
pub open spec fn not_queue_blocked(t: TaskControl) -> bool {
    match t.blocked_on {
        None => true,
        Some(BlockReason::Sleeping(_)) => true,
        _ => false,
    }
}

/// The holder of mutex slot `j`: `None` when the slot is empty or the
/// mutex unlocked.
pub open spec fn mutex_holder_in(mutexes: Seq<Option<MutexState>>, j: int) -> Option<usize> {
    if opt_live(mutexes, j) {
        opt_at(mutexes, j).holder
    } else {
        None
    }
}

/// Task-set well-formedness: capped size, per-task vector shapes, and
/// thread ids equal to the task's index.
pub open spec fn tasks_ok(tasks: Seq<Option<TaskControl>>) -> bool {
    &&& tasks.len() <= MAX_TASKS
    &&& forall|i: int| opt_live(tasks, i) ==> (#[trigger] opt_at(tasks, i)).wf()
    &&& forall|i: int| opt_live(tasks, i) ==> (#[trigger] opt_at(tasks, i)).tid == i
}

/// True when every live task of `tasks` is retired.
pub open spec fn all_zombie(tasks: Seq<Option<TaskControl>>) -> bool {
    forall|i: int| opt_live(tasks, i) ==> (#[trigger] opt_at(tasks, i)).status == TaskStatus::Zombie
}

/// Hard-link table keys are distinct.
pub open spec fn links_ok(links: Seq<(Vec<u8>, Vec<u8>)>) -> bool {
    forall|k1: int, k2: int|
        0 <= k1 < k2 < links.len() ==> (#[trigger] links[k1]).0@ != (#[trigger] links[k2]).0@
}

/// Each task's mutex accounting matches the mutex table: one allocated
/// unit exactly for a held slot, one needed unit exactly for the slot the
/// task is blocked on.
pub open spec fn mutex_accounting_ok(
    tasks: Seq<Option<TaskControl>>,
    mutexes: Seq<Option<MutexState>>,
) -> bool {
    &&& forall|i: int, j: int|
        opt_live(tasks, i) && 0 <= j < RESOURCE_SLOTS ==> (#[trigger] opt_at(
            tasks,
            i,
        ).mutex_allocation@[j]) == (if mutex_holder_in(mutexes, j) == Some(i as usize) {
            1usize
        } else {
            0usize
        })
    &&& forall|i: int, j: int|
        opt_live(tasks, i) && 0 <= j < RESOURCE_SLOTS ==> (#[trigger] opt_at(
            tasks,
            i,
        ).mutex_need@[j]) == (if blocked_on_mutex(opt_at(tasks, i), j) {
            1usize
        } else {
            0usize
        })
}

/// Each task's semaphore need matches what it is blocked on.
pub open spec fn sem_accounting_ok(
    tasks: Seq<Option<TaskControl>>,
    semaphores: Seq<Option<SemState>>,
) -> bool {
    forall|i: int, j: int|
        opt_live(tasks, i) && 0 <= j < RESOURCE_SLOTS ==> (#[trigger] opt_at(
            tasks,
            i,
        ).sem_need@[j]) == (if blocked_on_sem(opt_at(tasks, i), j) {
            1usize
        } else {
            0usize
        })
}

/// A task is blocked exactly when it records a block reason, and the
/// reason points at a live slot of the proper table, in whose wait queue
/// the task stands. Mutex and semaphore targets lie inside the accounted
/// slot range.
pub open spec fn blocked_ok(
    tasks: Seq<Option<TaskControl>>,
    mutexes: Seq<Option<MutexState>>,
    semaphores: Seq<Option<SemState>>,
    condvars: Seq<Option<CondvarState>>,
) -> bool {
    &&& forall|i: int|
        opt_live(tasks, i) ==> ((#[trigger] opt_at(tasks, i)).status == TaskStatus::Blocked
            <==> opt_at(tasks, i).blocked_on is Some)
    &&& forall|i: int|
        opt_live(tasks, i) ==> match (#[trigger] opt_at(tasks, i)).blocked_on {
            Some(BlockReason::OnMutex(m)) => m < RESOURCE_SLOTS && opt_live(mutexes, m as int)
                && opt_at(mutexes, m as int).locked && in_queue(
                opt_at(mutexes, m as int).wait_queue@,
                i,
            ),
            Some(BlockReason::OnSemaphore(s)) => s < RESOURCE_SLOTS && opt_live(
                semaphores,
                s as int,
            ) && in_queue(opt_at(semaphores, s as int).wait_queue@, i),
            Some(BlockReason::OnCondvar(c)) => opt_live(condvars, c as int) && in_queue(
                opt_at(condvars, c as int).wait_queue@,
                i,
            ),
            Some(BlockReason::Sleeping(_)) => true,
            None => true,
        }
}

/// One wait queue is well-formed against a block reason `r`: distinct
/// live tasks, each recording exactly `r`.
pub open spec fn queue_ok(
    tasks: Seq<Option<TaskControl>>,
    q: Seq<usize>,
    r: BlockReason,
) -> bool {
    &&& forall|k: int|
        0 <= k < q.len() ==> opt_live(tasks, #[trigger] q[k] as int) && opt_at(
            tasks,
            q[k] as int,
        ).blocked_on == Some(r)
    &&& forall|k1: int, k2: int| 0 <= k1 < k2 < q.len() ==> q[k1] != q[k2]
}

/// Mutex table invariants: a holder implies a locked mutex (a locked
/// mutex with no holder is held outside this process, as after a fork),
/// the holder is live, waiters are blocked on this very slot, and slots
/// beyond the accounted range are idle.
pub open spec fn mutex_table_ok(
    tasks: Seq<Option<TaskControl>>,
    mutexes: Seq<Option<MutexState>>,
) -> bool {
    forall|j: int|
        #![trigger opt_at(mutexes, j)]
        opt_live(mutexes, j) ==> {
            &&& (opt_at(mutexes, j).holder is Some ==> opt_at(mutexes, j).locked)
            &&& (opt_at(mutexes, j).holder is Some ==> opt_live(
                tasks,
                opt_at(mutexes, j).holder->0 as int,
            ))
            &&& (j >= RESOURCE_SLOTS ==> !opt_at(mutexes, j).locked && opt_at(
                mutexes,
                j,
            ).wait_queue@.len() == 0)
            &&& queue_ok(tasks, opt_at(mutexes, j).wait_queue@, BlockReason::OnMutex(j as usize))
        }
}

/// Semaphore table invariants: units are never available while tasks
/// wait, waiters are blocked on this very slot, and slots beyond the
/// accounted range have no waiters.
pub open spec fn sem_table_ok(
    tasks: Seq<Option<TaskControl>>,
    semaphores: Seq<Option<SemState>>,
) -> bool {
    forall|j: int|
        #![trigger opt_at(semaphores, j)]
        opt_live(semaphores, j) ==> {
            &&& (opt_at(semaphores, j).count > 0 ==> opt_at(semaphores, j).wait_queue@.len() == 0)
            &&& (j >= RESOURCE_SLOTS ==> opt_at(semaphores, j).wait_queue@.len() == 0)
            &&& queue_ok(
                tasks,
                opt_at(semaphores, j).wait_queue@,
                BlockReason::OnSemaphore(j as usize),
            )
        }
}

/// Condition-variable table invariants: waiters are blocked on this very
/// slot.
pub open spec fn condvar_table_ok(
    tasks: Seq<Option<TaskControl>>,
    condvars: Seq<Option<CondvarState>>,
) -> bool {
    forall|j: int|
        #![trigger opt_at(condvars, j)]
        opt_live(condvars, j) ==> queue_ok(
            tasks,
            opt_at(condvars, j).wait_queue@,
            BlockReason::OnCondvar(j as usize),
        )
}

/// Synchronization-state well-formedness over a process's task set and
/// resource tables.
pub open spec fn sync_ok(
    tasks: Seq<Option<TaskControl>>,
    mutexes: Seq<Option<MutexState>>,
    semaphores: Seq<Option<SemState>>,
    condvars: Seq<Option<CondvarState>>,
) -> bool {
    &&& mutex_accounting_ok(tasks, mutexes)
    &&& sem_accounting_ok(tasks, semaphores)
    &&& blocked_ok(tasks, mutexes, semaphores, condvars)
    &&& mutex_table_ok(tasks, mutexes)
    &&& sem_table_ok(tasks, semaphores)
    &&& condvar_table_ok(tasks, condvars)
}

/// One process: its tasks (owned exclusively, indexed by thread id), its
/// resource tables (a `None` slot is free and reusable), its children (by
/// pid), its address space and program break, its open files and hard-link
/// table, and its exit state.
pub struct ProcessState {
    pub pid: usize,
    pub zombie: bool,
    pub exit_code: i32,
    pub deadlock_detect: bool,
    pub tasks: Vec<Option<TaskControl>>,
    pub mutexes: Vec<Option<MutexState>>,
    pub semaphores: Vec<Option<SemState>>,
    pub condvars: Vec<Option<CondvarState>>,
    pub children: Vec<usize>,
    pub addr_space: AddressSpace,
    pub heap_bottom: usize,
    pub brk: usize,
    pub fd_table: Vec<Option<FileHandle>>,
    pub link_table: Vec<(Vec<u8>, Vec<u8>)>,
}

impl ProcessState {
    /// True when `i` is a valid, not yet reaped task index.
    pub open spec fn live(self, i: int) -> bool {
        opt_live(self.tasks@, i)
    }

    /// The task at index `i`.
    pub open spec fn task_at(self, i: int) -> TaskControl {
        opt_at(self.tasks@, i)
    }

    /// True when task `i` can make a syscall: live and dispatched or ready.
    pub open spec fn runnable(self, i: int) -> bool {
        self.live(i) && (self.task_at(i).status == TaskStatus::Running || self.task_at(i).status
            == TaskStatus::Ready)
    }

    /// The mutex at slot `j`.
    pub open spec fn mutex_at(self, j: int) -> MutexState {
        opt_at(self.mutexes@, j)
    }

    /// True when `j` is an occupied mutex slot.
    pub open spec fn mutex_live(self, j: int) -> bool {
        opt_live(self.mutexes@, j)
    }

    /// The holder of mutex slot `j`, `None` when the slot is empty or the
    /// mutex unlocked.
    pub open spec fn mutex_holder(self, j: int) -> Option<usize> {
        mutex_holder_in(self.mutexes@, j)
    }

    /// The semaphore at slot `j`.
    pub open spec fn sem_at(self, j: int) -> SemState {
        opt_at(self.semaphores@, j)
    }

    /// True when `j` is an occupied semaphore slot.
    pub open spec fn sem_live(self, j: int) -> bool {
        opt_live(self.semaphores@, j)
    }

    /// The condition variable at slot `j`.
    pub open spec fn condvar_at(self, j: int) -> CondvarState {
        opt_at(self.condvars@, j)
    }

    /// True when `j` is an occupied condition-variable slot.
    pub open spec fn condvar_live(self, j: int) -> bool {
        opt_live(self.condvars@, j)
    }

    /// Structural well-formedness: sizes, task identities, the address
    /// space, distinct hard-link keys, and the heap bounds. A zombie
    /// process has only zombie tasks.
    pub open spec fn base_wf(self) -> bool {
        &&& self.pid < MAX_PROCS
        &&& tasks_ok(self.tasks@)
        &&& self.addr_space.wf()
        &&& self.heap_bottom <= self.brk
        &&& self.brk <= usize::MAX as int / 2
        &&& links_ok(self.link_table@)
        &&& (self.zombie ==> all_zombie(self.tasks@))
    }

    /// Synchronization-state well-formedness, maintained while the process
    /// is alive; once a process is a zombie its tasks are retired and its
    /// primitives are no longer operated.
    pub open spec fn sync_wf(self) -> bool {
        sync_ok(self.tasks@, self.mutexes@, self.semaphores@, self.condvars@)
    }

    /// Process well-formedness.
    pub open spec fn wf(self) -> bool {
        &&& self.base_wf()
        &&& (self.zombie || self.sync_wf())
    }

    /// A fresh process with one ready task (thread id 0), empty resource
    /// tables, an empty address space and no children.
    pub fn new(pid: usize) -> (r: ProcessState)
        requires
            pid < MAX_PROCS,
        ensures
            r.wf(),
            r.pid == pid,
            !r.zombie,
            r.exit_code == 0,
            !r.deadlock_detect,
            r.tasks@.len() == 1,
            r.runnable(0),
            r.task_at(0).is_fresh(0),
            r.mutexes@.len() == 0,
            r.semaphores@.len() == 0,
            r.condvars@.len() == 0,
            r.children@.len() == 0,
            forall|p: usize| !r.addr_space.is_mapped(p),
            r.heap_bottom == 0,
            r.brk == 0,
            r.fd_table@.len() == 0,
            r.link_table@.len() == 0,
    {
        let task: TaskControl = TaskControl::new(0);
        let mut tasks: Vec<Option<TaskControl>> = Vec::new();
        tasks.push(Some(task));
        ProcessState {
            pid,
            zombie: false,
            exit_code: 0,
            deadlock_detect: false,
            tasks,
            mutexes: Vec::new(),
            semaphores: Vec::new(),
            condvars: Vec::new(),
            children: Vec::new(),
            addr_space: AddressSpace::new(),
            heap_bottom: 0,
            brk: 0,
            fd_table: Vec::new(),
            link_table: Vec::new(),
        }
    }

    /// This process's id, as the syscall reports it.
    pub fn sys_getpid(&self) -> (r: isize)
        requires
            self.wf(),
        ensures
            r == self.pid,
    {
        self.pid as isize
    }

    /// Adds a fresh ready task to the process and returns its thread id.
    pub fn task_create(&mut self) -> (r: usize)
        requires
            old(self).wf(),
            !old(self).zombie,
            old(self).tasks@.len() < MAX_TASKS,
        ensures
            final(self).wf(),
            r == old(self).tasks@.len(),
            final(self).tasks@.len() == old(self).tasks@.len() + 1,
            forall|i: int| 0 <= i < r ==> final(self).tasks@[i] == old(self).tasks@[i],
            final(self).runnable(r as int),
            final(self).task_at(r as int).is_fresh(r as int),
            same_but_tasks(*old(self), *final(self)),
    {
        let tid: usize = self.tasks.len();
        let task: TaskControl = TaskControl::new(tid);
        self.tasks.push(Some(task));
        proof {
            lemma_task_push_wf(old(self).tasks@, self.tasks@, *old(self));
        }
        tid
    }

    /// Yields the processor: the calling task goes back to the ready
    /// queue.
    pub fn sys_yield(&mut self, tid: usize) -> (r: isize)
        requires
            old(self).wf(),
            old(self).runnable(tid as int),
        ensures
            final(self).wf(),
            r == 0,
            final(self).tasks@ == old(self).tasks@.update(
                tid as int,
                Some(old(self).task_at(tid as int).with_status(TaskStatus::Ready)),
            ),
            same_but_tasks(*old(self), *final(self)),
    {
        proof {
            lemma_runnable_not_zombie(*self, tid as int);
        }
        match &mut self.tasks[tid] {
            Some(tc) => {
                tc.status = TaskStatus::Ready;
            },
            None => {},
        }
        proof {
            assert(self.tasks@ =~= old(self).tasks@.update(
                tid as int,
                Some(old(self).task_at(tid as int).with_status(TaskStatus::Ready)),
            ));
            lemma_unblocked_update_wf(old(self).tasks@, self.tasks@, *old(self), tid as int);
        }
        0
    }

    /// Retires the process: records the exit code, marks the process a
    /// zombie to be reaped by its parent, and retires every task. Control
    /// then passes to the scheduler for good; the caller never resumes.
    pub fn sys_exit(&mut self, exit_code: i32)
        requires
            old(self).wf(),
        ensures
            final(self).wf(),
            final(self).zombie,
            final(self).exit_code == exit_code,
            final(self).tasks@.len() == old(self).tasks@.len(),
            forall|i: int|
                old(self).live(i) ==> #[trigger] final(self).tasks@[i] == Some(
                    old(self).task_at(i).with_status(TaskStatus::Zombie),
                ),
            forall|i: int|
                0 <= i < old(self).tasks@.len() && old(self).tasks@[i] is None
                    ==> #[trigger] final(self).tasks@[i] is None,
            same_but_tasks_and_exit(*old(self), *final(self)),
    {
        self.zombie = true;
        self.exit_code = exit_code;
        let n: usize = self.tasks.len();
        let mut i: usize = 0;
        #[verifier::loop_isolation(false)]
        while i < n
            invariant
                i <= n,
                self.tasks@.len() == n,
                forall|k: int|
                    0 <= k < i && old(self).tasks@[k] is Some ==> #[trigger] self.tasks@[k] == Some(
                        opt_at(old(self).tasks@, k).with_status(TaskStatus::Zombie),
                    ),
                forall|k: int|
                    0 <= k < i && old(self).tasks@[k] is None ==> #[trigger] self.tasks@[k] is None,
                forall|k: int| i <= k < n ==> #[trigger] self.tasks@[k] == old(self).tasks@[k],
                self.zombie,
                self.exit_code == exit_code,
                same_but_tasks_and_exit(*old(self), *self),
            decreases n - i,
        {
            match &mut self.tasks[i] {
                Some(tc) => {
                    tc.status = TaskStatus::Zombie;
                },
                None => {},
            }
            i += 1;
        }
        proof {
            assert forall|i: int| opt_live(self.tasks@, i) implies (#[trigger] opt_at(
                self.tasks@,
                i,
            )).wf() && opt_at(self.tasks@, i).tid == i && opt_at(self.tasks@, i).status
                == TaskStatus::Zombie by {
                assert(old(self).tasks@[i] is Some);
                assert(opt_at(old(self).tasks@, i).wf());
                assert(opt_at(old(self).tasks@, i).tid == i);
            }
        }
    }

    /// Replaces the process image in place: `image` is the address space
    /// the external loader produced from the program, or `None` when the
    /// program could not be found or read, in which case the call fails
    /// and nothing changes. No new process or task identity is created.
    pub fn sys_exec(&mut self, image: Option<AddressSpace>) -> (r: isize)
        requires
            old(self).wf(),
            image is Some ==> image->Some_0.wf(),
        ensures
            final(self).wf(),
            r == 0 || r == -1,
            r == 0 <==> image is Some,
            r == -1 ==> *final(self) == *old(self),
            r == 0 ==> final(self).addr_space == image->Some_0 && same_but_addr_space(
                *old(self),
                *final(self),
            ),
    {
        match image {
            Some(space) => {
                self.addr_space = space;
                0
            },
            None => -1,
        }
    }

    /// Moves the program break by `delta` bytes and returns the old break;
    /// fails, changing nothing, when the move would fall below the heap
    /// bottom or beyond the user half of the address range.
    pub fn sys_sbrk(&mut self, delta: i32) -> (r: isize)
        requires
            old(self).wf(),
        ensures
            final(self).wf(),
            same_but_brk(*old(self), *final(self)),
            r == -1 || r == old(self).brk,
            r == -1 <==> old(self).brk + delta < old(self).heap_bottom || old(self).brk + delta
                > usize::MAX as int / 2,
            r == -1 ==> final(self).brk == old(self).brk,
            r != -1 ==> final(self).brk == old(self).brk + delta,
    {
        let half: usize = usize::MAX / 2;
        if delta >= 0 {
            let d: usize = delta as usize;
            if d > half - self.brk {
                return -1;
            }
            let old_brk: usize = self.brk;
            self.brk = self.brk + d;
            old_brk as isize
        } else {
            let d: usize = (-(delta as i64)) as usize;
            if self.brk < d || self.brk - d < self.heap_bottom {
                return -1;
            }
            let old_brk: usize = self.brk;
            self.brk = self.brk - d;
            old_brk as isize
        }
    }

    /// Sets the calling task's scheduler weight; on success the weight is
    /// returned. Weights below 2 are rejected, the stride scheduler's
    /// minimum.
    pub fn sys_set_priority(&mut self, tid: usize, prio: isize) -> (r: isize)
        requires
            old(self).wf(),
            old(self).runnable(tid as int),
        ensures
            final(self).wf(),
            prio < 2 ==> r == -1 && *final(self) == *old(self),
            prio >= 2 ==> r == prio && final(self).tasks@ == old(self).tasks@.update(
                tid as int,
                Some(old(self).task_at(tid as int).with_priority(prio)),
            ) && same_but_tasks(*old(self), *final(self)),
    {
        if prio < 2 {
            return -1;
        }
        proof {
            lemma_runnable_not_zombie(*self, tid as int);
        }
        match &mut self.tasks[tid] {
            Some(tc) => {
                tc.priority = prio;
            },
            None => {},
        }
        proof {
            assert(self.tasks@ =~= old(self).tasks@.update(
                tid as int,
                Some(old(self).task_at(tid as int).with_priority(prio)),
            ));
            lemma_unblocked_update_wf(old(self).tasks@, self.tasks@, *old(self), tid as int);
        }
        prio
    }

    /// Turns deadlock detection on (`1`) or off (`0`); any other argument
    /// is rejected.
    pub fn sys_enable_deadlock_detect(&mut self, enabled: usize) -> (r: isize)
        requires
            old(self).wf(),
        ensures
            final(self).wf(),
            r == 0 || r == -1,
            r == 0 <==> enabled == 0 || enabled == 1,
            r == -1 ==> *final(self) == *old(self),
            r == 0 ==> final(self).deadlock_detect == (enabled == 1) && same_but_detect(
                *old(self),
                *final(self),
            ),
    {
        if enabled == 1 {
            self.deadlock_detect = true;
            0
        } else if enabled == 0 {
            self.deadlock_detect = false;
            0
        } else {
            -1
        }
    }
}

/// `b` equals `a` in everything but the task vector.
pub open spec fn same_but_tasks(a: ProcessState, b: ProcessState) -> bool {
    &&& a.pid == b.pid
    &&& a.zombie == b.zombie
    &&& a.exit_code == b.exit_code
    &&& a.deadlock_detect == b.deadlock_detect
    &&& a.mutexes == b.mutexes
    &&& a.semaphores == b.semaphores
    &&& a.condvars == b.condvars
    &&& a.children == b.children
    &&& a.addr_space == b.addr_space
    &&& a.heap_bottom == b.heap_bottom
    &&& a.brk == b.brk
    &&& a.fd_table == b.fd_table
    &&& a.link_table == b.link_table
}

/// `b` equals `a` in everything but the task vector, the zombie flag and
/// the exit code.
pub open spec fn same_but_tasks_and_exit(a: ProcessState, b: ProcessState) -> bool {
    &&& a.pid == b.pid
    &&& a.deadlock_detect == b.deadlock_detect
    &&& a.mutexes == b.mutexes
    &&& a.semaphores == b.semaphores
    &&& a.condvars == b.condvars
    &&& a.children == b.children
    &&& a.addr_space == b.addr_space
    &&& a.heap_bottom == b.heap_bottom
    &&& a.brk == b.brk
    &&& a.fd_table == b.fd_table
    &&& a.link_table == b.link_table
}

/// `b` equals `a` in everything but the address space.
pub open spec fn same_but_addr_space(a: ProcessState, b: ProcessState) -> bool {
    &&& a.pid == b.pid
    &&& a.zombie == b.zombie
    &&& a.exit_code == b.exit_code
    &&& a.deadlock_detect == b.deadlock_detect
    &&& a.tasks == b.tasks
    &&& a.mutexes == b.mutexes
    &&& a.semaphores == b.semaphores
    &&& a.condvars == b.condvars
    &&& a.children == b.children
    &&& a.heap_bottom == b.heap_bottom
    &&& a.brk == b.brk
    &&& a.fd_table == b.fd_table
    &&& a.link_table == b.link_table
}

/// `b` equals `a` in everything but the program break.
pub open spec fn same_but_brk(a: ProcessState, b: ProcessState) -> bool {
    &&& a.pid == b.pid
    &&& a.zombie == b.zombie
    &&& a.exit_code == b.exit_code
    &&& a.deadlock_detect == b.deadlock_detect
    &&& a.tasks == b.tasks
    &&& a.mutexes == b.mutexes
    &&& a.semaphores == b.semaphores
    &&& a.condvars == b.condvars
    &&& a.children == b.children
    &&& a.addr_space == b.addr_space
    &&& a.heap_bottom == b.heap_bottom
    &&& a.fd_table == b.fd_table
    &&& a.link_table == b.link_table
}

/// `b` equals `a` in everything but the deadlock-detection flag.
pub open spec fn same_but_detect(a: ProcessState, b: ProcessState) -> bool {
    &&& a.pid == b.pid
    &&& a.zombie == b.zombie
    &&& a.exit_code == b.exit_code
    &&& a.tasks == b.tasks
    &&& a.mutexes == b.mutexes
    &&& a.semaphores == b.semaphores
    &&& a.condvars == b.condvars
    &&& a.children == b.children
    &&& a.addr_space == b.addr_space
    &&& a.heap_bottom == b.heap_bottom
    &&& a.brk == b.brk
    &&& a.fd_table == b.fd_table
    &&& a.link_table == b.link_table
}

/// `b` equals `a` in everything but the task set and the three resource
/// tables.
pub open spec fn same_but_sync(a: ProcessState, b: ProcessState) -> bool {
    &&& a.pid == b.pid
    &&& a.zombie == b.zombie
    &&& a.exit_code == b.exit_code
    &&& a.deadlock_detect == b.deadlock_detect
    &&& a.children == b.children
    &&& a.addr_space == b.addr_space
    &&& a.heap_bottom == b.heap_bottom
    &&& a.brk == b.brk
    &&& a.fd_table == b.fd_table
    &&& a.link_table == b.link_table
}

/// A runnable task exists, so the process is not a zombie; and if the
/// synchronization invariants hold, a runnable task is unblocked.
pub proof fn lemma_runnable_not_zombie(p: ProcessState, i: int)
    requires
        p.base_wf(),
        p.runnable(i),
    ensures
        !p.zombie,
        p.sync_wf() ==> p.task_at(i).blocked_on is None,
{
    if p.zombie {
        assert(opt_at(p.tasks@, i).status == TaskStatus::Zombie);
    }
    if p.sync_wf() {
        assert(opt_at(p.tasks@, i).status == TaskStatus::Blocked <==> opt_at(
            p.tasks@,
            i,
        ).blocked_on is Some);
    }
}

/// Queue well-formedness carries over to a task set whose queue members
/// stay live and keep their block reason.
pub proof fn lemma_queue_ok_frame(
    t0: Seq<Option<TaskControl>>,
    t1: Seq<Option<TaskControl>>,
    q: Seq<usize>,
    r: BlockReason,
)
    requires
        queue_ok(t0, q, r),
        forall|k: int|
            0 <= k < q.len() ==> opt_live(t1, #[trigger] q[k] as int) && opt_at(
                t1,
                q[k] as int,
            ).blocked_on == opt_at(t0, q[k] as int).blocked_on,
    ensures
        queue_ok(t1, q, r),
{
}

/// The synchronization invariants carry over from task set `t0` to `t1`
/// when every live task of `t1` is live in `t0` with equal state, except
/// possibly unblocked tasks whose status, priority or trap return value
/// changed, and fresh unblocked tasks with cleared accounting.
proof fn lemma_sync_ok_tasks(
    t0: Seq<Option<TaskControl>>,
    t1: Seq<Option<TaskControl>>,
    mutexes: Seq<Option<MutexState>>,
    semaphores: Seq<Option<SemState>>,
    condvars: Seq<Option<CondvarState>>,
)
    requires
        sync_ok(t0, mutexes, semaphores, condvars),
        forall|i: int|
            opt_live(t1, i) ==> {
                ||| (opt_live(t0, i) && opt_at(t1, i) == opt_at(t0, i))
                ||| {
                    &&& not_queue_blocked(#[trigger] opt_at(t1, i))
                    &&& (opt_at(t1, i).status == TaskStatus::Blocked <==> opt_at(
                        t1,
                        i,
                    ).blocked_on is Some)
                    &&& (opt_live(t0, i) ==> {
                        &&& not_queue_blocked(opt_at(t0, i))
                        &&& opt_at(t1, i).mutex_allocation == opt_at(t0, i).mutex_allocation
                        &&& opt_at(t1, i).mutex_need == opt_at(t0, i).mutex_need
                        &&& opt_at(t1, i).sem_allocation == opt_at(t0, i).sem_allocation
                        &&& opt_at(t1, i).sem_need == opt_at(t0, i).sem_need
                    })
                    &&& (!opt_live(t0, i) ==> opt_at(t1, i).is_fresh(i))
                }
            },
        forall|i: int| opt_live(t0, i) ==> opt_live(t1, i),
    ensures
        sync_ok(t1, mutexes, semaphores, condvars),
{
    assert forall|i: int, j: int|
        opt_live(t1, i) && 0 <= j < RESOURCE_SLOTS implies (#[trigger] opt_at(
        t1,
        i,
    ).mutex_allocation@[j]) == (if mutex_holder_in(mutexes, j) == Some(i as usize) {
        1usize
    } else {
        0usize
    }) by {
        if opt_live(t0, i) {
            assert(opt_at(t0, i).mutex_allocation@[j] == (if mutex_holder_in(mutexes, j) == Some(
                i as usize,
            ) {
                1usize
            } else {
                0usize
            }));
        } else {
            if mutex_holder_in(mutexes, j) == Some(i as usize) {
                assert(opt_live(t0, opt_at(mutexes, j).holder->0 as int));
                assert(false);
            }
        }
    }
    assert forall|i: int, j: int|
        opt_live(t1, i) && 0 <= j < RESOURCE_SLOTS implies (#[trigger] opt_at(
        t1,
        i,
    ).mutex_need@[j]) == (if blocked_on_mutex(opt_at(t1, i), j) {
        1usize
    } else {
        0usize
    }) by {
        if opt_live(t0, i) {
            assert(opt_at(t0, i).mutex_need@[j] == (if blocked_on_mutex(opt_at(t0, i), j) {
                1usize
            } else {
                0usize
            }));
        }
    }
    assert forall|i: int, j: int|
        opt_live(t1, i) && 0 <= j < RESOURCE_SLOTS implies (#[trigger] opt_at(t1, i).sem_need@[j])
        == (if blocked_on_sem(opt_at(t1, i), j) {
        1usize
    } else {
        0usize
    }) by {
        if opt_live(t0, i) {
            assert(opt_at(t0, i).sem_need@[j] == (if blocked_on_sem(opt_at(t0, i), j) {
                1usize
            } else {
                0usize
            }));
        }
    }
    assert forall|i: int| opt_live(t1, i) implies ((#[trigger] opt_at(t1, i)).status
        == TaskStatus::Blocked <==> opt_at(t1, i).blocked_on is Some) by {
        if opt_live(t0, i) && opt_at(t1, i) == opt_at(t0, i) {
            assert(opt_at(t0, i).status == TaskStatus::Blocked <==> opt_at(t0, i).blocked_on
                is Some);
        }
    }
    assert forall|i: int| opt_live(t1, i) implies match (#[trigger] opt_at(t1, i)).blocked_on {
        Some(BlockReason::OnMutex(m)) => m < RESOURCE_SLOTS && opt_live(mutexes, m as int)
            && opt_at(mutexes, m as int).locked && in_queue(
            opt_at(mutexes, m as int).wait_queue@,
            i,
        ),
        Some(BlockReason::OnSemaphore(s)) => s < RESOURCE_SLOTS && opt_live(semaphores, s as int)
            && in_queue(opt_at(semaphores, s as int).wait_queue@, i),
        Some(BlockReason::OnCondvar(c)) => opt_live(condvars, c as int) && in_queue(
            opt_at(condvars, c as int).wait_queue@,
            i,
        ),
        Some(BlockReason::Sleeping(_)) => true,
        None => true,
    } by {
        if opt_live(t0, i) && opt_at(t1, i) == opt_at(t0, i) {
            assert(match opt_at(t0, i).blocked_on {
                Some(BlockReason::OnMutex(m)) => m < RESOURCE_SLOTS && opt_live(mutexes, m as int)
                    && opt_at(mutexes, m as int).locked && in_queue(
                    opt_at(mutexes, m as int).wait_queue@,
                    i,
                ),
                Some(BlockReason::OnSemaphore(s)) => s < RESOURCE_SLOTS && opt_live(
                    semaphores,
                    s as int,
                ) && in_queue(opt_at(semaphores, s as int).wait_queue@, i),
                Some(BlockReason::OnCondvar(c)) => opt_live(condvars, c as int) && in_queue(
                    opt_at(condvars, c as int).wait_queue@,
                    i,
                ),
                Some(BlockReason::Sleeping(_)) => true,
                None => true,
            });
        }
    }
    assert forall|j: int| #![trigger opt_at(mutexes, j)] opt_live(mutexes, j) implies {
        &&& (opt_at(mutexes, j).holder is Some ==> opt_at(mutexes, j).locked)
        &&& (opt_at(mutexes, j).holder is Some ==> opt_live(
            t1,
            opt_at(mutexes, j).holder->0 as int,
        ))
        &&& (j >= RESOURCE_SLOTS ==> !opt_at(mutexes, j).locked && opt_at(
            mutexes,
            j,
        ).wait_queue@.len() == 0)
        &&& queue_ok(t1, opt_at(mutexes, j).wait_queue@, BlockReason::OnMutex(j as usize))
    } by {
        let q: Seq<usize> = opt_at(mutexes, j).wait_queue@;
        let r: BlockReason = BlockReason::OnMutex(j as usize);
        assert(queue_ok(t0, q, r));
        assert forall|k: int|
            0 <= k < q.len() implies opt_live(t1, #[trigger] q[k] as int) && opt_at(
            t1,
            q[k] as int,
        ) == opt_at(t0, q[k] as int) by {
            assert(opt_live(t0, q[k] as int));
            assert(opt_at(t0, q[k] as int).blocked_on == Some(r));
        }
        lemma_queue_ok_frame(t0, t1, q, r);
    }
    assert forall|j: int| #![trigger opt_at(semaphores, j)] opt_live(semaphores, j) implies {
        &&& (opt_at(semaphores, j).count > 0 ==> opt_at(semaphores, j).wait_queue@.len() == 0)
        &&& (j >= RESOURCE_SLOTS ==> opt_at(semaphores, j).wait_queue@.len() == 0)
        &&& queue_ok(t1, opt_at(semaphores, j).wait_queue@, BlockReason::OnSemaphore(j as usize))
    } by {
        let q: Seq<usize> = opt_at(semaphores, j).wait_queue@;
        let r: BlockReason = BlockReason::OnSemaphore(j as usize);
        assert(queue_ok(t0, q, r));
        assert forall|k: int|
            0 <= k < q.len() implies opt_live(t1, #[trigger] q[k] as int) && opt_at(
            t1,
            q[k] as int,
        ) == opt_at(t0, q[k] as int) by {
            assert(opt_live(t0, q[k] as int));
            assert(opt_at(t0, q[k] as int).blocked_on == Some(r));
        }
        lemma_queue_ok_frame(t0, t1, q, r);
    }
    assert forall|j: int| #![trigger opt_at(condvars, j)] opt_live(condvars, j) implies queue_ok(
        t1,
        opt_at(condvars, j).wait_queue@,
        BlockReason::OnCondvar(j as usize),
    ) by {
        let q: Seq<usize> = opt_at(condvars, j).wait_queue@;
        let r: BlockReason = BlockReason::OnCondvar(j as usize);
        assert(queue_ok(t0, q, r));
        assert forall|k: int|
            0 <= k < q.len() implies opt_live(t1, #[trigger] q[k] as int) && opt_at(
            t1,
            q[k] as int,
        ) == opt_at(t0, q[k] as int) by {
            assert(opt_live(t0, q[k] as int));
            assert(opt_at(t0, q[k] as int).blocked_on == Some(r));
        }
        lemma_queue_ok_frame(t0, t1, q, r);
    }
}

/// Appending a fresh task preserves task-set and synchronization
/// well-formedness.
proof fn lemma_task_push_wf(
    t0: Seq<Option<TaskControl>>,
    t1: Seq<Option<TaskControl>>,
    a: ProcessState,
)
    requires
        a.wf(),
        !a.zombie,
        t0 == a.tasks@,
        t1.len() == t0.len() + 1,
        t1.len() <= MAX_TASKS,
        forall|i: int| 0 <= i < t0.len() ==> t1[i] == t0[i],
        t1[t0.len() as int] is Some,
        opt_at(t1, t0.len() as int).is_fresh(t0.len() as int),
    ensures
        tasks_ok(t1),
        sync_ok(t1, a.mutexes@, a.semaphores@, a.condvars@),
{
    assert forall|i: int| opt_live(t1, i) implies (#[trigger] opt_at(t1, i)).wf() && opt_at(
        t1,
        i,
    ).tid == i by {
        if i < t0.len() {
            assert(opt_live(t0, i));
            assert(opt_at(t0, i).wf() && opt_at(t0, i).tid == i);
            assert(opt_at(t1, i) == opt_at(t0, i));
        }
    }
    assert forall|i: int| opt_live(t1, i) implies {
        ||| (opt_live(t0, i) && opt_at(t1, i) == opt_at(t0, i))
        ||| {
            &&& not_queue_blocked(#[trigger] opt_at(t1, i))
            &&& (opt_at(t1, i).status == TaskStatus::Blocked <==> opt_at(t1, i).blocked_on
                is Some)
            &&& (opt_live(t0, i) ==> {
                &&& not_queue_blocked(opt_at(t0, i))
                &&& opt_at(t1, i).mutex_allocation == opt_at(t0, i).mutex_allocation
                &&& opt_at(t1, i).mutex_need == opt_at(t0, i).mutex_need
                &&& opt_at(t1, i).sem_allocation == opt_at(t0, i).sem_allocation
                &&& opt_at(t1, i).sem_need == opt_at(t0, i).sem_need
            })
            &&& (!opt_live(t0, i) ==> opt_at(t1, i).is_fresh(i))
        }
    } by {
        if i < t0.len() {
            assert(opt_at(t1, i) == opt_at(t0, i));
        }
    }
    lemma_sync_ok_tasks(t0, t1, a.mutexes@, a.semaphores@, a.condvars@);
}

/// Updating one unblocked task's status (to a non-blocked one), priority
/// or trap return value preserves task-set and synchronization
/// well-formedness.
pub proof fn lemma_unblocked_update_wf(
    t0: Seq<Option<TaskControl>>,
    t1: Seq<Option<TaskControl>>,
    a: ProcessState,
    t: int,
)
    requires
        a.wf(),
        !a.zombie,
        t0 == a.tasks@,
        opt_live(t0, t),
        not_queue_blocked(opt_at(t0, t)),
        t1.len() == t0.len(),
        forall|i: int| 0 <= i < t0.len() && i != t ==> t1[i] == t0[i],
        t1[t] is Some,
        not_queue_blocked(opt_at(t1, t)),
        (opt_at(t1, t).status == TaskStatus::Blocked <==> opt_at(t1, t).blocked_on is Some),
        opt_at(t1, t).mutex_allocation == opt_at(t0, t).mutex_allocation,
        opt_at(t1, t).mutex_need == opt_at(t0, t).mutex_need,
        opt_at(t1, t).sem_allocation == opt_at(t0, t).sem_allocation,
        opt_at(t1, t).sem_need == opt_at(t0, t).sem_need,
        opt_at(t1, t).wf(),
        opt_at(t1, t).tid == t,
    ensures
        tasks_ok(t1),
        sync_ok(t1, a.mutexes@, a.semaphores@, a.condvars@),
{
    assert forall|i: int| opt_live(t1, i) implies (#[trigger] opt_at(t1, i)).wf() && opt_at(
        t1,
        i,
    ).tid == i by {
        if i != t {
            assert(opt_live(t0, i));
            assert(opt_at(t0, i).wf() && opt_at(t0, i).tid == i);
            assert(opt_at(t1, i) == opt_at(t0, i));
        }
    }
    assert forall|i: int| opt_live(t1, i) implies {
        ||| (opt_live(t0, i) && opt_at(t1, i) == opt_at(t0, i))
        ||| {
            &&& not_queue_blocked(#[trigger] opt_at(t1, i))
            &&& (opt_at(t1, i).status == TaskStatus::Blocked <==> opt_at(t1, i).blocked_on
                is Some)
            &&& (opt_live(t0, i) ==> {
                &&& not_queue_blocked(opt_at(t0, i))
                &&& opt_at(t1, i).mutex_allocation == opt_at(t0, i).mutex_allocation
                &&& opt_at(t1, i).mutex_need == opt_at(t0, i).mutex_need
                &&& opt_at(t1, i).sem_allocation == opt_at(t0, i).sem_allocation
                &&& opt_at(t1, i).sem_need == opt_at(t0, i).sem_need
            })
            &&& (!opt_live(t0, i) ==> opt_at(t1, i).is_fresh(i))
        }
    } by {
        if i != t {
            assert(opt_at(t1, i) == opt_at(t0, i));
        }
    }
    lemma_sync_ok_tasks(t0, t1, a.mutexes@, a.semaphores@, a.condvars@);
}

} // verus!
