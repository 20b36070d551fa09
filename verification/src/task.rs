//! Tasks: schedulable units of execution owned by a process, with their
//! execution status and per-resource-class allocation/need accounting.
use vstd::prelude::*;

use crate::RESOURCE_SLOTS;

verus! {

/// Number of syscall counters a task-information record reports.
pub const MAX_SYSCALL_NUM: usize = 500;

/// Default scheduler weight of a fresh task.
pub const DEFAULT_PRIORITY: isize = 16;

/// A task's place in its life cycle.
#[derive(PartialEq, Eq, Structural, Clone, Copy, Debug)]
pub enum TaskStatus {
    Ready,
    Running,
    Blocked,
    Zombie,
}

/// What a blocked task is waiting for. A sleeping task carries the
/// millisecond deadline at which the timer should wake it.
#[derive(PartialEq, Eq, Structural, Clone, Copy, Debug)]
pub enum BlockReason {
    OnMutex(usize),
    OnSemaphore(usize),
    OnCondvar(usize),
    Sleeping(usize),
}

/// One task. The allocation vectors count units of each resource slot the
/// task currently holds, the need vectors units it is currently requesting;
/// both are fixed-length, one entry per supported slot, per resource class.
///
/// `trap_ret` models the saved trap context's return-value register: the
/// value the task observes as its syscall result when next dispatched.
pub struct TaskControl {
    pub tid: usize,
    pub status: TaskStatus,
    pub blocked_on: Option<BlockReason>,
    pub trap_ret: isize,
    pub priority: isize,
    pub mutex_allocation: Vec<usize>,
    pub mutex_need: Vec<usize>,
    pub sem_allocation: Vec<usize>,
    pub sem_need: Vec<usize>,
}

impl TaskControl {
    /// The accounting vectors have one entry per supported resource slot.
    pub open spec fn wf(self) -> bool {
        &&& self.mutex_allocation@.len() == RESOURCE_SLOTS
        &&& self.mutex_need@.len() == RESOURCE_SLOTS
        &&& self.sem_allocation@.len() == RESOURCE_SLOTS
        &&& self.sem_need@.len() == RESOURCE_SLOTS
    }

    /// The same task with another execution status.
    pub open spec fn with_status(self, s: TaskStatus) -> TaskControl {
        TaskControl { status: s, ..self }
    }

    /// The same task with another scheduler weight.
    pub open spec fn with_priority(self, p: isize) -> TaskControl {
        TaskControl { priority: p, ..self }
    }

    /// A freshly created task: ready, unblocked, cleared accounting, a
    /// zero trap return value and the default weight.
    pub open spec fn is_fresh(self, tid: int) -> bool {
        &&& self.wf()
        &&& self.tid == tid
        &&& self.status == TaskStatus::Ready
        &&& self.blocked_on is None
        &&& self.trap_ret == 0
        &&& self.priority == DEFAULT_PRIORITY
        &&& forall|j: int| 0 <= j < RESOURCE_SLOTS ==> #[trigger] self.mutex_allocation@[j] == 0
        &&& forall|j: int| 0 <= j < RESOURCE_SLOTS ==> #[trigger] self.mutex_need@[j] == 0
        &&& forall|j: int| 0 <= j < RESOURCE_SLOTS ==> #[trigger] self.sem_allocation@[j] == 0
        &&& forall|j: int| 0 <= j < RESOURCE_SLOTS ==> #[trigger] self.sem_need@[j] == 0
    }

    /// A fresh, runnable task with cleared accounting.
    pub fn new(tid: usize) -> (r: TaskControl)
        ensures
            r.is_fresh(tid as int),
    {
        TaskControl {
            tid,
            status: TaskStatus::Ready,
            blocked_on: None,
            trap_ret: 0,
            priority: DEFAULT_PRIORITY,
            mutex_allocation: zero_slots(),
            mutex_need: zero_slots(),
            sem_allocation: zero_slots(),
            sem_need: zero_slots(),
        }
    }
}

/// A vector with one zero entry per supported resource slot.
pub fn zero_slots() -> (r: Vec<usize>)
    ensures
        r@.len() == RESOURCE_SLOTS,
        forall|j: int| 0 <= j < RESOURCE_SLOTS ==> #[trigger] r@[j] == 0,
{
    let mut v: Vec<usize> = Vec::new();
    let mut j: usize = 0;
    while j < RESOURCE_SLOTS
        invariant
            j <= RESOURCE_SLOTS,
            v@.len() == j,
            forall|k: int| 0 <= k < j ==> #[trigger] v@[k] == 0,
        decreases RESOURCE_SLOTS - j,
    {
        v.push(0);
        j += 1;
    }
    v
}

/// A wall-clock instant, split into whole seconds and microseconds.
#[derive(PartialEq, Eq, Structural, Clone, Copy, Debug)]
pub struct TimeVal {
    pub sec: usize,
    pub usec: usize,
}

/// Splits a microsecond count, as delivered by the external timer source,
/// into the second/microsecond pair reported to user space.
pub fn sys_get_time(us: usize) -> (r: TimeVal)
    ensures
        r.sec == us / 1_000_000,
        r.usec == us % 1_000_000,
{
    TimeVal { sec: us / 1_000_000, usec: us % 1_000_000 }
}

/// The count recorded for syscall number `j` by the pairs in `times`, the
/// last record winning; zero when none mentions `j`.
pub open spec fn recorded_count(times: Seq<(usize, u32)>, j: int) -> u32
    decreases times.len(),
{
    if times.len() == 0 {
        0u32
    } else if times.last().0 == j {
        times.last().1
    } else {
        recorded_count(times.drop_last(), j)
    }
}

/// Task information reported to user space: status, per-syscall invocation
/// counts, and total running time.
#[derive(Debug)]
pub struct TaskInfo {
    pub status: TaskStatus,
    pub syscall_times: Vec<u32>,
    pub time: usize,
}

/// Assembles a task-information record from a task's status, its sparse
/// (syscall number, count) records, and its running time.
#[verifier::loop_isolation(false)]
pub fn sys_task_info(status: TaskStatus, times: &Vec<(usize, u32)>, time: usize) -> (r: TaskInfo)
    requires
        forall|k: int| 0 <= k < times@.len() ==> (#[trigger] times@[k]).0 < MAX_SYSCALL_NUM,
    ensures
        r.status == status,
        r.time == time,
        r.syscall_times@.len() == MAX_SYSCALL_NUM,
        forall|j: int|
            0 <= j < MAX_SYSCALL_NUM ==> #[trigger] r.syscall_times@[j] == recorded_count(
                times@,
                j,
            ),
{
    let mut counts: Vec<u32> = Vec::new();
    let mut j: usize = 0;
    while j < MAX_SYSCALL_NUM
        invariant
            j <= MAX_SYSCALL_NUM,
            counts@.len() == j,
            forall|k: int| 0 <= k < j ==> #[trigger] counts@[k] == 0,
        decreases MAX_SYSCALL_NUM - j,
    {
        counts.push(0);
        j += 1;
    }
    proof {
        assert forall|jj: int| 0 <= jj < MAX_SYSCALL_NUM implies #[trigger] counts@[jj]
            == recorded_count(times@.subrange(0, 0), jj) by {
            assert(times@.subrange(0, 0).len() == 0);
        }
    }
    let mut k: usize = 0;
    while k < times.len()
        invariant
            k <= times@.len(),
            counts@.len() == MAX_SYSCALL_NUM,
            forall|jj: int|
                0 <= jj < MAX_SYSCALL_NUM ==> #[trigger] counts@[jj] == recorded_count(
                    times@.subrange(0, k as int),
                    jj,
                ),
        decreases times@.len() - k,
    {
        let idx: usize = times[k].0;
        let cnt: u32 = times[k].1;
        counts[idx] = cnt;
        proof {
            let pre: Seq<(usize, u32)> = times@.subrange(0, k as int);
            let cur: Seq<(usize, u32)> = times@.subrange(0, k + 1);
            assert(cur.drop_last() =~= pre);
            assert(cur.last() == times@[k as int]);
        }
        k += 1;
    }
    proof {
        assert(times@.subrange(0, times@.len() as int) =~= times@);
    }
    TaskInfo { status, syscall_times: counts, time }
}

} // verus!
