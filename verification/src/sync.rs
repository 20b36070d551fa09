//! Synchronization primitives and their resource-table bookkeeping:
//! creation and release of mutexes, semaphores and condition variables
//! with first-fit slot reuse, the lock/unlock, down/up and wait/signal
//! operations, and the deadlock detector gating blocking acquisitions.
use vstd::prelude::*;

use crate::bankers::{bankers_check, bankers_safe, mat_view, row_view, work_view};
use crate::process::{
    blocked_on_mutex, blocked_on_sem, in_queue, lemma_queue_ok_frame, mutex_holder_in, opt_at,
    opt_live, queue_ok, same_but_sync, sync_ok, tasks_ok, CondvarState, MutexState, ProcessState,
    SemState,
};
use crate::process::{lemma_runnable_not_zombie, same_but_tasks};
use crate::task::{zero_slots, BlockReason, TaskControl, TaskStatus};
use crate::{SysOutcome, DEADLOCK_AVOIDED, MAX_TABLE, RESOURCE_SLOTS};

verus! {

/// Index of the first free (`None`) slot at or after `k`, or the table
/// length when every slot is occupied.
pub open spec fn first_free_index<T>(s: Seq<Option<T>>, k: int) -> int
    decreases s.len() - k,
{
    if k < 0 || k >= s.len() {
        s.len() as int
    } else if s[k] is None {
        k
    } else {
        first_free_index(s, k + 1)
    }
}

/// Scans a slot table for the first free slot; returns the table length
/// when none is free. Every table with reusable slots — resource tables,
/// file descriptors, process ids — shares this scan.
#[verifier::loop_isolation(false)]
pub fn first_free_slot<T>(list: &Vec<Option<T>>) -> (r: usize)
    ensures
        r == first_free_index(list@, 0),
        r <= list@.len(),
        r < list@.len() ==> list@[r as int] is None,
        forall|j: int| 0 <= j < r ==> list@[j] is Some,
{
    let mut i: usize = 0;
    while i < list.len()
        invariant
            i <= list@.len(),
            first_free_index(list@, 0) == first_free_index(list@, i as int),
            forall|j: int| 0 <= j < i ==> list@[j] is Some,
        decreases list@.len() - i,
    {
        if matches!(&list[i], None) {
            proof {
                assert(first_free_index(list@, i as int) == i);
            }
            return i;
        }
        i += 1;
    }
    list.len()
}

/// Replacing or appending an idle mutex at a free slot preserves the
/// synchronization invariants.
proof fn lemma_sync_mutex_set_idle(
    t: Seq<Option<TaskControl>>,
    m0: Seq<Option<MutexState>>,
    m1: Seq<Option<MutexState>>,
    s: Seq<Option<SemState>>,
    c: Seq<Option<CondvarState>>,
    id: int,
)
    requires
        sync_ok(t, m0, s, c),
        0 <= id <= m0.len(),
        id == m0.len() || m0[id] is None,
        m1.len() == (if id < m0.len() {
            m0.len() as int
        } else {
            m0.len() + 1int
        }),
        forall|j: int| 0 <= j < m0.len() && j != id ==> m1[j] == m0[j],
        opt_live(m1, id),
        !opt_at(m1, id).locked,
        opt_at(m1, id).holder is None,
        opt_at(m1, id).wait_queue@.len() == 0,
    ensures
        sync_ok(t, m1, s, c),
{
    assert forall|j: int| 0 <= j < RESOURCE_SLOTS implies mutex_holder_in(m1, j)
        == mutex_holder_in(m0, j) by {
        if j == id {
            assert(mutex_holder_in(m1, j) is None);
            assert(mutex_holder_in(m0, j) is None);
        }
    }
    assert forall|i: int| opt_live(t, i) implies match (#[trigger] opt_at(t, i)).blocked_on {
        Some(BlockReason::OnMutex(m)) => m < RESOURCE_SLOTS && opt_live(m1, m as int) && opt_at(
            m1,
            m as int,
        ).locked && in_queue(opt_at(m1, m as int).wait_queue@, i),
        Some(BlockReason::OnSemaphore(sj)) => sj < RESOURCE_SLOTS && opt_live(s, sj as int)
            && in_queue(opt_at(s, sj as int).wait_queue@, i),
        Some(BlockReason::OnCondvar(cj)) => opt_live(c, cj as int) && in_queue(
            opt_at(c, cj as int).wait_queue@,
            i,
        ),
        Some(BlockReason::Sleeping(_)) => true,
        None => true,
    } by {
        match opt_at(t, i).blocked_on {
            Some(BlockReason::OnMutex(m)) => {
                assert(opt_live(m0, m as int));
                assert(m != id);
            },
            _ => {},
        }
    }
    assert forall|j: int| #![trigger opt_at(m1, j)] opt_live(m1, j) implies {
        &&& (opt_at(m1, j).holder is Some ==> opt_at(m1, j).locked)
        &&& (opt_at(m1, j).holder is Some ==> opt_live(t, opt_at(m1, j).holder->0 as int))
        &&& (j >= RESOURCE_SLOTS ==> !opt_at(m1, j).locked && opt_at(m1, j).wait_queue@.len()
            == 0)
        &&& queue_ok(t, opt_at(m1, j).wait_queue@, BlockReason::OnMutex(j as usize))
    } by {
        if j != id {
            assert(opt_live(m0, j) && opt_at(m1, j) == opt_at(m0, j));
        }
    }
}

/// Replacing or appending an idle semaphore at a free slot preserves the
/// synchronization invariants.
proof fn lemma_sync_sem_set_idle(
    t: Seq<Option<TaskControl>>,
    m: Seq<Option<MutexState>>,
    s0: Seq<Option<SemState>>,
    s1: Seq<Option<SemState>>,
    c: Seq<Option<CondvarState>>,
    id: int,
)
    requires
        sync_ok(t, m, s0, c),
        0 <= id <= s0.len(),
        id == s0.len() || s0[id] is None,
        s1.len() == (if id < s0.len() {
            s0.len() as int
        } else {
            s0.len() + 1int
        }),
        forall|j: int| 0 <= j < s0.len() && j != id ==> s1[j] == s0[j],
        opt_live(s1, id),
        opt_at(s1, id).wait_queue@.len() == 0,
    ensures
        sync_ok(t, m, s1, c),
{
    assert forall|i: int, j: int|
        opt_live(t, i) && 0 <= j < RESOURCE_SLOTS implies (#[trigger] opt_at(t, i).sem_need@[j])
        == (if blocked_on_sem(opt_at(t, i), j) {
        1usize
    } else {
        0usize
    }) by {
        assert(opt_at(t, i).sem_need@[j] == (if blocked_on_sem(opt_at(t, i), j) {
            1usize
        } else {
            0usize
        }));
    }
    assert forall|i: int| opt_live(t, i) implies match (#[trigger] opt_at(t, i)).blocked_on {
        Some(BlockReason::OnMutex(mj)) => mj < RESOURCE_SLOTS && opt_live(m, mj as int) && opt_at(
            m,
            mj as int,
        ).locked && in_queue(opt_at(m, mj as int).wait_queue@, i),
        Some(BlockReason::OnSemaphore(sj)) => sj < RESOURCE_SLOTS && opt_live(s1, sj as int)
            && in_queue(opt_at(s1, sj as int).wait_queue@, i),
        Some(BlockReason::OnCondvar(cj)) => opt_live(c, cj as int) && in_queue(
            opt_at(c, cj as int).wait_queue@,
            i,
        ),
        Some(BlockReason::Sleeping(_)) => true,
        None => true,
    } by {
        match opt_at(t, i).blocked_on {
            Some(BlockReason::OnSemaphore(sj)) => {
                assert(opt_live(s0, sj as int));
                assert(sj != id);
            },
            _ => {},
        }
    }
    assert forall|j: int| #![trigger opt_at(s1, j)] opt_live(s1, j) implies {
        &&& (opt_at(s1, j).count > 0 ==> opt_at(s1, j).wait_queue@.len() == 0)
        &&& (j >= RESOURCE_SLOTS ==> opt_at(s1, j).wait_queue@.len() == 0)
        &&& queue_ok(t, opt_at(s1, j).wait_queue@, BlockReason::OnSemaphore(j as usize))
    } by {
        if j != id {
            assert(opt_live(s0, j) && opt_at(s1, j) == opt_at(s0, j));
        }
    }
}

/// Replacing or appending an empty condition variable at a free slot
/// preserves the synchronization invariants.
proof fn lemma_sync_condvar_set_idle(
    t: Seq<Option<TaskControl>>,
    m: Seq<Option<MutexState>>,
    s: Seq<Option<SemState>>,
    c0: Seq<Option<CondvarState>>,
    c1: Seq<Option<CondvarState>>,
    id: int,
)
    requires
        sync_ok(t, m, s, c0),
        0 <= id <= c0.len(),
        id == c0.len() || c0[id] is None,
        c1.len() == (if id < c0.len() {
            c0.len() as int
        } else {
            c0.len() + 1int
        }),
        forall|j: int| 0 <= j < c0.len() && j != id ==> c1[j] == c0[j],
        opt_live(c1, id),
        opt_at(c1, id).wait_queue@.len() == 0,
    ensures
        sync_ok(t, m, s, c1),
{
    assert forall|i: int| opt_live(t, i) implies match (#[trigger] opt_at(t, i)).blocked_on {
        Some(BlockReason::OnMutex(mj)) => mj < RESOURCE_SLOTS && opt_live(m, mj as int) && opt_at(
            m,
            mj as int,
        ).locked && in_queue(opt_at(m, mj as int).wait_queue@, i),
        Some(BlockReason::OnSemaphore(sj)) => sj < RESOURCE_SLOTS && opt_live(s, sj as int)
            && in_queue(opt_at(s, sj as int).wait_queue@, i),
        Some(BlockReason::OnCondvar(cj)) => opt_live(c1, cj as int) && in_queue(
            opt_at(c1, cj as int).wait_queue@,
            i,
        ),
        Some(BlockReason::Sleeping(_)) => true,
        None => true,
    } by {
        match opt_at(t, i).blocked_on {
            Some(BlockReason::OnCondvar(cj)) => {
                assert(opt_live(c0, cj as int));
                assert(cj != id);
            },
            _ => {},
        }
    }
    assert forall|j: int| #![trigger opt_at(c1, j)] opt_live(c1, j) implies queue_ok(
        t,
        opt_at(c1, j).wait_queue@,
        BlockReason::OnCondvar(j as usize),
    ) by {
        if j != id {
            assert(opt_live(c0, j) && opt_at(c1, j) == opt_at(c0, j));
        }
    }
}

impl ProcessState {
    /// Creates a mutex (spin when `blocking` is false, blocking-queue
    /// otherwise), reusing the lowest freed slot or growing the table, and
    /// returns its slot id. The table grows without limit, but the
    /// fixed-length accounting vectors and the deadlock detector cover
    /// only the first `RESOURCE_SLOTS` slots: an id handed out at or
    /// beyond that range names a table entry whose lock and unlock calls
    /// are rejected with `-1`.
    pub fn sys_mutex_create(&mut self, blocking: bool) -> (r: isize)
        requires
            old(self).wf(),
            !old(self).zombie,
            old(self).mutexes@.len() < MAX_TABLE,
        ensures
            final(self).wf(),
            r == first_free_index(old(self).mutexes@, 0),
            0 <= r <= old(self).mutexes@.len(),
            final(self).mutexes@.len() == (if r < old(self).mutexes@.len() {
                old(self).mutexes@.len() as int
            } else {
                old(self).mutexes@.len() + 1int
            }),
            forall|j: int|
                0 <= j < old(self).mutexes@.len() && j != r ==> final(self).mutexes@[j] == old(
                    self,
                ).mutexes@[j],
            final(self).mutex_live(r as int),
            final(self).mutex_at(r as int).blocking == blocking,
            !final(self).mutex_at(r as int).locked,
            final(self).mutex_at(r as int).holder is None,
            final(self).mutex_at(r as int).wait_queue@.len() == 0,
            final(self).tasks == old(self).tasks,
            final(self).semaphores == old(self).semaphores,
            final(self).condvars == old(self).condvars,
            same_but_sync(*old(self), *final(self)),
    {
        let id: usize = first_free_slot(&self.mutexes);
        let m: MutexState = MutexState {
            blocking,
            locked: false,
            holder: None,
            wait_queue: Vec::new(),
        };
        if id < self.mutexes.len() {
            self.mutexes[id] = Some(m);
        } else {
            self.mutexes.push(Some(m));
        }
        proof {
            lemma_sync_mutex_set_idle(
                self.tasks@,
                old(self).mutexes@,
                self.mutexes@,
                self.semaphores@,
                self.condvars@,
                id as int,
            );
        }
        id as isize
    }

    /// Frees a mutex slot for reuse. Rejects an empty or out-of-range
    /// slot and a mutex that is still locked; a lockable mutex has no
    /// waiters, so no task's accounting can still reference the slot.
    pub fn mutex_free(&mut self, mutex_id: usize) -> (r: isize)
        requires
            old(self).wf(),
            !old(self).zombie,
        ensures
            final(self).wf(),
            r == 0 || r == -1,
            r == 0 <==> old(self).mutex_live(mutex_id as int) && !old(self).mutex_at(
                mutex_id as int,
            ).locked,
            r == -1 ==> *final(self) == *old(self),
            r == 0 ==> final(self).mutexes@ == old(self).mutexes@.update(mutex_id as int, None)
                && final(self).tasks == old(self).tasks && final(self).semaphores == old(
                self,
            ).semaphores && final(self).condvars == old(self).condvars && same_but_sync(
                *old(self),
                *final(self),
            ),
    {
        if mutex_id >= self.mutexes.len() {
            return -1;
        }
        let ok: bool = match &self.mutexes[mutex_id] {
            Some(m) => !m.locked,
            None => false,
        };
        if !ok {
            return -1;
        }
        proof {
            let q: Seq<usize> = opt_at(self.mutexes@, mutex_id as int).wait_queue@;
            assert(q.len() == 0) by {
                if q.len() > 0 {
                    let w: int = q[0] as int;
                    assert(opt_live(self.tasks@, w) && opt_at(self.tasks@, w).blocked_on == Some(
                        BlockReason::OnMutex(mutex_id),
                    ));
                    assert(opt_at(self.mutexes@, mutex_id as int).locked);
                }
            }
        }
        self.mutexes[mutex_id] = None;
        proof {
            let t: Seq<Option<TaskControl>> = self.tasks@;
            let m0: Seq<Option<MutexState>> = old(self).mutexes@;
            let m1: Seq<Option<MutexState>> = self.mutexes@;
            assert(m1 =~= m0.update(mutex_id as int, None));
            assert forall|j: int| 0 <= j < RESOURCE_SLOTS implies mutex_holder_in(m1, j)
                == mutex_holder_in(m0, j) by {
                if j == mutex_id {
                    assert(mutex_holder_in(m0, j) is None);
                }
            }
            assert forall|i: int| opt_live(t, i) implies match (#[trigger] opt_at(
                t,
                i,
            )).blocked_on {
                Some(BlockReason::OnMutex(mj)) => mj < RESOURCE_SLOTS && opt_live(m1, mj as int)
                    && opt_at(m1, mj as int).locked && in_queue(
                    opt_at(m1, mj as int).wait_queue@,
                    i,
                ),
                Some(BlockReason::OnSemaphore(sj)) => sj < RESOURCE_SLOTS && opt_live(
                    self.semaphores@,
                    sj as int,
                ) && in_queue(opt_at(self.semaphores@, sj as int).wait_queue@, i),
                Some(BlockReason::OnCondvar(cj)) => opt_live(self.condvars@, cj as int)
                    && in_queue(opt_at(self.condvars@, cj as int).wait_queue@, i),
                Some(BlockReason::Sleeping(_)) => true,
                None => true,
            } by {
                match opt_at(t, i).blocked_on {
                    Some(BlockReason::OnMutex(mj)) => {
                        assert(opt_at(m0, mj as int).locked);
                        assert(mj != mutex_id);
                    },
                    _ => {},
                }
            }
            assert forall|j: int| #![trigger opt_at(m1, j)] opt_live(m1, j) implies {
                &&& (opt_at(m1, j).holder is Some ==> opt_at(m1, j).locked)
                &&& (opt_at(m1, j).holder is Some ==> opt_live(t, opt_at(m1, j).holder->0 as int))
                &&& (j >= RESOURCE_SLOTS ==> !opt_at(m1, j).locked && opt_at(
                    m1,
                    j,
                ).wait_queue@.len() == 0)
                &&& queue_ok(t, opt_at(m1, j).wait_queue@, BlockReason::OnMutex(j as usize))
            } by {
                assert(j != mutex_id);
                assert(opt_live(m0, j) && opt_at(m1, j) == opt_at(m0, j));
            }
        }
        0
    }

    /// Creates a counting semaphore with `res_count` initial units (also
    /// recorded as its capacity for the deadlock detector), reusing the
    /// lowest freed slot or growing the table, and returns its slot id.
    /// As with mutexes, the table grows without limit while the
    /// accounting vectors cover only the first `RESOURCE_SLOTS` slots: an
    /// id handed out at or beyond that range names a table entry whose up
    /// and down calls are rejected with `-1`.
    pub fn sys_semaphore_create(&mut self, res_count: usize) -> (r: isize)
        requires
            old(self).wf(),
            !old(self).zombie,
            old(self).semaphores@.len() < MAX_TABLE,
        ensures
            final(self).wf(),
            r == first_free_index(old(self).semaphores@, 0),
            0 <= r <= old(self).semaphores@.len(),
            final(self).semaphores@.len() == (if r < old(self).semaphores@.len() {
                old(self).semaphores@.len() as int
            } else {
                old(self).semaphores@.len() + 1int
            }),
            forall|j: int|
                0 <= j < old(self).semaphores@.len() && j != r ==> final(self).semaphores@[j]
                    == old(self).semaphores@[j],
            final(self).sem_live(r as int),
            final(self).sem_at(r as int).total == res_count,
            final(self).sem_at(r as int).count == res_count,
            final(self).sem_at(r as int).wait_queue@.len() == 0,
            final(self).tasks == old(self).tasks,
            final(self).mutexes == old(self).mutexes,
            final(self).condvars == old(self).condvars,
            same_but_sync(*old(self), *final(self)),
    {
        let id: usize = first_free_slot(&self.semaphores);
        let s: SemState = SemState { total: res_count, count: res_count, wait_queue: Vec::new() };
        if id < self.semaphores.len() {
            self.semaphores[id] = Some(s);
        } else {
            self.semaphores.push(Some(s));
        }
        proof {
            lemma_sync_sem_set_idle(
                self.tasks@,
                self.mutexes@,
                old(self).semaphores@,
                self.semaphores@,
                self.condvars@,
                id as int,
            );
        }
        id as isize
    }

    /// Creates a condition variable, reusing the lowest freed slot or
    /// growing the table, and returns its slot id.
    pub fn sys_condvar_create(&mut self) -> (r: isize)
        requires
            old(self).wf(),
            !old(self).zombie,
            old(self).condvars@.len() < MAX_TABLE,
        ensures
            final(self).wf(),
            r == first_free_index(old(self).condvars@, 0),
            0 <= r <= old(self).condvars@.len(),
            final(self).condvars@.len() == (if r < old(self).condvars@.len() {
                old(self).condvars@.len() as int
            } else {
                old(self).condvars@.len() + 1int
            }),
            forall|j: int|
                0 <= j < old(self).condvars@.len() && j != r ==> final(self).condvars@[j] == old(
                    self,
                ).condvars@[j],
            final(self).condvar_live(r as int),
            final(self).condvar_at(r as int).wait_queue@.len() == 0,
            final(self).tasks == old(self).tasks,
            final(self).mutexes == old(self).mutexes,
            final(self).semaphores == old(self).semaphores,
            same_but_sync(*old(self), *final(self)),
    {
        let id: usize = first_free_slot(&self.condvars);
        let c: CondvarState = CondvarState { wait_queue: Vec::new() };
        if id < self.condvars.len() {
            self.condvars[id] = Some(c);
        } else {
            self.condvars.push(Some(c));
        }
        proof {
            lemma_sync_condvar_set_idle(
                self.tasks@,
                self.mutexes@,
                self.semaphores@,
                old(self).condvars@,
                self.condvars@,
                id as int,
            );
        }
        id as isize
    }
}

/// Per-slot starting availability of a resource class: one unit per slot
/// for mutexes (class `0`), the recorded capacity for semaphores.
pub open spec fn class_avail0(semaphores: Seq<Option<SemState>>, class: int) -> Seq<int> {
    Seq::new(
        RESOURCE_SLOTS as nat,
        |j: int|
            if class == 0 {
                1int
            } else if opt_live(semaphores, j) {
                opt_at(semaphores, j).total as int
            } else {
                0int
            },
    )
}

/// One task's allocation row for a resource class; an empty task slot
/// contributes a zero row.
pub open spec fn class_alloc_row(t: Option<TaskControl>, class: int) -> Seq<int> {
    match t {
        Some(tc) => row_view(
            if class == 0 {
                tc.mutex_allocation@
            } else {
                tc.sem_allocation@
            },
        ),
        None => Seq::new(RESOURCE_SLOTS as nat, |j: int| 0int),
    }
}

/// One task's outstanding-request row for a resource class; an empty task
/// slot contributes a zero row.
pub open spec fn class_need_row(t: Option<TaskControl>, class: int) -> Seq<int> {
    match t {
        Some(tc) => row_view(
            if class == 0 {
                tc.mutex_need@
            } else {
                tc.sem_need@
            },
        ),
        None => Seq::new(RESOURCE_SLOTS as nat, |j: int| 0int),
    }
}

/// The allocation matrix of a resource class, one row per task slot.
pub open spec fn class_alloc_matrix(
    tasks: Seq<Option<TaskControl>>,
    class: int,
) -> Seq<Seq<int>> {
    Seq::new(tasks.len(), |i: int| class_alloc_row(tasks[i], class))
}

/// The outstanding-request matrix of a resource class, one row per task
/// slot.
pub open spec fn class_need_matrix(tasks: Seq<Option<TaskControl>>, class: int) -> Seq<Seq<int>> {
    Seq::new(tasks.len(), |i: int| class_need_row(tasks[i], class))
}

/// Sum of column `j` over the rows of `m`.
pub open spec fn col_sum(m: Seq<Seq<int>>, j: int) -> int
    decreases m.len(),
{
    if m.len() == 0 {
        0int
    } else {
        col_sum(m.drop_last(), j) + m.last()[j]
    }
}

impl ProcessState {
    /// Remaining availability of each slot of a resource class: the
    /// starting availability minus every task's allocation.
    pub open spec fn class_avail(self, class: int) -> Seq<int> {
        Seq::new(
            RESOURCE_SLOTS as nat,
            |j: int|
                class_avail0(self.semaphores@, class)[j] - col_sum(
                    class_alloc_matrix(self.tasks@, class),
                    j,
                ),
        )
    }

    /// True when granting task `tid` one more unit of resource `id` of
    /// the given class leaves the process in a safe state: with the
    /// request provisionally added to the task's need row, the Banker's
    /// simulation can still retire every task.
    pub open spec fn grant_safe(self, class: int, id: int, tid: int) -> bool {
        let nm = class_need_matrix(self.tasks@, class);
        let bumped = nm.update(tid, nm[tid].update(id, nm[tid][id] + 1));
        bankers_safe(self.class_avail(class), class_alloc_matrix(self.tasks@, class), bumped)
    }

    /// Runs the Banker's-algorithm safety check for the pending
    /// acquisition of resource `id` of `class` (`0` mutexes, any other
    /// value semaphores) by task `tid`. Reads a snapshot of the current
    /// allocation and need vectors and leaves the process untouched.
    #[verifier::loop_isolation(false)]
    pub fn deadlock_check(&self, class: usize, id: usize, tid: usize) -> (r: bool)
        requires
            self.wf(),
            !self.zombie,
            self.runnable(tid as int),
            id < RESOURCE_SLOTS,
        ensures
            r == self.grant_safe(
                if class == 0 {
                    0int
                } else {
                    1int
                },
                id as int,
                tid as int,
            ),
    {
        let ghost cls: int = if class == 0 { 0int } else { 1int };
        let ghost am: Seq<Seq<int>> = class_alloc_matrix(self.tasks@, cls);
        let ghost nm: Seq<Seq<int>> = class_need_matrix(self.tasks@, cls);
        let ghost nmb: Seq<Seq<int>> = nm.update(
            tid as int,
            nm[tid as int].update(id as int, nm[tid as int][id as int] + 1),
        );
        let mut work: Vec<i128> = Vec::new();
        let mut j: usize = 0;
        while j < RESOURCE_SLOTS
            invariant
                work@.len() == j,
                j <= RESOURCE_SLOTS,
                forall|jj: int|
                    0 <= jj < j ==> #[trigger] (work@[jj] as int) == class_avail0(
                        self.semaphores@,
                        cls,
                    )[jj],
                forall|jj: int| 0 <= jj < j ==> 0 <= #[trigger] (work@[jj] as int) <= usize::MAX,
            decreases RESOURCE_SLOTS - j,
        {
            let w0: i128 = if class == 0 {
                1
            } else if j < self.semaphores.len() {
                match &self.semaphores[j] {
                    Some(sem) => sem.total as i128,
                    None => 0,
                }
            } else {
                0
            };
            work.push(w0);
            j += 1;
        }
        let n: usize = self.tasks.len();
        let mut allocm: Vec<Vec<usize>> = Vec::new();
        let mut needm: Vec<Vec<usize>> = Vec::new();
        let mut i: usize = 0;
        while i < n
            invariant
                i <= n,
                allocm@.len() == i,
                needm@.len() == i,
                work@.len() == RESOURCE_SLOTS,
                forall|ii: int| 0 <= ii < i ==> (#[trigger] allocm@[ii])@.len() == RESOURCE_SLOTS,
                forall|ii: int| 0 <= ii < i ==> (#[trigger] needm@[ii])@.len() == RESOURCE_SLOTS,
                forall|ii: int| 0 <= ii < i ==> row_view((#[trigger] allocm@[ii])@) == am[ii],
                forall|ii: int| 0 <= ii < i ==> row_view((#[trigger] needm@[ii])@) == nmb[ii],
                forall|jj: int|
                    0 <= jj < RESOURCE_SLOTS ==> #[trigger] (work@[jj] as int) == class_avail0(
                        self.semaphores@,
                        cls,
                    )[jj] - col_sum(am.take(i as int), jj),
                forall|jj: int|
                    0 <= jj < RESOURCE_SLOTS ==> 0 <= #[trigger] col_sum(am.take(i as int), jj)
                        <= i * 0xFFFF_FFFF_FFFF_FFFFint,
            decreases n - i,
        {
            let ghost wpre: Seq<i128> = work@;
            let mut row_a: Vec<usize>;
            let mut row_n: Vec<usize>;
            match &self.tasks[i] {
                Some(tc) => {
                    proof {
                        assert(opt_live(self.tasks@, i as int));
                        assert(opt_at(self.tasks@, i as int).wf());
                    }
                    row_a = copy_row(
                        if class == 0 {
                            &tc.mutex_allocation
                        } else {
                            &tc.sem_allocation
                        },
                    );
                    row_n = copy_row(
                        if class == 0 {
                            &tc.mutex_need
                        } else {
                            &tc.sem_need
                        },
                    );
                },
                None => {
                    row_a = zero_slots();
                    row_n = zero_slots();
                },
            }
            proof {
                assert(row_a@.len() == RESOURCE_SLOTS);
                assert(row_n@.len() == RESOURCE_SLOTS);
                assert(row_view(row_a@) =~= am[i as int]);
                assert(row_view(row_n@) =~= class_need_row(self.tasks@[i as int], cls));
            }
            if i == tid {
                proof {
                    assert(opt_at(self.tasks@, tid as int).mutex_need@[id as int] == 0);
                    assert(opt_at(self.tasks@, tid as int).sem_need@[id as int] == 0);
                    assert(nm[tid as int][id as int] == 0);
                }
                let cur: usize = row_n[id];
                row_n[id] = cur + 1;
                proof {
                    assert(row_view(row_n@) =~= nmb[tid as int]);
                }
            } else {
                proof {
                    assert(nmb[i as int] == nm[i as int]);
                    assert(row_view(row_n@) =~= nmb[i as int]);
                }
            }
            let mut jj: usize = 0;
            while jj < RESOURCE_SLOTS
                invariant
                    jj <= RESOURCE_SLOTS,
                    work@.len() == RESOURCE_SLOTS,
                    row_a@.len() == RESOURCE_SLOTS,
                    row_view(row_a@) == am[i as int],
                    forall|k: int|
                        0 <= k < jj ==> #[trigger] (work@[k] as int) == wpre[k] - am[i as int][k],
                    forall|k: int| jj <= k < RESOURCE_SLOTS ==> #[trigger] work@[k] == wpre[k],
                decreases RESOURCE_SLOTS - jj,
            {
                proof {
                    assert(am[i as int][jj as int] == row_a@[jj as int] as int);
                    assert(wpre[jj as int] as int == class_avail0(self.semaphores@, cls)[jj as int]
                        - col_sum(am.take(i as int), jj as int));
                }
                work[jj] = work[jj] - (row_a[jj] as i128);
                jj += 1;
            }
            allocm.push(row_a);
            needm.push(row_n);
            proof {
                assert forall|k: int| 0 <= k < RESOURCE_SLOTS implies col_sum(
                    am.take(i + 1),
                    k,
                ) == col_sum(am.take(i as int), k) + am[i as int][k] by {
                    assert(am.take(i + 1).drop_last() =~= am.take(i as int));
                    assert(am.take(i + 1).last() == am[i as int]);
                }
                assert forall|k: int| 0 <= k < RESOURCE_SLOTS implies 0 <= (#[trigger] am[
                    i as int
                ][k]) <= 0xFFFF_FFFF_FFFF_FFFFint by {
                    assert(am[i as int] == row_view(row_a@));
                    assert(am[i as int][k] == row_a@[k] as int);
                }
                assert((i + 1) * 0xFFFF_FFFF_FFFF_FFFFint == i * 0xFFFF_FFFF_FFFF_FFFFint
                    + 0xFFFF_FFFF_FFFF_FFFFint) by (nonlinear_arith);
            }
            i += 1;
        }
        proof {
            assert(am.take(n as int) =~= am);
            assert(mat_view(allocm@) =~= am);
            assert(mat_view(needm@) =~= nmb);
            assert(work_view(work@) =~= self.class_avail(cls));
            assert(n * 0xFFFF_FFFF_FFFF_FFFFint <= 1024 * 0xFFFF_FFFF_FFFF_FFFFint) by (nonlinear_arith)
                requires
                    n <= 1024,
            ;
        }
        bankers_check(&work, &allocm, &needm)
    }
}

/// An exact copy of one accounting row.
fn copy_row(v: &Vec<usize>) -> (r: Vec<usize>)
    ensures
        r@ == v@,
{
    let mut out: Vec<usize> = Vec::new();
    let mut k: usize = 0;
    while k < v.len()
        invariant
            k <= v@.len(),
            out@ == v@.subrange(0, k as int),
        decreases v@.len() - k,
    {
        out.push(v[k]);
        proof {
            assert(out@ =~= v@.subrange(0, k + 1));
        }
        k += 1;
    }
    proof {
        assert(out@ =~= v@);
    }
    out
}

/// Queue well-formedness survives a task-set change that touches only a
/// task which was not blocked with reason `r`.
proof fn lemma_queue_ok_nonmember(
    t0: Seq<Option<TaskControl>>,
    t1: Seq<Option<TaskControl>>,
    q: Seq<usize>,
    r: BlockReason,
    w: int,
)
    requires
        queue_ok(t0, q, r),
        t1.len() == t0.len(),
        forall|i: int| 0 <= i < t0.len() && i != w ==> t1[i] == t0[i],
        !(opt_live(t0, w) && opt_at(t0, w).blocked_on == Some(r)),
    ensures
        queue_ok(t1, q, r),
{
    assert forall|k: int| 0 <= k < q.len() implies opt_live(t1, #[trigger] q[k] as int) && opt_at(
        t1,
        q[k] as int,
    ).blocked_on == Some(r) by {
        assert(opt_live(t0, q[k] as int) && opt_at(t0, q[k] as int).blocked_on == Some(r));
        assert(q[k] != w);
    }
}

/// Queue well-formedness survives a task-set change that touches only two
/// tasks, neither of which was blocked with reason `r`.
proof fn lemma_queue_ok_nonmember2(
    t0: Seq<Option<TaskControl>>,
    t1: Seq<Option<TaskControl>>,
    q: Seq<usize>,
    r: BlockReason,
    w1: int,
    w2: int,
)
    requires
        queue_ok(t0, q, r),
        t1.len() == t0.len(),
        forall|i: int| 0 <= i < t0.len() && i != w1 && i != w2 ==> t1[i] == t0[i],
        !(opt_live(t0, w1) && opt_at(t0, w1).blocked_on == Some(r)),
        !(opt_live(t0, w2) && opt_at(t0, w2).blocked_on == Some(r)),
    ensures
        queue_ok(t1, q, r),
{
    assert forall|k: int| 0 <= k < q.len() implies opt_live(t1, #[trigger] q[k] as int) && opt_at(
        t1,
        q[k] as int,
    ).blocked_on == Some(r) by {
        assert(opt_live(t0, q[k] as int) && opt_at(t0, q[k] as int).blocked_on == Some(r));
        assert(q[k] != w1 && q[k] != w2);
    }
}

impl ProcessState {
    /// True when `id` names an occupied mutex slot inside the range the
    /// accounting vectors and the deadlock detector cover; slots at or
    /// beyond `RESOURCE_SLOTS` exist in the table but every lock or
    /// unlock on them is rejected.
    pub open spec fn mutex_usable(self, id: int) -> bool {
        self.mutex_live(id) && id < RESOURCE_SLOTS
    }

    /// True when `id` names an occupied semaphore slot inside the range
    /// the accounting vectors and the deadlock detector cover; slots at
    /// or beyond `RESOURCE_SLOTS` exist in the table but every up or down
    /// on them is rejected.
    pub open spec fn sem_usable(self, id: int) -> bool {
        self.sem_live(id) && id < RESOURCE_SLOTS
    }
}

/// Relates a process before and after task `tid` acquires free mutex
/// `id`: the task books one allocated unit, the mutex records the task as
/// holder, and nothing else changes.
pub open spec fn mutex_acquire_post(a: ProcessState, b: ProcessState, tid: int, id: int) -> bool {
    &&& b.tasks@.len() == a.tasks@.len()
    &&& forall|i: int| 0 <= i < a.tasks@.len() && i != tid ==> b.tasks@[i] == a.tasks@[i]
    &&& b.live(tid)
    &&& b.task_at(tid).mutex_allocation@ == a.task_at(tid).mutex_allocation@.update(id, 1usize)
    &&& b.task_at(tid).mutex_need == a.task_at(tid).mutex_need
    &&& b.task_at(tid).sem_allocation == a.task_at(tid).sem_allocation
    &&& b.task_at(tid).sem_need == a.task_at(tid).sem_need
    &&& b.task_at(tid).status == a.task_at(tid).status
    &&& b.task_at(tid).blocked_on == a.task_at(tid).blocked_on
    &&& b.task_at(tid).trap_ret == a.task_at(tid).trap_ret
    &&& b.task_at(tid).priority == a.task_at(tid).priority
    &&& b.task_at(tid).tid == a.task_at(tid).tid
    &&& b.mutexes@.len() == a.mutexes@.len()
    &&& forall|j: int| 0 <= j < a.mutexes@.len() && j != id ==> b.mutexes@[j] == a.mutexes@[j]
    &&& b.mutex_live(id)
    &&& b.mutex_at(id).locked
    &&& b.mutex_at(id).holder == Some(tid as usize)
    &&& b.mutex_at(id).blocking == a.mutex_at(id).blocking
    &&& b.mutex_at(id).wait_queue == a.mutex_at(id).wait_queue
    &&& b.semaphores == a.semaphores
    &&& b.condvars == a.condvars
    &&& same_but_sync(a, b)
}

/// Relates a process before and after task `tid` suspends on held mutex
/// `id`: the task books one needed unit, blocks, and joins the mutex's
/// wait queue; nothing else changes.
pub open spec fn mutex_block_post(a: ProcessState, b: ProcessState, tid: int, id: int) -> bool {
    &&& b.tasks@.len() == a.tasks@.len()
    &&& forall|i: int| 0 <= i < a.tasks@.len() && i != tid ==> b.tasks@[i] == a.tasks@[i]
    &&& b.live(tid)
    &&& b.task_at(tid).mutex_need@ == a.task_at(tid).mutex_need@.update(id, 1usize)
    &&& b.task_at(tid).mutex_allocation == a.task_at(tid).mutex_allocation
    &&& b.task_at(tid).sem_allocation == a.task_at(tid).sem_allocation
    &&& b.task_at(tid).sem_need == a.task_at(tid).sem_need
    &&& b.task_at(tid).status == TaskStatus::Blocked
    &&& b.task_at(tid).blocked_on == Some(BlockReason::OnMutex(id as usize))
    &&& b.task_at(tid).trap_ret == a.task_at(tid).trap_ret
    &&& b.task_at(tid).priority == a.task_at(tid).priority
    &&& b.task_at(tid).tid == a.task_at(tid).tid
    &&& b.mutexes@.len() == a.mutexes@.len()
    &&& forall|j: int| 0 <= j < a.mutexes@.len() && j != id ==> b.mutexes@[j] == a.mutexes@[j]
    &&& b.mutex_live(id)
    &&& b.mutex_at(id).locked == a.mutex_at(id).locked
    &&& b.mutex_at(id).holder == a.mutex_at(id).holder
    &&& b.mutex_at(id).blocking == a.mutex_at(id).blocking
    &&& b.mutex_at(id).wait_queue@ == a.mutex_at(id).wait_queue@.push(tid as usize)
    &&& b.semaphores == a.semaphores
    &&& b.condvars == a.condvars
    &&& same_but_sync(a, b)
}

/// Acquiring a free mutex preserves the invariants.
proof fn lemma_sync_acquire(a: ProcessState, b: ProcessState, tid: int, id: int)
    requires
        a.wf(),
        !a.zombie,
        a.runnable(tid),
        a.task_at(tid).blocked_on is None,
        a.mutex_usable(id),
        !a.mutex_at(id).locked,
        mutex_acquire_post(a, b, tid, id),
    ensures
        tasks_ok(b.tasks@),
        sync_ok(b.tasks@, b.mutexes@, b.semaphores@, b.condvars@),
{
    let t0 = a.tasks@;
    let t1 = b.tasks@;
    let m0 = a.mutexes@;
    let m1 = b.mutexes@;
    assert(a.mutex_at(id).wait_queue@.len() == 0) by {
        let q = a.mutex_at(id).wait_queue@;
        if q.len() > 0 {
            let w: int = q[0] as int;
            assert(opt_live(t0, w) && opt_at(t0, w).blocked_on == Some(
                BlockReason::OnMutex(id as usize),
            ));
            assert(opt_at(m0, id).locked);
        }
    }
    assert forall|i: int| opt_live(t1, i) implies (#[trigger] opt_at(t1, i)).wf() && opt_at(
        t1,
        i,
    ).tid == i by {
        if i != tid {
            assert(opt_at(t1, i) == opt_at(t0, i));
        }
        assert(opt_at(t0, i).wf() && opt_at(t0, i).tid == i);
    }
    assert forall|i: int, j: int|
        opt_live(t1, i) && 0 <= j < RESOURCE_SLOTS implies (#[trigger] opt_at(
        t1,
        i,
    ).mutex_allocation@[j]) == (if mutex_holder_in(m1, j) == Some(i as usize) {
        1usize
    } else {
        0usize
    }) by {
        assert(opt_live(t0, i));
        assert(opt_at(t0, i).mutex_allocation@[j] == (if mutex_holder_in(m0, j) == Some(
            i as usize,
        ) {
            1usize
        } else {
            0usize
        }));
        if j != id {
            assert(mutex_holder_in(m1, j) == mutex_holder_in(m0, j));
        } else {
            assert(mutex_holder_in(m0, id) is None);
            assert(mutex_holder_in(m1, id) == Some(tid as usize));
        }
        if i != tid {
            assert(opt_at(t1, i) == opt_at(t0, i));
        }
    }
    assert forall|i: int, j: int|
        opt_live(t1, i) && 0 <= j < RESOURCE_SLOTS implies (#[trigger] opt_at(
        t1,
        i,
    ).mutex_need@[j]) == (if blocked_on_mutex(opt_at(t1, i), j) {
        1usize
    } else {
        0usize
    }) by {
        assert(opt_at(t0, i).mutex_need@[j] == (if blocked_on_mutex(opt_at(t0, i), j) {
            1usize
        } else {
            0usize
        }));
        if i != tid {
            assert(opt_at(t1, i) == opt_at(t0, i));
        }
    }
    assert forall|i: int, j: int|
        opt_live(t1, i) && 0 <= j < RESOURCE_SLOTS implies (#[trigger] opt_at(t1, i).sem_need@[j])
        == (if blocked_on_sem(opt_at(t1, i), j) {
        1usize
    } else {
        0usize
    }) by {
        assert(opt_at(t0, i).sem_need@[j] == (if blocked_on_sem(opt_at(t0, i), j) {
            1usize
        } else {
            0usize
        }));
        if i != tid {
            assert(opt_at(t1, i) == opt_at(t0, i));
        }
    }
    assert forall|i: int| opt_live(t1, i) implies ((#[trigger] opt_at(t1, i)).status
        == TaskStatus::Blocked <==> opt_at(t1, i).blocked_on is Some) by {
        if i != tid {
            assert(opt_at(t1, i) == opt_at(t0, i));
        }
        assert(opt_at(t0, i).status == TaskStatus::Blocked <==> opt_at(t0, i).blocked_on is Some);
    }
    assert forall|i: int| opt_live(t1, i) implies match (#[trigger] opt_at(t1, i)).blocked_on {
        Some(BlockReason::OnMutex(mj)) => mj < RESOURCE_SLOTS && opt_live(m1, mj as int) && opt_at(
            m1,
            mj as int,
        ).locked && in_queue(opt_at(m1, mj as int).wait_queue@, i),
        Some(BlockReason::OnSemaphore(sj)) => sj < RESOURCE_SLOTS && opt_live(
            b.semaphores@,
            sj as int,
        ) && in_queue(opt_at(b.semaphores@, sj as int).wait_queue@, i),
        Some(BlockReason::OnCondvar(cj)) => opt_live(b.condvars@, cj as int) && in_queue(
            opt_at(b.condvars@, cj as int).wait_queue@,
            i,
        ),
        Some(BlockReason::Sleeping(_)) => true,
        None => true,
    } by {
        if i != tid {
            assert(opt_at(t1, i) == opt_at(t0, i));
        }
        match opt_at(t0, i).blocked_on {
            Some(BlockReason::OnMutex(mj)) => {
                assert(opt_live(m0, mj as int) && opt_at(m0, mj as int).locked && in_queue(
                    opt_at(m0, mj as int).wait_queue@,
                    i,
                ));
                if mj == id {
                    assert(opt_at(m1, mj as int).locked);
                    assert(opt_at(m1, mj as int).wait_queue == opt_at(m0, mj as int).wait_queue);
                } else {
                    assert(opt_at(m1, mj as int) == opt_at(m0, mj as int));
                }
            },
            Some(BlockReason::OnSemaphore(sj)) => {
                assert(opt_live(a.semaphores@, sj as int) && in_queue(
                    opt_at(a.semaphores@, sj as int).wait_queue@,
                    i,
                ));
            },
            Some(BlockReason::OnCondvar(cj)) => {
                assert(opt_live(a.condvars@, cj as int) && in_queue(
                    opt_at(a.condvars@, cj as int).wait_queue@,
                    i,
                ));
            },
            _ => {},
        }
    }
    assert forall|j: int| #![trigger opt_at(m1, j)] opt_live(m1, j) implies {
        &&& (opt_at(m1, j).holder is Some ==> opt_at(m1, j).locked)
        &&& (opt_at(m1, j).holder is Some ==> opt_live(t1, opt_at(m1, j).holder->0 as int))
        &&& (j >= RESOURCE_SLOTS ==> !opt_at(m1, j).locked && opt_at(m1, j).wait_queue@.len()
            == 0)
        &&& queue_ok(t1, opt_at(m1, j).wait_queue@, BlockReason::OnMutex(j as usize))
    } by {
        if j == id {
            assert(opt_at(m1, id).wait_queue@.len() == 0);
        } else {
            assert(opt_live(m0, j) ==> opt_at(m1, j) == opt_at(m0, j));
            if opt_live(m1, j) {
                assert(opt_live(m0, j));
                lemma_queue_ok_nonmember(
                    t0,
                    t1,
                    opt_at(m0, j).wait_queue@,
                    BlockReason::OnMutex(j as usize),
                    tid,
                );
            }
        }
    }
    assert forall|j: int| #![trigger opt_at(b.semaphores@, j)] opt_live(b.semaphores@, j) implies {
        &&& (opt_at(b.semaphores@, j).count > 0 ==> opt_at(b.semaphores@, j).wait_queue@.len()
            == 0)
        &&& (j >= RESOURCE_SLOTS ==> opt_at(b.semaphores@, j).wait_queue@.len() == 0)
        &&& queue_ok(t1, opt_at(b.semaphores@, j).wait_queue@, BlockReason::OnSemaphore(j as usize))
    } by {
        assert(opt_live(a.semaphores@, j) && opt_at(b.semaphores@, j) == opt_at(a.semaphores@, j));
        lemma_queue_ok_nonmember(
            t0,
            t1,
            opt_at(a.semaphores@, j).wait_queue@,
            BlockReason::OnSemaphore(j as usize),
            tid,
        );
    }
    assert forall|j: int| #![trigger opt_at(b.condvars@, j)] opt_live(b.condvars@, j) implies
        queue_ok(t1, opt_at(b.condvars@, j).wait_queue@, BlockReason::OnCondvar(j as usize)) by {
        assert(opt_live(a.condvars@, j) && opt_at(b.condvars@, j) == opt_at(a.condvars@, j));
        lemma_queue_ok_nonmember(
            t0,
            t1,
            opt_at(a.condvars@, j).wait_queue@,
            BlockReason::OnCondvar(j as usize),
            tid,
        );
    }
}

/// Suspending on a held mutex preserves the invariants.
proof fn lemma_sync_block_mutex(a: ProcessState, b: ProcessState, tid: int, id: int)
    requires
        a.wf(),
        !a.zombie,
        a.runnable(tid),
        a.task_at(tid).blocked_on is None,
        a.mutex_usable(id),
        a.mutex_at(id).locked,
        mutex_block_post(a, b, tid, id),
    ensures
        tasks_ok(b.tasks@),
        sync_ok(b.tasks@, b.mutexes@, b.semaphores@, b.condvars@),
{
    let t0 = a.tasks@;
    let t1 = b.tasks@;
    let m0 = a.mutexes@;
    let m1 = b.mutexes@;
    assert forall|i: int| opt_live(t1, i) implies (#[trigger] opt_at(t1, i)).wf() && opt_at(
        t1,
        i,
    ).tid == i by {
        if i != tid {
            assert(opt_at(t1, i) == opt_at(t0, i));
        }
        assert(opt_at(t0, i).wf() && opt_at(t0, i).tid == i);
    }
    assert forall|i: int, j: int|
        opt_live(t1, i) && 0 <= j < RESOURCE_SLOTS implies (#[trigger] opt_at(
        t1,
        i,
    ).mutex_allocation@[j]) == (if mutex_holder_in(m1, j) == Some(i as usize) {
        1usize
    } else {
        0usize
    }) by {
        assert(opt_at(t0, i).mutex_allocation@[j] == (if mutex_holder_in(m0, j) == Some(
            i as usize,
        ) {
            1usize
        } else {
            0usize
        }));
        assert(mutex_holder_in(m1, j) == mutex_holder_in(m0, j));
        if i != tid {
            assert(opt_at(t1, i) == opt_at(t0, i));
        }
    }
    assert forall|i: int, j: int|
        opt_live(t1, i) && 0 <= j < RESOURCE_SLOTS implies (#[trigger] opt_at(
        t1,
        i,
    ).mutex_need@[j]) == (if blocked_on_mutex(opt_at(t1, i), j) {
        1usize
    } else {
        0usize
    }) by {
        assert(opt_at(t0, i).mutex_need@[j] == (if blocked_on_mutex(opt_at(t0, i), j) {
            1usize
        } else {
            0usize
        }));
        if i != tid {
            assert(opt_at(t1, i) == opt_at(t0, i));
        } else {
            assert(!blocked_on_mutex(opt_at(t0, tid), j));
            assert(blocked_on_mutex(opt_at(t1, tid), j) <==> j == id);
        }
    }
    assert forall|i: int, j: int|
        opt_live(t1, i) && 0 <= j < RESOURCE_SLOTS implies (#[trigger] opt_at(t1, i).sem_need@[j])
        == (if blocked_on_sem(opt_at(t1, i), j) {
        1usize
    } else {
        0usize
    }) by {
        assert(opt_at(t0, i).sem_need@[j] == (if blocked_on_sem(opt_at(t0, i), j) {
            1usize
        } else {
            0usize
        }));
        if i != tid {
            assert(opt_at(t1, i) == opt_at(t0, i));
        }
    }
    assert forall|i: int| opt_live(t1, i) implies ((#[trigger] opt_at(t1, i)).status
        == TaskStatus::Blocked <==> opt_at(t1, i).blocked_on is Some) by {
        if i != tid {
            assert(opt_at(t1, i) == opt_at(t0, i));
        }
        assert(opt_at(t0, i).status == TaskStatus::Blocked <==> opt_at(t0, i).blocked_on is Some);
    }
    assert forall|i: int| opt_live(t1, i) implies match (#[trigger] opt_at(t1, i)).blocked_on {
        Some(BlockReason::OnMutex(mj)) => mj < RESOURCE_SLOTS && opt_live(m1, mj as int) && opt_at(
            m1,
            mj as int,
        ).locked && in_queue(opt_at(m1, mj as int).wait_queue@, i),
        Some(BlockReason::OnSemaphore(sj)) => sj < RESOURCE_SLOTS && opt_live(
            b.semaphores@,
            sj as int,
        ) && in_queue(opt_at(b.semaphores@, sj as int).wait_queue@, i),
        Some(BlockReason::OnCondvar(cj)) => opt_live(b.condvars@, cj as int) && in_queue(
            opt_at(b.condvars@, cj as int).wait_queue@,
            i,
        ),
        Some(BlockReason::Sleeping(_)) => true,
        None => true,
    } by {
        if i == tid {
            let q1 = opt_at(m1, id).wait_queue@;
            assert(q1[q1.len() - 1] == tid as usize);
            assert(in_queue(q1, tid));
        } else {
            assert(opt_at(t1, i) == opt_at(t0, i));
            match opt_at(t0, i).blocked_on {
                Some(BlockReason::OnMutex(mj)) => {
                    assert(opt_live(m0, mj as int) && opt_at(m0, mj as int).locked && in_queue(
                        opt_at(m0, mj as int).wait_queue@,
                        i,
                    ));
                    if mj == id {
                        let q0 = opt_at(m0, id).wait_queue@;
                        let q1 = opt_at(m1, id).wait_queue@;
                        let k: int = choose|k: int| 0 <= k < q0.len() && q0[k] == i;
                        assert(q1[k] == i);
                        assert(in_queue(q1, i));
                    } else {
                        assert(opt_at(m1, mj as int) == opt_at(m0, mj as int));
                    }
                },
                Some(BlockReason::OnSemaphore(sj)) => {
                    assert(opt_live(a.semaphores@, sj as int) && in_queue(
                        opt_at(a.semaphores@, sj as int).wait_queue@,
                        i,
                    ));
                },
                Some(BlockReason::OnCondvar(cj)) => {
                    assert(opt_live(a.condvars@, cj as int) && in_queue(
                        opt_at(a.condvars@, cj as int).wait_queue@,
                        i,
                    ));
                },
                _ => {},
            }
        }
    }
    assert forall|j: int| #![trigger opt_at(m1, j)] opt_live(m1, j) implies {
        &&& (opt_at(m1, j).holder is Some ==> opt_at(m1, j).locked)
        &&& (opt_at(m1, j).holder is Some ==> opt_live(t1, opt_at(m1, j).holder->0 as int))
        &&& (j >= RESOURCE_SLOTS ==> !opt_at(m1, j).locked && opt_at(m1, j).wait_queue@.len()
            == 0)
        &&& queue_ok(t1, opt_at(m1, j).wait_queue@, BlockReason::OnMutex(j as usize))
    } by {
        if j == id {
            let q0 = opt_at(m0, id).wait_queue@;
            let q1 = opt_at(m1, id).wait_queue@;
            assert(queue_ok(t0, q0, BlockReason::OnMutex(id as usize)));
            assert forall|k: int|
                0 <= k < q1.len() implies opt_live(t1, #[trigger] q1[k] as int) && opt_at(
                t1,
                q1[k] as int,
            ).blocked_on == Some(BlockReason::OnMutex(id as usize)) by {
                if k < q0.len() {
                    assert(q1[k] == q0[k]);
                    assert(opt_at(t0, q0[k] as int).blocked_on == Some(
                        BlockReason::OnMutex(id as usize),
                    ));
                    assert(q0[k] != tid);
                } else {
                    assert(q1[k] == tid as usize);
                }
            }
            assert forall|k1: int, k2: int| 0 <= k1 < k2 < q1.len() implies q1[k1] != q1[k2] by {
                if k2 == q1.len() - 1 {
                    assert(q1[k1] == q0[k1]);
                    assert(opt_at(t0, q0[k1] as int).blocked_on == Some(
                        BlockReason::OnMutex(id as usize),
                    ));
                    assert(q0[k1] != tid);
                } else {
                    assert(q1[k1] == q0[k1] && q1[k2] == q0[k2]);
                }
            }
        } else {
            assert(opt_live(m0, j) ==> opt_at(m1, j) == opt_at(m0, j));
            if opt_live(m1, j) {
                assert(opt_live(m0, j));
                lemma_queue_ok_nonmember(
                    t0,
                    t1,
                    opt_at(m0, j).wait_queue@,
                    BlockReason::OnMutex(j as usize),
                    tid,
                );
            }
        }
    }
    assert forall|j: int| #![trigger opt_at(b.semaphores@, j)] opt_live(b.semaphores@, j) implies {
        &&& (opt_at(b.semaphores@, j).count > 0 ==> opt_at(b.semaphores@, j).wait_queue@.len()
            == 0)
        &&& (j >= RESOURCE_SLOTS ==> opt_at(b.semaphores@, j).wait_queue@.len() == 0)
        &&& queue_ok(t1, opt_at(b.semaphores@, j).wait_queue@, BlockReason::OnSemaphore(j as usize))
    } by {
        assert(opt_live(a.semaphores@, j) && opt_at(b.semaphores@, j) == opt_at(a.semaphores@, j));
        lemma_queue_ok_nonmember(
            t0,
            t1,
            opt_at(a.semaphores@, j).wait_queue@,
            BlockReason::OnSemaphore(j as usize),
            tid,
        );
    }
    assert forall|j: int| #![trigger opt_at(b.condvars@, j)] opt_live(b.condvars@, j) implies
        queue_ok(t1, opt_at(b.condvars@, j).wait_queue@, BlockReason::OnCondvar(j as usize)) by {
        assert(opt_live(a.condvars@, j) && opt_at(b.condvars@, j) == opt_at(a.condvars@, j));
        lemma_queue_ok_nonmember(
            t0,
            t1,
            opt_at(a.condvars@, j).wait_queue@,
            BlockReason::OnCondvar(j as usize),
            tid,
        );
    }
}

impl ProcessState {
    /// Acquires mutex `mutex_id` for task `tid`. An empty slot, or one at
    /// or beyond the accounted slot range, is rejected with `-1`. When deadlock detection is enabled and
    /// the Banker's check finds the request unsafe, the call returns the
    /// distinguished refusal value and nothing changes, the speculative
    /// need increment included. Otherwise the task either takes the free
    /// mutex at once (returning `0`) or suspends in its wait queue.
    pub fn sys_mutex_lock(&mut self, tid: usize, mutex_id: usize) -> (r: SysOutcome)
        requires
            old(self).wf(),
            old(self).runnable(tid as int),
        ensures
            final(self).wf(),
            !old(self).mutex_usable(mutex_id as int) ==> r == SysOutcome::Done(-1isize) && *final(self)
                == *old(self),
            old(self).mutex_usable(mutex_id as int) && old(self).deadlock_detect && !old(
                self,
            ).grant_safe(0, mutex_id as int, tid as int) ==> r == SysOutcome::Done(
                DEADLOCK_AVOIDED,
            ) && *final(self) == *old(self),
            old(self).mutex_usable(mutex_id as int) && (!old(self).deadlock_detect || old(
                self,
            ).grant_safe(0, mutex_id as int, tid as int)) && !old(self).mutex_at(
                mutex_id as int,
            ).locked ==> r == SysOutcome::Done(0isize) && mutex_acquire_post(
                *old(self),
                *final(self),
                tid as int,
                mutex_id as int,
            ),
            old(self).mutex_usable(mutex_id as int) && (!old(self).deadlock_detect || old(
                self,
            ).grant_safe(0, mutex_id as int, tid as int)) && old(self).mutex_at(
                mutex_id as int,
            ).locked ==> r == SysOutcome::Suspend && mutex_block_post(
                *old(self),
                *final(self),
                tid as int,
                mutex_id as int,
            ),
    {
        proof {
            lemma_runnable_not_zombie(*self, tid as int);
        }
        if mutex_id >= RESOURCE_SLOTS || mutex_id >= self.mutexes.len() {
            return SysOutcome::Done(-1);
        }
        let occupied: bool = match &self.mutexes[mutex_id] {
            Some(_) => true,
            None => false,
        };
        if !occupied {
            return SysOutcome::Done(-1);
        }
        if self.deadlock_detect {
            if !self.deadlock_check(0, mutex_id, tid) {
                return SysOutcome::Done(DEADLOCK_AVOIDED);
            }
        }
        proof {
            assert(self.task_at(tid as int).wf());
        }
        let locked: bool = match &self.mutexes[mutex_id] {
            Some(m) => m.locked,
            None => false,
        };
        if !locked {
            match &mut self.mutexes[mutex_id] {
                Some(m) => {
                    m.locked = true;
                    m.holder = Some(tid);
                },
                None => {},
            }
            match &mut self.tasks[tid] {
                Some(tc) => {
                    tc.mutex_allocation[mutex_id] = 1;
                },
                None => {},
            }
            proof {
                assert(self.task_at(tid as int).mutex_allocation@ =~= old(self).task_at(
                    tid as int,
                ).mutex_allocation@.update(mutex_id as int, 1usize));
                assert(mutex_acquire_post(*old(self), *self, tid as int, mutex_id as int));
                lemma_sync_acquire(*old(self), *self, tid as int, mutex_id as int);
            }
            SysOutcome::Done(0)
        } else {
            match &mut self.tasks[tid] {
                Some(tc) => {
                    tc.mutex_need[mutex_id] = 1;
                    tc.status = TaskStatus::Blocked;
                    tc.blocked_on = Some(BlockReason::OnMutex(mutex_id));
                },
                None => {},
            }
            match &mut self.mutexes[mutex_id] {
                Some(m) => {
                    m.wait_queue.push(tid);
                },
                None => {},
            }
            proof {
                assert(self.task_at(tid as int).mutex_need@ =~= old(self).task_at(
                    tid as int,
                ).mutex_need@.update(mutex_id as int, 1usize));
                assert(mutex_block_post(*old(self), *self, tid as int, mutex_id as int));
                lemma_sync_block_mutex(*old(self), *self, tid as int, mutex_id as int);
            }
            SysOutcome::Suspend
        }
    }
}

/// Relates a process before and after task `tid` releases mutex `id`:
/// the task gives back its allocated unit and either the mutex becomes
/// free (no waiters) or ownership passes to the first waiter, which wakes
/// with its request accounted as held and a zero syscall return value.
pub open spec fn mutex_release_post(a: ProcessState, b: ProcessState, tid: int, id: int) -> bool {
    &&& b.tasks@.len() == a.tasks@.len()
    &&& b.live(tid)
    &&& b.task_at(tid).mutex_allocation@ == a.task_at(tid).mutex_allocation@.update(id, 0usize)
    &&& b.task_at(tid).mutex_need == a.task_at(tid).mutex_need
    &&& b.task_at(tid).sem_allocation == a.task_at(tid).sem_allocation
    &&& b.task_at(tid).sem_need == a.task_at(tid).sem_need
    &&& b.task_at(tid).status == a.task_at(tid).status
    &&& b.task_at(tid).blocked_on == a.task_at(tid).blocked_on
    &&& b.task_at(tid).trap_ret == a.task_at(tid).trap_ret
    &&& b.task_at(tid).priority == a.task_at(tid).priority
    &&& b.task_at(tid).tid == a.task_at(tid).tid
    &&& b.mutexes@.len() == a.mutexes@.len()
    &&& forall|j: int| 0 <= j < a.mutexes@.len() && j != id ==> b.mutexes@[j] == a.mutexes@[j]
    &&& b.mutex_live(id)
    &&& b.mutex_at(id).blocking == a.mutex_at(id).blocking
    &&& b.semaphores == a.semaphores
    &&& b.condvars == a.condvars
    &&& same_but_sync(a, b)
    &&& if a.mutex_at(id).wait_queue@.len() == 0 {
        &&& forall|i: int| 0 <= i < a.tasks@.len() && i != tid ==> b.tasks@[i] == a.tasks@[i]
        &&& !b.mutex_at(id).locked
        &&& b.mutex_at(id).holder is None
        &&& b.mutex_at(id).wait_queue@.len() == 0
    } else {
        let w = a.mutex_at(id).wait_queue@[0] as int;
        &&& forall|i: int|
            0 <= i < a.tasks@.len() && i != tid && i != w ==> b.tasks@[i] == a.tasks@[i]
        &&& b.live(w)
        &&& b.task_at(w).mutex_allocation@ == a.task_at(w).mutex_allocation@.update(id, 1usize)
        &&& b.task_at(w).mutex_need@ == a.task_at(w).mutex_need@.update(id, 0usize)
        &&& b.task_at(w).sem_allocation == a.task_at(w).sem_allocation
        &&& b.task_at(w).sem_need == a.task_at(w).sem_need
        &&& b.task_at(w).status == TaskStatus::Ready
        &&& b.task_at(w).blocked_on is None
        &&& b.task_at(w).trap_ret == 0
        &&& b.task_at(w).priority == a.task_at(w).priority
        &&& b.task_at(w).tid == a.task_at(w).tid
        &&& b.mutex_at(id).locked
        &&& b.mutex_at(id).holder == Some(a.mutex_at(id).wait_queue@[0])
        &&& b.mutex_at(id).wait_queue@ == a.mutex_at(id).wait_queue@.subrange(
            1,
            a.mutex_at(id).wait_queue@.len() as int,
        )
    }
}

/// Releasing a held mutex, handing it to the first waiter when one
/// exists, preserves the invariants.
proof fn lemma_sync_release(a: ProcessState, b: ProcessState, tid: int, id: int)
    requires
        a.wf(),
        !a.zombie,
        a.runnable(tid),
        a.task_at(tid).blocked_on is None,
        a.mutex_usable(id),
        a.mutex_at(id).holder == Some(tid as usize),
        mutex_release_post(a, b, tid, id),
    ensures
        tasks_ok(b.tasks@),
        sync_ok(b.tasks@, b.mutexes@, b.semaphores@, b.condvars@),
{
    let t0 = a.tasks@;
    let t1 = b.tasks@;
    let m0 = a.mutexes@;
    let m1 = b.mutexes@;
    let q0 = a.mutex_at(id).wait_queue@;
    let transfer: bool = q0.len() > 0;
    let w: int = if transfer {
        q0[0] as int
    } else {
        tid
    };
    if transfer {
        assert(opt_live(t0, w) && opt_at(t0, w).blocked_on == Some(
            BlockReason::OnMutex(id as usize),
        ));
        assert(w != tid);
    }
    assert forall|i: int| opt_live(t1, i) implies (#[trigger] opt_at(t1, i)).wf() && opt_at(
        t1,
        i,
    ).tid == i by {
        if i != tid && i != w {
            assert(opt_at(t1, i) == opt_at(t0, i));
        }
        assert(opt_at(t0, i).wf() && opt_at(t0, i).tid == i);
    }
    assert forall|i: int, j: int|
        opt_live(t1, i) && 0 <= j < RESOURCE_SLOTS implies (#[trigger] opt_at(
        t1,
        i,
    ).mutex_allocation@[j]) == (if mutex_holder_in(m1, j) == Some(i as usize) {
        1usize
    } else {
        0usize
    }) by {
        assert(opt_live(t0, i));
        assert(opt_at(t0, i).mutex_allocation@[j] == (if mutex_holder_in(m0, j) == Some(
            i as usize,
        ) {
            1usize
        } else {
            0usize
        }));
        if i != tid && i != w {
            assert(opt_at(t1, i) == opt_at(t0, i));
        }
        if j != id {
            assert(mutex_holder_in(m1, j) == mutex_holder_in(m0, j));
        } else {
            assert(mutex_holder_in(m0, id) == Some(tid as usize));
            if transfer {
                assert(mutex_holder_in(m1, id) == Some(w as usize));
            } else {
                assert(mutex_holder_in(m1, id) is None);
            }
        }
    }
    assert forall|i: int, j: int|
        opt_live(t1, i) && 0 <= j < RESOURCE_SLOTS implies (#[trigger] opt_at(
        t1,
        i,
    ).mutex_need@[j]) == (if blocked_on_mutex(opt_at(t1, i), j) {
        1usize
    } else {
        0usize
    }) by {
        assert(opt_at(t0, i).mutex_need@[j] == (if blocked_on_mutex(opt_at(t0, i), j) {
            1usize
        } else {
            0usize
        }));
        if i != tid && i != w {
            assert(opt_at(t1, i) == opt_at(t0, i));
        }
        if transfer && i == w {
            assert(blocked_on_mutex(opt_at(t0, w), j) <==> j == id);
            assert(!blocked_on_mutex(opt_at(t1, w), j));
        }
    }
    assert forall|i: int, j: int|
        opt_live(t1, i) && 0 <= j < RESOURCE_SLOTS implies (#[trigger] opt_at(t1, i).sem_need@[j])
        == (if blocked_on_sem(opt_at(t1, i), j) {
        1usize
    } else {
        0usize
    }) by {
        assert(opt_at(t0, i).sem_need@[j] == (if blocked_on_sem(opt_at(t0, i), j) {
            1usize
        } else {
            0usize
        }));
        if i != tid && i != w {
            assert(opt_at(t1, i) == opt_at(t0, i));
        }
        if transfer && i == w {
            assert(!blocked_on_sem(opt_at(t0, w), j));
            assert(!blocked_on_sem(opt_at(t1, w), j));
        }
    }
    assert forall|i: int| opt_live(t1, i) implies ((#[trigger] opt_at(t1, i)).status
        == TaskStatus::Blocked <==> opt_at(t1, i).blocked_on is Some) by {
        if i != tid && i != w {
            assert(opt_at(t1, i) == opt_at(t0, i));
        }
        assert(opt_at(t0, i).status == TaskStatus::Blocked <==> opt_at(t0, i).blocked_on is Some);
    }
    assert forall|i: int| opt_live(t1, i) implies match (#[trigger] opt_at(t1, i)).blocked_on {
        Some(BlockReason::OnMutex(mj)) => mj < RESOURCE_SLOTS && opt_live(m1, mj as int) && opt_at(
            m1,
            mj as int,
        ).locked && in_queue(opt_at(m1, mj as int).wait_queue@, i),
        Some(BlockReason::OnSemaphore(sj)) => sj < RESOURCE_SLOTS && opt_live(
            b.semaphores@,
            sj as int,
        ) && in_queue(opt_at(b.semaphores@, sj as int).wait_queue@, i),
        Some(BlockReason::OnCondvar(cj)) => opt_live(b.condvars@, cj as int) && in_queue(
            opt_at(b.condvars@, cj as int).wait_queue@,
            i,
        ),
        Some(BlockReason::Sleeping(_)) => true,
        None => true,
    } by {
        if i != tid && i != w {
            assert(opt_at(t1, i) == opt_at(t0, i));
        }
        if i != tid && (i != w || !transfer) {
            match opt_at(t0, i).blocked_on {
                Some(BlockReason::OnMutex(mj)) => {
                    assert(opt_live(m0, mj as int) && opt_at(m0, mj as int).locked && in_queue(
                        opt_at(m0, mj as int).wait_queue@,
                        i,
                    ));
                    if mj == id {
                        let q1 = opt_at(m1, id).wait_queue@;
                        let k: int = choose|k: int| 0 <= k < q0.len() && q0[k] == i;
                        assert(i != w);
                        assert(k != 0);
                        assert(q1[k - 1] == i);
                        assert(in_queue(q1, i));
                        assert(transfer);
                        assert(opt_at(m1, id).locked);
                    } else {
                        assert(opt_at(m1, mj as int) == opt_at(m0, mj as int));
                    }
                },
                Some(BlockReason::OnSemaphore(sj)) => {
                    assert(opt_live(a.semaphores@, sj as int) && in_queue(
                        opt_at(a.semaphores@, sj as int).wait_queue@,
                        i,
                    ));
                },
                Some(BlockReason::OnCondvar(cj)) => {
                    assert(opt_live(a.condvars@, cj as int) && in_queue(
                        opt_at(a.condvars@, cj as int).wait_queue@,
                        i,
                    ));
                },
                _ => {},
            }
        }
    }
    assert forall|j: int| #![trigger opt_at(m1, j)] opt_live(m1, j) implies {
        &&& (opt_at(m1, j).holder is Some ==> opt_at(m1, j).locked)
        &&& (opt_at(m1, j).holder is Some ==> opt_live(t1, opt_at(m1, j).holder->0 as int))
        &&& (j >= RESOURCE_SLOTS ==> !opt_at(m1, j).locked && opt_at(m1, j).wait_queue@.len()
            == 0)
        &&& queue_ok(t1, opt_at(m1, j).wait_queue@, BlockReason::OnMutex(j as usize))
    } by {
        if j == id {
            if transfer {
                let q1 = opt_at(m1, id).wait_queue@;
                assert forall|k: int|
                    0 <= k < q1.len() implies opt_live(t1, #[trigger] q1[k] as int) && opt_at(
                    t1,
                    q1[k] as int,
                ).blocked_on == Some(BlockReason::OnMutex(id as usize)) by {
                    assert(q1[k] == q0[k + 1]);
                    assert(opt_live(t0, q0[k + 1] as int) && opt_at(
                        t0,
                        q0[k + 1] as int,
                    ).blocked_on == Some(BlockReason::OnMutex(id as usize)));
                    assert(q0[k + 1] != q0[0]);
                    assert(q0[k + 1] != tid);
                }
                assert forall|k1: int, k2: int| 0 <= k1 < k2 < q1.len() implies q1[k1]
                    != q1[k2] by {
                    assert(q1[k1] == q0[k1 + 1] && q1[k2] == q0[k2 + 1]);
                }
            }
        } else {
            assert(opt_live(m0, j) ==> opt_at(m1, j) == opt_at(m0, j));
            if opt_live(m1, j) {
                assert(opt_live(m0, j));
                assert(a.mutexes.len() as int == m0.len());
                if transfer {
                    assert(j as usize != id as usize);
                    assert(opt_at(t0, w).blocked_on != Some(BlockReason::OnMutex(j as usize)));
                }
                lemma_queue_ok_nonmember2(
                    t0,
                    t1,
                    opt_at(m0, j).wait_queue@,
                    BlockReason::OnMutex(j as usize),
                    tid,
                    w,
                );
            }
        }
    }
    assert forall|j: int| #![trigger opt_at(b.semaphores@, j)] opt_live(b.semaphores@, j) implies {
        &&& (opt_at(b.semaphores@, j).count > 0 ==> opt_at(b.semaphores@, j).wait_queue@.len()
            == 0)
        &&& (j >= RESOURCE_SLOTS ==> opt_at(b.semaphores@, j).wait_queue@.len() == 0)
        &&& queue_ok(t1, opt_at(b.semaphores@, j).wait_queue@, BlockReason::OnSemaphore(j as usize))
    } by {
        assert(opt_live(a.semaphores@, j) && opt_at(b.semaphores@, j) == opt_at(a.semaphores@, j));
        lemma_queue_ok_nonmember2(
            t0,
            t1,
            opt_at(a.semaphores@, j).wait_queue@,
            BlockReason::OnSemaphore(j as usize),
            tid,
            w,
        );
    }
    assert forall|j: int| #![trigger opt_at(b.condvars@, j)] opt_live(b.condvars@, j) implies
        queue_ok(t1, opt_at(b.condvars@, j).wait_queue@, BlockReason::OnCondvar(j as usize)) by {
        assert(opt_live(a.condvars@, j) && opt_at(b.condvars@, j) == opt_at(a.condvars@, j));
        lemma_queue_ok_nonmember2(
            t0,
            t1,
            opt_at(a.condvars@, j).wait_queue@,
            BlockReason::OnCondvar(j as usize),
            tid,
            w,
        );
    }
}

impl ProcessState {
    /// Releases mutex `mutex_id`, held by task `tid`. An empty slot, or
    /// one at or beyond the accounted slot range, is rejected with `-1`. The holder's allocated unit is
    /// given back; if tasks wait on the mutex, ownership passes directly
    /// to the first of them, which wakes ready with a zero syscall return
    /// value, otherwise the mutex becomes free and at once lockable again.
    /// Unlocking a mutex the caller does not hold is a caller error,
    /// excluded by contract rather than detected.
    pub fn sys_mutex_unlock(&mut self, tid: usize, mutex_id: usize) -> (r: isize)
        requires
            old(self).wf(),
            old(self).runnable(tid as int),
            old(self).mutex_usable(mutex_id as int) ==> old(self).mutex_holder(mutex_id as int)
                == Some(tid),
        ensures
            final(self).wf(),
            r == 0 || r == -1,
            r == -1 <==> !old(self).mutex_usable(mutex_id as int),
            r == -1 ==> *final(self) == *old(self),
            r == 0 ==> mutex_release_post(*old(self), *final(self), tid as int, mutex_id as int),
    {
        proof {
            lemma_runnable_not_zombie(*self, tid as int);
        }
        if mutex_id >= RESOURCE_SLOTS || mutex_id >= self.mutexes.len() {
            return -1;
        }
        let occupied: bool = match &self.mutexes[mutex_id] {
            Some(_) => true,
            None => false,
        };
        if !occupied {
            return -1;
        }
        proof {
            assert(self.task_at(tid as int).wf());
        }
        match &mut self.tasks[tid] {
            Some(tc) => {
                tc.mutex_allocation[mutex_id] = 0;
            },
            None => {},
        }
        let qlen: usize = match &self.mutexes[mutex_id] {
            Some(m) => m.wait_queue.len(),
            None => 0,
        };
        if qlen == 0 {
            match &mut self.mutexes[mutex_id] {
                Some(m) => {
                    m.locked = false;
                    m.holder = None;
                },
                None => {},
            }
            proof {
                assert(self.task_at(tid as int).mutex_allocation@ =~= old(self).task_at(
                    tid as int,
                ).mutex_allocation@.update(mutex_id as int, 0usize));
                assert(mutex_release_post(*old(self), *self, tid as int, mutex_id as int));
                lemma_sync_release(*old(self), *self, tid as int, mutex_id as int);
            }
            0
        } else {
            let w: usize = match &self.mutexes[mutex_id] {
                Some(m) => m.wait_queue[0],
                None => 0,
            };
            proof {
                let q0 = old(self).mutex_at(mutex_id as int).wait_queue@;
                assert(opt_live(old(self).tasks@, q0[0] as int) && opt_at(
                    old(self).tasks@,
                    q0[0] as int,
                ).blocked_on == Some(BlockReason::OnMutex(mutex_id)));
                assert(w != tid);
                assert(opt_at(old(self).tasks@, w as int).wf());
            }
            match &mut self.mutexes[mutex_id] {
                Some(m) => {
                    let _front: usize = m.wait_queue.remove(0);
                    m.holder = Some(w);
                },
                None => {},
            }
            match &mut self.tasks[w] {
                Some(tc) => {
                    tc.mutex_need[mutex_id] = 0;
                    tc.mutex_allocation[mutex_id] = 1;
                    tc.status = TaskStatus::Ready;
                    tc.blocked_on = None;
                    tc.trap_ret = 0;
                },
                None => {},
            }
            proof {
                let a = *old(self);
                let q0 = a.mutex_at(mutex_id as int).wait_queue@;
                assert(self.mutex_at(mutex_id as int).wait_queue@ =~= q0.subrange(
                    1,
                    q0.len() as int,
                ));
                assert(self.task_at(tid as int).mutex_allocation@ =~= a.task_at(
                    tid as int,
                ).mutex_allocation@.update(mutex_id as int, 0usize));
                assert(self.task_at(w as int).mutex_allocation@ =~= a.task_at(
                    w as int,
                ).mutex_allocation@.update(mutex_id as int, 1usize));
                assert(self.task_at(w as int).mutex_need@ =~= a.task_at(
                    w as int,
                ).mutex_need@.update(mutex_id as int, 0usize));
                assert(mutex_release_post(a, *self, tid as int, mutex_id as int));
                lemma_sync_release(a, *self, tid as int, mutex_id as int);
            }
            0
        }
    }
}

/// Relates a process before and after task `tid` takes one available unit
/// of semaphore `id`: the count drops by one, the task books one more
/// allocated unit, and nothing else changes.
pub open spec fn sem_take_post(a: ProcessState, b: ProcessState, tid: int, id: int) -> bool {
    &&& b.tasks@.len() == a.tasks@.len()
    &&& forall|i: int| 0 <= i < a.tasks@.len() && i != tid ==> b.tasks@[i] == a.tasks@[i]
    &&& b.live(tid)
    &&& b.task_at(tid).sem_allocation@ == a.task_at(tid).sem_allocation@.update(
        id,
        (a.task_at(tid).sem_allocation@[id] + 1) as usize,
    )
    &&& b.task_at(tid).sem_need == a.task_at(tid).sem_need
    &&& b.task_at(tid).mutex_allocation == a.task_at(tid).mutex_allocation
    &&& b.task_at(tid).mutex_need == a.task_at(tid).mutex_need
    &&& b.task_at(tid).status == a.task_at(tid).status
    &&& b.task_at(tid).blocked_on == a.task_at(tid).blocked_on
    &&& b.task_at(tid).trap_ret == a.task_at(tid).trap_ret
    &&& b.task_at(tid).priority == a.task_at(tid).priority
    &&& b.task_at(tid).tid == a.task_at(tid).tid
    &&& b.semaphores@.len() == a.semaphores@.len()
    &&& forall|j: int|
        0 <= j < a.semaphores@.len() && j != id ==> b.semaphores@[j] == a.semaphores@[j]
    &&& b.sem_live(id)
    &&& b.sem_at(id).total == a.sem_at(id).total
    &&& b.sem_at(id).count == a.sem_at(id).count - 1
    &&& b.sem_at(id).wait_queue == a.sem_at(id).wait_queue
    &&& b.mutexes == a.mutexes
    &&& b.condvars == a.condvars
    &&& same_but_sync(a, b)
}

/// Relates a process before and after task `tid` suspends on drained
/// semaphore `id`: the task books one needed unit, blocks, and joins the
/// semaphore's wait queue; nothing else changes.
pub open spec fn sem_block_post(a: ProcessState, b: ProcessState, tid: int, id: int) -> bool {
    &&& b.tasks@.len() == a.tasks@.len()
    &&& forall|i: int| 0 <= i < a.tasks@.len() && i != tid ==> b.tasks@[i] == a.tasks@[i]
    &&& b.live(tid)
    &&& b.task_at(tid).sem_need@ == a.task_at(tid).sem_need@.update(id, 1usize)
    &&& b.task_at(tid).sem_allocation == a.task_at(tid).sem_allocation
    &&& b.task_at(tid).mutex_allocation == a.task_at(tid).mutex_allocation
    &&& b.task_at(tid).mutex_need == a.task_at(tid).mutex_need
    &&& b.task_at(tid).status == TaskStatus::Blocked
    &&& b.task_at(tid).blocked_on == Some(BlockReason::OnSemaphore(id as usize))
    &&& b.task_at(tid).trap_ret == a.task_at(tid).trap_ret
    &&& b.task_at(tid).priority == a.task_at(tid).priority
    &&& b.task_at(tid).tid == a.task_at(tid).tid
    &&& b.semaphores@.len() == a.semaphores@.len()
    &&& forall|j: int|
        0 <= j < a.semaphores@.len() && j != id ==> b.semaphores@[j] == a.semaphores@[j]
    &&& b.sem_live(id)
    &&& b.sem_at(id).total == a.sem_at(id).total
    &&& b.sem_at(id).count == a.sem_at(id).count
    &&& b.sem_at(id).wait_queue@ == a.sem_at(id).wait_queue@.push(tid as usize)
    &&& b.mutexes == a.mutexes
    &&& b.condvars == a.condvars
    &&& same_but_sync(a, b)
}

/// Taking an available semaphore unit preserves the invariants.
proof fn lemma_sync_sem_take(a: ProcessState, b: ProcessState, tid: int, id: int)
    requires
        a.wf(),
        !a.zombie,
        a.runnable(tid),
        a.task_at(tid).blocked_on is None,
        a.sem_usable(id),
        a.sem_at(id).count > 0,
        sem_take_post(a, b, tid, id),
    ensures
        tasks_ok(b.tasks@),
        sync_ok(b.tasks@, b.mutexes@, b.semaphores@, b.condvars@),
{
    let t0 = a.tasks@;
    let t1 = b.tasks@;
    let s0 = a.semaphores@;
    let s1 = b.semaphores@;
    assert(a.sem_at(id).wait_queue@.len() == 0);
    assert forall|i: int| opt_live(t1, i) implies (#[trigger] opt_at(t1, i)).wf() && opt_at(
        t1,
        i,
    ).tid == i by {
        if i != tid {
            assert(opt_at(t1, i) == opt_at(t0, i));
        }
        assert(opt_at(t0, i).wf() && opt_at(t0, i).tid == i);
    }
    assert forall|i: int, j: int|
        opt_live(t1, i) && 0 <= j < RESOURCE_SLOTS implies (#[trigger] opt_at(
        t1,
        i,
    ).mutex_allocation@[j]) == (if mutex_holder_in(b.mutexes@, j) == Some(i as usize) {
        1usize
    } else {
        0usize
    }) by {
        assert(opt_at(t0, i).mutex_allocation@[j] == (if mutex_holder_in(a.mutexes@, j) == Some(
            i as usize,
        ) {
            1usize
        } else {
            0usize
        }));
        if i != tid {
            assert(opt_at(t1, i) == opt_at(t0, i));
        }
    }
    assert forall|i: int, j: int|
        opt_live(t1, i) && 0 <= j < RESOURCE_SLOTS implies (#[trigger] opt_at(
        t1,
        i,
    ).mutex_need@[j]) == (if blocked_on_mutex(opt_at(t1, i), j) {
        1usize
    } else {
        0usize
    }) by {
        assert(opt_at(t0, i).mutex_need@[j] == (if blocked_on_mutex(opt_at(t0, i), j) {
            1usize
        } else {
            0usize
        }));
        if i != tid {
            assert(opt_at(t1, i) == opt_at(t0, i));
        }
    }
    assert forall|i: int, j: int|
        opt_live(t1, i) && 0 <= j < RESOURCE_SLOTS implies (#[trigger] opt_at(t1, i).sem_need@[j])
        == (if blocked_on_sem(opt_at(t1, i), j) {
        1usize
    } else {
        0usize
    }) by {
        assert(opt_at(t0, i).sem_need@[j] == (if blocked_on_sem(opt_at(t0, i), j) {
            1usize
        } else {
            0usize
        }));
        if i != tid {
            assert(opt_at(t1, i) == opt_at(t0, i));
        }
    }
    assert forall|i: int| opt_live(t1, i) implies ((#[trigger] opt_at(t1, i)).status
        == TaskStatus::Blocked <==> opt_at(t1, i).blocked_on is Some) by {
        if i != tid {
            assert(opt_at(t1, i) == opt_at(t0, i));
        }
        assert(opt_at(t0, i).status == TaskStatus::Blocked <==> opt_at(t0, i).blocked_on is Some);
    }
    assert forall|i: int| opt_live(t1, i) implies match (#[trigger] opt_at(t1, i)).blocked_on {
        Some(BlockReason::OnMutex(mj)) => mj < RESOURCE_SLOTS && opt_live(b.mutexes@, mj as int)
            && opt_at(b.mutexes@, mj as int).locked && in_queue(
            opt_at(b.mutexes@, mj as int).wait_queue@,
            i,
        ),
        Some(BlockReason::OnSemaphore(sj)) => sj < RESOURCE_SLOTS && opt_live(s1, sj as int)
            && in_queue(opt_at(s1, sj as int).wait_queue@, i),
        Some(BlockReason::OnCondvar(cj)) => opt_live(b.condvars@, cj as int) && in_queue(
            opt_at(b.condvars@, cj as int).wait_queue@,
            i,
        ),
        Some(BlockReason::Sleeping(_)) => true,
        None => true,
    } by {
        if i != tid {
            assert(opt_at(t1, i) == opt_at(t0, i));
        }
        match opt_at(t0, i).blocked_on {
            Some(BlockReason::OnMutex(mj)) => {
                assert(opt_live(a.mutexes@, mj as int) && opt_at(a.mutexes@, mj as int).locked
                    && in_queue(opt_at(a.mutexes@, mj as int).wait_queue@, i));
            },
            Some(BlockReason::OnSemaphore(sj)) => {
                assert(opt_live(s0, sj as int) && in_queue(opt_at(s0, sj as int).wait_queue@, i));
                if sj == id {
                    assert(opt_at(s1, sj as int).wait_queue == opt_at(s0, sj as int).wait_queue);
                } else {
                    assert(opt_at(s1, sj as int) == opt_at(s0, sj as int));
                }
            },
            Some(BlockReason::OnCondvar(cj)) => {
                assert(opt_live(a.condvars@, cj as int) && in_queue(
                    opt_at(a.condvars@, cj as int).wait_queue@,
                    i,
                ));
            },
            _ => {},
        }
    }
    assert forall|j: int| #![trigger opt_at(b.mutexes@, j)] opt_live(b.mutexes@, j) implies {
        &&& (opt_at(b.mutexes@, j).holder is Some ==> opt_at(b.mutexes@, j).locked)
        &&& (opt_at(b.mutexes@, j).holder is Some ==> opt_live(
            t1,
            opt_at(b.mutexes@, j).holder->0 as int,
        ))
        &&& (j >= RESOURCE_SLOTS ==> !opt_at(b.mutexes@, j).locked && opt_at(
            b.mutexes@,
            j,
        ).wait_queue@.len() == 0)
        &&& queue_ok(t1, opt_at(b.mutexes@, j).wait_queue@, BlockReason::OnMutex(j as usize))
    } by {
        assert(opt_live(a.mutexes@, j) && opt_at(b.mutexes@, j) == opt_at(a.mutexes@, j));
        lemma_queue_ok_nonmember(
            t0,
            t1,
            opt_at(a.mutexes@, j).wait_queue@,
            BlockReason::OnMutex(j as usize),
            tid,
        );
    }
    assert forall|j: int| #![trigger opt_at(s1, j)] opt_live(s1, j) implies {
        &&& (opt_at(s1, j).count > 0 ==> opt_at(s1, j).wait_queue@.len() == 0)
        &&& (j >= RESOURCE_SLOTS ==> opt_at(s1, j).wait_queue@.len() == 0)
        &&& queue_ok(t1, opt_at(s1, j).wait_queue@, BlockReason::OnSemaphore(j as usize))
    } by {
        if j == id {
            assert(opt_at(s1, id).wait_queue@.len() == 0);
        } else {
            assert(opt_live(s0, j) ==> opt_at(s1, j) == opt_at(s0, j));
            if opt_live(s1, j) {
                assert(opt_live(s0, j));
                lemma_queue_ok_nonmember(
                    t0,
                    t1,
                    opt_at(s0, j).wait_queue@,
                    BlockReason::OnSemaphore(j as usize),
                    tid,
                );
            }
        }
    }
    assert forall|j: int| #![trigger opt_at(b.condvars@, j)] opt_live(b.condvars@, j) implies
        queue_ok(t1, opt_at(b.condvars@, j).wait_queue@, BlockReason::OnCondvar(j as usize)) by {
        assert(opt_live(a.condvars@, j) && opt_at(b.condvars@, j) == opt_at(a.condvars@, j));
        lemma_queue_ok_nonmember(
            t0,
            t1,
            opt_at(a.condvars@, j).wait_queue@,
            BlockReason::OnCondvar(j as usize),
            tid,
        );
    }
}

/// Suspending on a drained semaphore preserves the invariants.
proof fn lemma_sync_sem_block(a: ProcessState, b: ProcessState, tid: int, id: int)
    requires
        a.wf(),
        !a.zombie,
        a.runnable(tid),
        a.task_at(tid).blocked_on is None,
        a.sem_usable(id),
        a.sem_at(id).count == 0,
        sem_block_post(a, b, tid, id),
    ensures
        tasks_ok(b.tasks@),
        sync_ok(b.tasks@, b.mutexes@, b.semaphores@, b.condvars@),
{
    let t0 = a.tasks@;
    let t1 = b.tasks@;
    let s0 = a.semaphores@;
    let s1 = b.semaphores@;
    assert forall|i: int| opt_live(t1, i) implies (#[trigger] opt_at(t1, i)).wf() && opt_at(
        t1,
        i,
    ).tid == i by {
        if i != tid {
            assert(opt_at(t1, i) == opt_at(t0, i));
        }
        assert(opt_at(t0, i).wf() && opt_at(t0, i).tid == i);
    }
    assert forall|i: int, j: int|
        opt_live(t1, i) && 0 <= j < RESOURCE_SLOTS implies (#[trigger] opt_at(
        t1,
        i,
    ).mutex_allocation@[j]) == (if mutex_holder_in(b.mutexes@, j) == Some(i as usize) {
        1usize
    } else {
        0usize
    }) by {
        assert(opt_at(t0, i).mutex_allocation@[j] == (if mutex_holder_in(a.mutexes@, j) == Some(
            i as usize,
        ) {
            1usize
        } else {
            0usize
        }));
        if i != tid {
            assert(opt_at(t1, i) == opt_at(t0, i));
        }
    }
    assert forall|i: int, j: int|
        opt_live(t1, i) && 0 <= j < RESOURCE_SLOTS implies (#[trigger] opt_at(
        t1,
        i,
    ).mutex_need@[j]) == (if blocked_on_mutex(opt_at(t1, i), j) {
        1usize
    } else {
        0usize
    }) by {
        assert(opt_at(t0, i).mutex_need@[j] == (if blocked_on_mutex(opt_at(t0, i), j) {
            1usize
        } else {
            0usize
        }));
        if i != tid {
            assert(opt_at(t1, i) == opt_at(t0, i));
        }
    }
    assert forall|i: int, j: int|
        opt_live(t1, i) && 0 <= j < RESOURCE_SLOTS implies (#[trigger] opt_at(t1, i).sem_need@[j])
        == (if blocked_on_sem(opt_at(t1, i), j) {
        1usize
    } else {
        0usize
    }) by {
        assert(opt_at(t0, i).sem_need@[j] == (if blocked_on_sem(opt_at(t0, i), j) {
            1usize
        } else {
            0usize
        }));
        if i != tid {
            assert(opt_at(t1, i) == opt_at(t0, i));
        } else {
            assert(!blocked_on_sem(opt_at(t0, tid), j));
            assert(blocked_on_sem(opt_at(t1, tid), j) <==> j == id);
        }
    }
    assert forall|i: int| opt_live(t1, i) implies ((#[trigger] opt_at(t1, i)).status
        == TaskStatus::Blocked <==> opt_at(t1, i).blocked_on is Some) by {
        if i != tid {
            assert(opt_at(t1, i) == opt_at(t0, i));
        }
        assert(opt_at(t0, i).status == TaskStatus::Blocked <==> opt_at(t0, i).blocked_on is Some);
    }
    assert forall|i: int| opt_live(t1, i) implies match (#[trigger] opt_at(t1, i)).blocked_on {
        Some(BlockReason::OnMutex(mj)) => mj < RESOURCE_SLOTS && opt_live(b.mutexes@, mj as int)
            && opt_at(b.mutexes@, mj as int).locked && in_queue(
            opt_at(b.mutexes@, mj as int).wait_queue@,
            i,
        ),
        Some(BlockReason::OnSemaphore(sj)) => sj < RESOURCE_SLOTS && opt_live(s1, sj as int)
            && in_queue(opt_at(s1, sj as int).wait_queue@, i),
        Some(BlockReason::OnCondvar(cj)) => opt_live(b.condvars@, cj as int) && in_queue(
            opt_at(b.condvars@, cj as int).wait_queue@,
            i,
        ),
        Some(BlockReason::Sleeping(_)) => true,
        None => true,
    } by {
        if i == tid {
            let q1 = opt_at(s1, id).wait_queue@;
            assert(q1[q1.len() - 1] == tid as usize);
            assert(in_queue(q1, tid));
        } else {
            assert(opt_at(t1, i) == opt_at(t0, i));
            match opt_at(t0, i).blocked_on {
                Some(BlockReason::OnMutex(mj)) => {
                    assert(opt_live(a.mutexes@, mj as int) && opt_at(a.mutexes@, mj as int).locked
                        && in_queue(opt_at(a.mutexes@, mj as int).wait_queue@, i));
                },
                Some(BlockReason::OnSemaphore(sj)) => {
                    assert(opt_live(s0, sj as int) && in_queue(
                        opt_at(s0, sj as int).wait_queue@,
                        i,
                    ));
                    if sj == id {
                        let q0 = opt_at(s0, id).wait_queue@;
                        let q1 = opt_at(s1, id).wait_queue@;
                        let k: int = choose|k: int| 0 <= k < q0.len() && q0[k] == i;
                        assert(q1[k] == i);
                        assert(in_queue(q1, i));
                    } else {
                        assert(opt_at(s1, sj as int) == opt_at(s0, sj as int));
                    }
                },
                Some(BlockReason::OnCondvar(cj)) => {
                    assert(opt_live(a.condvars@, cj as int) && in_queue(
                        opt_at(a.condvars@, cj as int).wait_queue@,
                        i,
                    ));
                },
                _ => {},
            }
        }
    }
    assert forall|j: int| #![trigger opt_at(b.mutexes@, j)] opt_live(b.mutexes@, j) implies {
        &&& (opt_at(b.mutexes@, j).holder is Some ==> opt_at(b.mutexes@, j).locked)
        &&& (opt_at(b.mutexes@, j).holder is Some ==> opt_live(
            t1,
            opt_at(b.mutexes@, j).holder->0 as int,
        ))
        &&& (j >= RESOURCE_SLOTS ==> !opt_at(b.mutexes@, j).locked && opt_at(
            b.mutexes@,
            j,
        ).wait_queue@.len() == 0)
        &&& queue_ok(t1, opt_at(b.mutexes@, j).wait_queue@, BlockReason::OnMutex(j as usize))
    } by {
        assert(opt_live(a.mutexes@, j) && opt_at(b.mutexes@, j) == opt_at(a.mutexes@, j));
        lemma_queue_ok_nonmember(
            t0,
            t1,
            opt_at(a.mutexes@, j).wait_queue@,
            BlockReason::OnMutex(j as usize),
            tid,
        );
    }
    assert forall|j: int| #![trigger opt_at(s1, j)] opt_live(s1, j) implies {
        &&& (opt_at(s1, j).count > 0 ==> opt_at(s1, j).wait_queue@.len() == 0)
        &&& (j >= RESOURCE_SLOTS ==> opt_at(s1, j).wait_queue@.len() == 0)
        &&& queue_ok(t1, opt_at(s1, j).wait_queue@, BlockReason::OnSemaphore(j as usize))
    } by {
        if j == id {
            let q0 = opt_at(s0, id).wait_queue@;
            let q1 = opt_at(s1, id).wait_queue@;
            assert(queue_ok(t0, q0, BlockReason::OnSemaphore(id as usize)));
            assert forall|k: int|
                0 <= k < q1.len() implies opt_live(t1, #[trigger] q1[k] as int) && opt_at(
                t1,
                q1[k] as int,
            ).blocked_on == Some(BlockReason::OnSemaphore(id as usize)) by {
                if k < q0.len() {
                    assert(q1[k] == q0[k]);
                    assert(opt_at(t0, q0[k] as int).blocked_on == Some(
                        BlockReason::OnSemaphore(id as usize),
                    ));
                    assert(q0[k] != tid);
                } else {
                    assert(q1[k] == tid as usize);
                }
            }
            assert forall|k1: int, k2: int| 0 <= k1 < k2 < q1.len() implies q1[k1] != q1[k2] by {
                if k2 == q1.len() - 1 {
                    assert(q1[k1] == q0[k1]);
                    assert(opt_at(t0, q0[k1] as int).blocked_on == Some(
                        BlockReason::OnSemaphore(id as usize),
                    ));
                    assert(q0[k1] != tid);
                } else {
                    assert(q1[k1] == q0[k1] && q1[k2] == q0[k2]);
                }
            }
        } else {
            assert(opt_live(s0, j) ==> opt_at(s1, j) == opt_at(s0, j));
            if opt_live(s1, j) {
                assert(opt_live(s0, j));
                lemma_queue_ok_nonmember(
                    t0,
                    t1,
                    opt_at(s0, j).wait_queue@,
                    BlockReason::OnSemaphore(j as usize),
                    tid,
                );
            }
        }
    }
    assert forall|j: int| #![trigger opt_at(b.condvars@, j)] opt_live(b.condvars@, j) implies
        queue_ok(t1, opt_at(b.condvars@, j).wait_queue@, BlockReason::OnCondvar(j as usize)) by {
        assert(opt_live(a.condvars@, j) && opt_at(b.condvars@, j) == opt_at(a.condvars@, j));
        lemma_queue_ok_nonmember(
            t0,
            t1,
            opt_at(a.condvars@, j).wait_queue@,
            BlockReason::OnCondvar(j as usize),
            tid,
        );
    }
}

impl ProcessState {
    /// Takes one unit of semaphore `sem_id` for task `tid`. An empty
    /// slot, or one at or beyond the accounted slot range, is rejected
    /// with `-1`. When deadlock
    /// detection is enabled and the Banker's check finds the request
    /// unsafe, the call returns the distinguished refusal value and
    /// nothing changes, the speculative need increment included.
    /// Otherwise the task either takes an available unit at once
    /// (returning `0`) or suspends in the semaphore's wait queue.
    pub fn sys_semaphore_down(&mut self, tid: usize, sem_id: usize) -> (r: SysOutcome)
        requires
            old(self).wf(),
            old(self).runnable(tid as int),
            old(self).sem_usable(sem_id as int) ==> old(self).task_at(
                tid as int,
            ).sem_allocation@[sem_id as int] < usize::MAX,
        ensures
            final(self).wf(),
            !old(self).sem_usable(sem_id as int) ==> r == SysOutcome::Done(-1isize) && *final(self)
                == *old(self),
            old(self).sem_usable(sem_id as int) && old(self).deadlock_detect && !old(
                self,
            ).grant_safe(1, sem_id as int, tid as int) ==> r == SysOutcome::Done(DEADLOCK_AVOIDED)
                && *final(self) == *old(self),
            old(self).sem_usable(sem_id as int) && (!old(self).deadlock_detect || old(
                self,
            ).grant_safe(1, sem_id as int, tid as int)) && old(self).sem_at(sem_id as int).count
                > 0 ==> r == SysOutcome::Done(0isize) && sem_take_post(
                *old(self),
                *final(self),
                tid as int,
                sem_id as int,
            ),
            old(self).sem_usable(sem_id as int) && (!old(self).deadlock_detect || old(
                self,
            ).grant_safe(1, sem_id as int, tid as int)) && old(self).sem_at(sem_id as int).count
                == 0 ==> r == SysOutcome::Suspend && sem_block_post(
                *old(self),
                *final(self),
                tid as int,
                sem_id as int,
            ),
    {
        proof {
            lemma_runnable_not_zombie(*self, tid as int);
        }
        if sem_id >= RESOURCE_SLOTS || sem_id >= self.semaphores.len() {
            return SysOutcome::Done(-1);
        }
        let occupied: bool = match &self.semaphores[sem_id] {
            Some(_) => true,
            None => false,
        };
        if !occupied {
            return SysOutcome::Done(-1);
        }
        if self.deadlock_detect {
            if !self.deadlock_check(1, sem_id, tid) {
                return SysOutcome::Done(DEADLOCK_AVOIDED);
            }
        }
        proof {
            assert(self.task_at(tid as int).wf());
        }
        let count: usize = match &self.semaphores[sem_id] {
            Some(s) => s.count,
            None => 0,
        };
        if count > 0 {
            match &mut self.semaphores[sem_id] {
                Some(s) => {
                    s.count = s.count - 1;
                },
                None => {},
            }
            let held: usize = match &self.tasks[tid] {
                Some(tc) => tc.sem_allocation[sem_id],
                None => 0,
            };
            match &mut self.tasks[tid] {
                Some(tc) => {
                    tc.sem_allocation[sem_id] = held + 1;
                },
                None => {},
            }
            proof {
                assert(self.task_at(tid as int).sem_allocation@ =~= old(self).task_at(
                    tid as int,
                ).sem_allocation@.update(
                    sem_id as int,
                    (old(self).task_at(tid as int).sem_allocation@[sem_id as int] + 1) as usize,
                ));
                assert(sem_take_post(*old(self), *self, tid as int, sem_id as int));
                lemma_sync_sem_take(*old(self), *self, tid as int, sem_id as int);
            }
            SysOutcome::Done(0)
        } else {
            match &mut self.tasks[tid] {
                Some(tc) => {
                    tc.sem_need[sem_id] = 1;
                    tc.status = TaskStatus::Blocked;
                    tc.blocked_on = Some(BlockReason::OnSemaphore(sem_id));
                },
                None => {},
            }
            match &mut self.semaphores[sem_id] {
                Some(s) => {
                    s.wait_queue.push(tid);
                },
                None => {},
            }
            proof {
                assert(self.task_at(tid as int).sem_need@ =~= old(self).task_at(
                    tid as int,
                ).sem_need@.update(sem_id as int, 1usize));
                assert(sem_block_post(*old(self), *self, tid as int, sem_id as int));
                lemma_sync_sem_block(*old(self), *self, tid as int, sem_id as int);
            }
            SysOutcome::Suspend
        }
    }
}

/// Relates a process before and after task `tid` returns one unit of
/// semaphore `id`: the task's allocated count for the slot drops by one
/// (already-zero accounting is left at zero rather than wrapped), and
/// either the unit goes back to the pool (no waiters) or it passes
/// directly to the first waiter, which wakes with the unit accounted as
/// held and a zero syscall return value.
pub open spec fn sem_release_post(a: ProcessState, b: ProcessState, tid: int, id: int) -> bool {
    &&& b.tasks@.len() == a.tasks@.len()
    &&& b.live(tid)
    &&& b.task_at(tid).sem_allocation@ == a.task_at(tid).sem_allocation@.update(
        id,
        (if a.task_at(tid).sem_allocation@[id] > 0 {
            a.task_at(tid).sem_allocation@[id] - 1
        } else {
            0int
        }) as usize,
    )
    &&& b.task_at(tid).sem_need == a.task_at(tid).sem_need
    &&& b.task_at(tid).mutex_allocation == a.task_at(tid).mutex_allocation
    &&& b.task_at(tid).mutex_need == a.task_at(tid).mutex_need
    &&& b.task_at(tid).status == a.task_at(tid).status
    &&& b.task_at(tid).blocked_on == a.task_at(tid).blocked_on
    &&& b.task_at(tid).trap_ret == a.task_at(tid).trap_ret
    &&& b.task_at(tid).priority == a.task_at(tid).priority
    &&& b.task_at(tid).tid == a.task_at(tid).tid
    &&& b.semaphores@.len() == a.semaphores@.len()
    &&& forall|j: int|
        0 <= j < a.semaphores@.len() && j != id ==> b.semaphores@[j] == a.semaphores@[j]
    &&& b.sem_live(id)
    &&& b.sem_at(id).total == a.sem_at(id).total
    &&& b.mutexes == a.mutexes
    &&& b.condvars == a.condvars
    &&& same_but_sync(a, b)
    &&& if a.sem_at(id).wait_queue@.len() == 0 {
        &&& forall|i: int| 0 <= i < a.tasks@.len() && i != tid ==> b.tasks@[i] == a.tasks@[i]
        &&& b.sem_at(id).count == a.sem_at(id).count + 1
        &&& b.sem_at(id).wait_queue@.len() == 0
    } else {
        let w = a.sem_at(id).wait_queue@[0] as int;
        &&& forall|i: int|
            0 <= i < a.tasks@.len() && i != tid && i != w ==> b.tasks@[i] == a.tasks@[i]
        &&& b.live(w)
        &&& b.task_at(w).sem_allocation@ == a.task_at(w).sem_allocation@.update(
            id,
            (a.task_at(w).sem_allocation@[id] + 1) as usize,
        )
        &&& b.task_at(w).sem_need@ == a.task_at(w).sem_need@.update(id, 0usize)
        &&& b.task_at(w).mutex_allocation == a.task_at(w).mutex_allocation
        &&& b.task_at(w).mutex_need == a.task_at(w).mutex_need
        &&& b.task_at(w).status == TaskStatus::Ready
        &&& b.task_at(w).blocked_on is None
        &&& b.task_at(w).trap_ret == 0
        &&& b.task_at(w).priority == a.task_at(w).priority
        &&& b.task_at(w).tid == a.task_at(w).tid
        &&& b.sem_at(id).count == a.sem_at(id).count
        &&& b.sem_at(id).wait_queue@ == a.sem_at(id).wait_queue@.subrange(
            1,
            a.sem_at(id).wait_queue@.len() as int,
        )
    }
}

/// Returning a semaphore unit, handing it to the first waiter when one
/// exists, preserves the invariants.
proof fn lemma_sync_sem_release(a: ProcessState, b: ProcessState, tid: int, id: int)
    requires
        a.wf(),
        !a.zombie,
        a.runnable(tid),
        a.task_at(tid).blocked_on is None,
        a.sem_usable(id),
        sem_release_post(a, b, tid, id),
    ensures
        tasks_ok(b.tasks@),
        sync_ok(b.tasks@, b.mutexes@, b.semaphores@, b.condvars@),
{
    let t0 = a.tasks@;
    let t1 = b.tasks@;
    let s0 = a.semaphores@;
    let s1 = b.semaphores@;
    let q0 = a.sem_at(id).wait_queue@;
    let transfer: bool = q0.len() > 0;
    let w: int = if transfer {
        q0[0] as int
    } else {
        tid
    };
    if transfer {
        assert(opt_live(t0, w) && opt_at(t0, w).blocked_on == Some(
            BlockReason::OnSemaphore(id as usize),
        ));
        assert(w != tid);
        assert(a.sem_at(id).count == 0);
    }
    assert forall|i: int| opt_live(t1, i) implies (#[trigger] opt_at(t1, i)).wf() && opt_at(
        t1,
        i,
    ).tid == i by {
        if i != tid && i != w {
            assert(opt_at(t1, i) == opt_at(t0, i));
        }
        assert(opt_at(t0, i).wf() && opt_at(t0, i).tid == i);
    }
    assert forall|i: int, j: int|
        opt_live(t1, i) && 0 <= j < RESOURCE_SLOTS implies (#[trigger] opt_at(
        t1,
        i,
    ).mutex_allocation@[j]) == (if mutex_holder_in(b.mutexes@, j) == Some(i as usize) {
        1usize
    } else {
        0usize
    }) by {
        assert(opt_at(t0, i).mutex_allocation@[j] == (if mutex_holder_in(a.mutexes@, j) == Some(
            i as usize,
        ) {
            1usize
        } else {
            0usize
        }));
        if i != tid && i != w {
            assert(opt_at(t1, i) == opt_at(t0, i));
        }
    }
    assert forall|i: int, j: int|
        opt_live(t1, i) && 0 <= j < RESOURCE_SLOTS implies (#[trigger] opt_at(
        t1,
        i,
    ).mutex_need@[j]) == (if blocked_on_mutex(opt_at(t1, i), j) {
        1usize
    } else {
        0usize
    }) by {
        assert(opt_at(t0, i).mutex_need@[j] == (if blocked_on_mutex(opt_at(t0, i), j) {
            1usize
        } else {
            0usize
        }));
        if i != tid && i != w {
            assert(opt_at(t1, i) == opt_at(t0, i));
        }
        if transfer && i == w {
            assert(!blocked_on_mutex(opt_at(t0, w), j));
            assert(!blocked_on_mutex(opt_at(t1, w), j));
        }
    }
    assert forall|i: int, j: int|
        opt_live(t1, i) && 0 <= j < RESOURCE_SLOTS implies (#[trigger] opt_at(t1, i).sem_need@[j])
        == (if blocked_on_sem(opt_at(t1, i), j) {
        1usize
    } else {
        0usize
    }) by {
        assert(opt_at(t0, i).sem_need@[j] == (if blocked_on_sem(opt_at(t0, i), j) {
            1usize
        } else {
            0usize
        }));
        if i != tid && i != w {
            assert(opt_at(t1, i) == opt_at(t0, i));
        }
        if transfer && i == w {
            assert(blocked_on_sem(opt_at(t0, w), j) <==> j == id);
            assert(!blocked_on_sem(opt_at(t1, w), j));
        }
    }
    assert forall|i: int| opt_live(t1, i) implies ((#[trigger] opt_at(t1, i)).status
        == TaskStatus::Blocked <==> opt_at(t1, i).blocked_on is Some) by {
        if i != tid && i != w {
            assert(opt_at(t1, i) == opt_at(t0, i));
        }
        assert(opt_at(t0, i).status == TaskStatus::Blocked <==> opt_at(t0, i).blocked_on is Some);
    }
    assert forall|i: int| opt_live(t1, i) implies match (#[trigger] opt_at(t1, i)).blocked_on {
        Some(BlockReason::OnMutex(mj)) => mj < RESOURCE_SLOTS && opt_live(b.mutexes@, mj as int)
            && opt_at(b.mutexes@, mj as int).locked && in_queue(
            opt_at(b.mutexes@, mj as int).wait_queue@,
            i,
        ),
        Some(BlockReason::OnSemaphore(sj)) => sj < RESOURCE_SLOTS && opt_live(s1, sj as int)
            && in_queue(opt_at(s1, sj as int).wait_queue@, i),
        Some(BlockReason::OnCondvar(cj)) => opt_live(b.condvars@, cj as int) && in_queue(
            opt_at(b.condvars@, cj as int).wait_queue@,
            i,
        ),
        Some(BlockReason::Sleeping(_)) => true,
        None => true,
    } by {
        if i != tid && i != w {
            assert(opt_at(t1, i) == opt_at(t0, i));
        }
        if i != tid && (i != w || !transfer) {
            match opt_at(t0, i).blocked_on {
                Some(BlockReason::OnMutex(mj)) => {
                    assert(opt_live(a.mutexes@, mj as int) && opt_at(a.mutexes@, mj as int).locked
                        && in_queue(opt_at(a.mutexes@, mj as int).wait_queue@, i));
                },
                Some(BlockReason::OnSemaphore(sj)) => {
                    assert(opt_live(s0, sj as int) && in_queue(
                        opt_at(s0, sj as int).wait_queue@,
                        i,
                    ));
                    if sj == id {
                        let q1 = opt_at(s1, id).wait_queue@;
                        let k: int = choose|k: int| 0 <= k < q0.len() && q0[k] == i;
                        assert(i != w);
                        assert(k != 0);
                        assert(q1[k - 1] == i);
                        assert(in_queue(q1, i));
                    } else {
                        assert(opt_at(s1, sj as int) == opt_at(s0, sj as int));
                    }
                },
                Some(BlockReason::OnCondvar(cj)) => {
                    assert(opt_live(a.condvars@, cj as int) && in_queue(
                        opt_at(a.condvars@, cj as int).wait_queue@,
                        i,
                    ));
                },
                _ => {},
            }
        }
    }
    assert forall|j: int| #![trigger opt_at(b.mutexes@, j)] opt_live(b.mutexes@, j) implies {
        &&& (opt_at(b.mutexes@, j).holder is Some ==> opt_at(b.mutexes@, j).locked)
        &&& (opt_at(b.mutexes@, j).holder is Some ==> opt_live(
            t1,
            opt_at(b.mutexes@, j).holder->0 as int,
        ))
        &&& (j >= RESOURCE_SLOTS ==> !opt_at(b.mutexes@, j).locked && opt_at(
            b.mutexes@,
            j,
        ).wait_queue@.len() == 0)
        &&& queue_ok(t1, opt_at(b.mutexes@, j).wait_queue@, BlockReason::OnMutex(j as usize))
    } by {
        assert(opt_live(a.mutexes@, j) && opt_at(b.mutexes@, j) == opt_at(a.mutexes@, j));
        lemma_queue_ok_nonmember2(
            t0,
            t1,
            opt_at(a.mutexes@, j).wait_queue@,
            BlockReason::OnMutex(j as usize),
            tid,
            w,
        );
    }
    assert forall|j: int| #![trigger opt_at(s1, j)] opt_live(s1, j) implies {
        &&& (opt_at(s1, j).count > 0 ==> opt_at(s1, j).wait_queue@.len() == 0)
        &&& (j >= RESOURCE_SLOTS ==> opt_at(s1, j).wait_queue@.len() == 0)
        &&& queue_ok(t1, opt_at(s1, j).wait_queue@, BlockReason::OnSemaphore(j as usize))
    } by {
        if j == id {
            if transfer {
                let q1 = opt_at(s1, id).wait_queue@;
                assert forall|k: int|
                    0 <= k < q1.len() implies opt_live(t1, #[trigger] q1[k] as int) && opt_at(
                    t1,
                    q1[k] as int,
                ).blocked_on == Some(BlockReason::OnSemaphore(id as usize)) by {
                    assert(q1[k] == q0[k + 1]);
                    assert(opt_live(t0, q0[k + 1] as int) && opt_at(
                        t0,
                        q0[k + 1] as int,
                    ).blocked_on == Some(BlockReason::OnSemaphore(id as usize)));
                    assert(q0[k + 1] != q0[0]);
                    assert(q0[k + 1] != tid);
                }
                assert forall|k1: int, k2: int| 0 <= k1 < k2 < q1.len() implies q1[k1]
                    != q1[k2] by {
                    assert(q1[k1] == q0[k1 + 1] && q1[k2] == q0[k2 + 1]);
                }
                assert(opt_at(s1, id).count == 0);
            }
        } else {
            assert(opt_live(s0, j) ==> opt_at(s1, j) == opt_at(s0, j));
            if opt_live(s1, j) {
                assert(opt_live(s0, j));
                assert(a.semaphores.len() as int == s0.len());
                if transfer {
                    assert(j as usize != id as usize);
                    assert(opt_at(t0, w).blocked_on != Some(
                        BlockReason::OnSemaphore(j as usize),
                    ));
                }
                lemma_queue_ok_nonmember2(
                    t0,
                    t1,
                    opt_at(s0, j).wait_queue@,
                    BlockReason::OnSemaphore(j as usize),
                    tid,
                    w,
                );
            }
        }
    }
    assert forall|j: int| #![trigger opt_at(b.condvars@, j)] opt_live(b.condvars@, j) implies
        queue_ok(t1, opt_at(b.condvars@, j).wait_queue@, BlockReason::OnCondvar(j as usize)) by {
        assert(opt_live(a.condvars@, j) && opt_at(b.condvars@, j) == opt_at(a.condvars@, j));
        lemma_queue_ok_nonmember2(
            t0,
            t1,
            opt_at(a.condvars@, j).wait_queue@,
            BlockReason::OnCondvar(j as usize),
            tid,
            w,
        );
    }
}

impl ProcessState {
    /// Returns one unit of semaphore `sem_id` from task `tid`. An empty
    /// slot, or one at or beyond the accounted slot range, is rejected
    /// with `-1`. The unit goes
    /// back to the pool, or passes directly to the first waiter, which
    /// wakes ready with a zero syscall return value. A task that ups more
    /// than it downed keeps its held-unit accounting at zero.
    pub fn sys_semaphore_up(&mut self, tid: usize, sem_id: usize) -> (r: isize)
        requires
            old(self).wf(),
            old(self).runnable(tid as int),
            old(self).sem_usable(sem_id as int) && old(self).sem_at(
                sem_id as int,
            ).wait_queue@.len() == 0 ==> old(self).sem_at(sem_id as int).count < usize::MAX,
            old(self).sem_usable(sem_id as int) && old(self).sem_at(
                sem_id as int,
            ).wait_queue@.len() > 0 ==> old(self).task_at(
                old(self).sem_at(sem_id as int).wait_queue@[0] as int,
            ).sem_allocation@[sem_id as int] < usize::MAX,
        ensures
            final(self).wf(),
            r == 0 || r == -1,
            r == -1 <==> !old(self).sem_usable(sem_id as int),
            r == -1 ==> *final(self) == *old(self),
            r == 0 ==> sem_release_post(*old(self), *final(self), tid as int, sem_id as int),
    {
        proof {
            lemma_runnable_not_zombie(*self, tid as int);
        }
        if sem_id >= RESOURCE_SLOTS || sem_id >= self.semaphores.len() {
            return -1;
        }
        let occupied: bool = match &self.semaphores[sem_id] {
            Some(_) => true,
            None => false,
        };
        if !occupied {
            return -1;
        }
        proof {
            assert(self.task_at(tid as int).wf());
        }
        let held: usize = match &self.tasks[tid] {
            Some(tc) => tc.sem_allocation[sem_id],
            None => 0,
        };
        match &mut self.tasks[tid] {
            Some(tc) => {
                tc.sem_allocation[sem_id] = if held > 0 {
                    held - 1
                } else {
                    0
                };
            },
            None => {},
        }
        let qlen: usize = match &self.semaphores[sem_id] {
            Some(s) => s.wait_queue.len(),
            None => 0,
        };
        if qlen == 0 {
            match &mut self.semaphores[sem_id] {
                Some(s) => {
                    s.count = s.count + 1;
                },
                None => {},
            }
            proof {
                assert(self.task_at(tid as int).sem_allocation@ =~= old(self).task_at(
                    tid as int,
                ).sem_allocation@.update(
                    sem_id as int,
                    (if old(self).task_at(tid as int).sem_allocation@[sem_id as int] > 0 {
                        old(self).task_at(tid as int).sem_allocation@[sem_id as int] - 1
                    } else {
                        0int
                    }) as usize,
                ));
                assert(sem_release_post(*old(self), *self, tid as int, sem_id as int));
                lemma_sync_sem_release(*old(self), *self, tid as int, sem_id as int);
            }
            0
        } else {
            let w: usize = match &self.semaphores[sem_id] {
                Some(s) => s.wait_queue[0],
                None => 0,
            };
            proof {
                let q0 = old(self).sem_at(sem_id as int).wait_queue@;
                assert(opt_live(old(self).tasks@, q0[0] as int) && opt_at(
                    old(self).tasks@,
                    q0[0] as int,
                ).blocked_on == Some(BlockReason::OnSemaphore(sem_id)));
                assert(w != tid);
                assert(opt_at(old(self).tasks@, w as int).wf());
            }
            match &mut self.semaphores[sem_id] {
                Some(s) => {
                    let _front: usize = s.wait_queue.remove(0);
                },
                None => {},
            }
            let wheld: usize = match &self.tasks[w] {
                Some(tc) => tc.sem_allocation[sem_id],
                None => 0,
            };
            match &mut self.tasks[w] {
                Some(tc) => {
                    tc.sem_need[sem_id] = 0;
                    tc.sem_allocation[sem_id] = wheld + 1;
                    tc.status = TaskStatus::Ready;
                    tc.blocked_on = None;
                    tc.trap_ret = 0;
                },
                None => {},
            }
            proof {
                let a = *old(self);
                let q0 = a.sem_at(sem_id as int).wait_queue@;
                assert(self.sem_at(sem_id as int).wait_queue@ =~= q0.subrange(
                    1,
                    q0.len() as int,
                ));
                assert(self.task_at(tid as int).sem_allocation@ =~= a.task_at(
                    tid as int,
                ).sem_allocation@.update(
                    sem_id as int,
                    (if a.task_at(tid as int).sem_allocation@[sem_id as int] > 0 {
                        a.task_at(tid as int).sem_allocation@[sem_id as int] - 1
                    } else {
                        0int
                    }) as usize,
                ));
                assert(self.task_at(w as int).sem_allocation@ =~= a.task_at(
                    w as int,
                ).sem_allocation@.update(
                    sem_id as int,
                    (a.task_at(w as int).sem_allocation@[sem_id as int] + 1) as usize,
                ));
                assert(self.task_at(w as int).sem_need@ =~= a.task_at(
                    w as int,
                ).sem_need@.update(sem_id as int, 0usize));
                assert(sem_release_post(a, *self, tid as int, sem_id as int));
                lemma_sync_sem_release(a, *self, tid as int, sem_id as int);
            }
            0
        }
    }
}

/// Removing an idle semaphore slot, while only the (unconstrained)
/// held-unit accounting of tasks changes, preserves the invariants.
proof fn lemma_sync_sem_clear(
    t0: Seq<Option<TaskControl>>,
    t1: Seq<Option<TaskControl>>,
    m: Seq<Option<MutexState>>,
    s0: Seq<Option<SemState>>,
    s1: Seq<Option<SemState>>,
    c: Seq<Option<CondvarState>>,
    id: int,
)
    requires
        sync_ok(t0, m, s0, c),
        tasks_ok(t0),
        opt_live(s0, id),
        opt_at(s0, id).wait_queue@.len() == 0,
        s1 == s0.update(id, None::<SemState>),
        t1.len() == t0.len(),
        forall|i: int| 0 <= i < t0.len() ==> (t1[i] is Some <==> t0[i] is Some),
        forall|i: int|
            opt_live(t0, i) ==> {
                &&& (#[trigger] opt_at(t1, i)).blocked_on == opt_at(t0, i).blocked_on
                &&& opt_at(t1, i).status == opt_at(t0, i).status
                &&& opt_at(t1, i).tid == opt_at(t0, i).tid
                &&& opt_at(t1, i).trap_ret == opt_at(t0, i).trap_ret
                &&& opt_at(t1, i).priority == opt_at(t0, i).priority
                &&& opt_at(t1, i).mutex_allocation == opt_at(t0, i).mutex_allocation
                &&& opt_at(t1, i).mutex_need == opt_at(t0, i).mutex_need
                &&& opt_at(t1, i).sem_need == opt_at(t0, i).sem_need
                &&& opt_at(t1, i).sem_allocation@.len() == opt_at(t0, i).sem_allocation@.len()
            },
        tasks_ok(t1) || t0.len() <= MAX_TABLE,
    ensures
        tasks_ok(t1),
        sync_ok(t1, m, s1, c),
{
    assert forall|i: int| opt_live(t1, i) implies (#[trigger] opt_at(t1, i)).wf() && opt_at(
        t1,
        i,
    ).tid == i by {
        assert(opt_live(t0, i));
        assert(opt_at(t0, i).wf() && opt_at(t0, i).tid == i);
    }
    assert forall|i: int, j: int|
        opt_live(t1, i) && 0 <= j < RESOURCE_SLOTS implies (#[trigger] opt_at(
        t1,
        i,
    ).mutex_allocation@[j]) == (if mutex_holder_in(m, j) == Some(i as usize) {
        1usize
    } else {
        0usize
    }) by {
        assert(opt_live(t0, i));
        assert(opt_at(t0, i).mutex_allocation@[j] == (if mutex_holder_in(m, j) == Some(i as usize) {
            1usize
        } else {
            0usize
        }));
    }
    assert forall|i: int, j: int|
        opt_live(t1, i) && 0 <= j < RESOURCE_SLOTS implies (#[trigger] opt_at(
        t1,
        i,
    ).mutex_need@[j]) == (if blocked_on_mutex(opt_at(t1, i), j) {
        1usize
    } else {
        0usize
    }) by {
        assert(opt_live(t0, i));
        assert(opt_at(t0, i).mutex_need@[j] == (if blocked_on_mutex(opt_at(t0, i), j) {
            1usize
        } else {
            0usize
        }));
    }
    assert forall|i: int, j: int|
        opt_live(t1, i) && 0 <= j < RESOURCE_SLOTS implies (#[trigger] opt_at(t1, i).sem_need@[j])
        == (if blocked_on_sem(opt_at(t1, i), j) {
        1usize
    } else {
        0usize
    }) by {
        assert(opt_live(t0, i));
        assert(opt_at(t0, i).sem_need@[j] == (if blocked_on_sem(opt_at(t0, i), j) {
            1usize
        } else {
            0usize
        }));
    }
    assert forall|i: int| opt_live(t1, i) implies ((#[trigger] opt_at(t1, i)).status
        == TaskStatus::Blocked <==> opt_at(t1, i).blocked_on is Some) by {
        assert(opt_live(t0, i));
        assert(opt_at(t0, i).status == TaskStatus::Blocked <==> opt_at(t0, i).blocked_on is Some);
    }
    assert forall|i: int| opt_live(t1, i) implies match (#[trigger] opt_at(t1, i)).blocked_on {
        Some(BlockReason::OnMutex(mj)) => mj < RESOURCE_SLOTS && opt_live(m, mj as int) && opt_at(
            m,
            mj as int,
        ).locked && in_queue(opt_at(m, mj as int).wait_queue@, i),
        Some(BlockReason::OnSemaphore(sj)) => sj < RESOURCE_SLOTS && opt_live(s1, sj as int)
            && in_queue(opt_at(s1, sj as int).wait_queue@, i),
        Some(BlockReason::OnCondvar(cj)) => opt_live(c, cj as int) && in_queue(
            opt_at(c, cj as int).wait_queue@,
            i,
        ),
        Some(BlockReason::Sleeping(_)) => true,
        None => true,
    } by {
        assert(opt_live(t0, i));
        match opt_at(t0, i).blocked_on {
            Some(BlockReason::OnSemaphore(sj)) => {
                assert(opt_live(s0, sj as int) && in_queue(opt_at(s0, sj as int).wait_queue@, i));
                assert(sj != id);
                assert(opt_at(s1, sj as int) == opt_at(s0, sj as int));
            },
            Some(BlockReason::OnMutex(mj)) => {
                assert(opt_live(m, mj as int) && opt_at(m, mj as int).locked && in_queue(
                    opt_at(m, mj as int).wait_queue@,
                    i,
                ));
            },
            Some(BlockReason::OnCondvar(cj)) => {
                assert(opt_live(c, cj as int) && in_queue(opt_at(c, cj as int).wait_queue@, i));
            },
            _ => {},
        }
    }
    assert forall|j: int| #![trigger opt_at(m, j)] opt_live(m, j) implies {
        &&& (opt_at(m, j).holder is Some ==> opt_at(m, j).locked)
        &&& (opt_at(m, j).holder is Some ==> opt_live(t1, opt_at(m, j).holder->0 as int))
        &&& (j >= RESOURCE_SLOTS ==> !opt_at(m, j).locked && opt_at(m, j).wait_queue@.len() == 0)
        &&& queue_ok(t1, opt_at(m, j).wait_queue@, BlockReason::OnMutex(j as usize))
    } by {
        lemma_queue_ok_frame(t0, t1, opt_at(m, j).wait_queue@, BlockReason::OnMutex(j as usize));
    }
    assert forall|j: int| #![trigger opt_at(s1, j)] opt_live(s1, j) implies {
        &&& (opt_at(s1, j).count > 0 ==> opt_at(s1, j).wait_queue@.len() == 0)
        &&& (j >= RESOURCE_SLOTS ==> opt_at(s1, j).wait_queue@.len() == 0)
        &&& queue_ok(t1, opt_at(s1, j).wait_queue@, BlockReason::OnSemaphore(j as usize))
    } by {
        assert(j != id);
        assert(opt_live(s0, j) && opt_at(s1, j) == opt_at(s0, j));
        lemma_queue_ok_frame(
            t0,
            t1,
            opt_at(s0, j).wait_queue@,
            BlockReason::OnSemaphore(j as usize),
        );
    }
    assert forall|j: int| #![trigger opt_at(c, j)] opt_live(c, j) implies queue_ok(
        t1,
        opt_at(c, j).wait_queue@,
        BlockReason::OnCondvar(j as usize),
    ) by {
        lemma_queue_ok_frame(t0, t1, opt_at(c, j).wait_queue@, BlockReason::OnCondvar(j as usize));
    }
}

impl ProcessState {
    /// Frees a semaphore slot for reuse. Rejects an empty or out-of-range
    /// slot and a semaphore with waiters. On success every task's
    /// held-unit accounting for the slot is cleared, so a later occupant
    /// of the slot starts with clean books; no task can still be
    /// requesting the slot, its wait queue being empty.
    pub fn semaphore_free(&mut self, sem_id: usize) -> (r: isize)
        requires
            old(self).wf(),
            !old(self).zombie,
        ensures
            final(self).wf(),
            r == 0 || r == -1,
            r == 0 <==> old(self).sem_live(sem_id as int) && old(self).sem_at(
                sem_id as int,
            ).wait_queue@.len() == 0,
            r == -1 ==> *final(self) == *old(self),
            r == 0 ==> {
                &&& final(self).semaphores@ == old(self).semaphores@.update(sem_id as int, None::<
                    SemState,
                >)
                &&& final(self).tasks@.len() == old(self).tasks@.len()
                &&& forall|i: int|
                    old(self).live(i) ==> {
                        &&& final(self).live(i)
                        &&& (sem_id < RESOURCE_SLOTS ==> (#[trigger] final(self).task_at(
                            i,
                        )).sem_allocation@ == old(self).task_at(i).sem_allocation@.update(
                            sem_id as int,
                            0usize,
                        ))
                        &&& (sem_id >= RESOURCE_SLOTS ==> final(self).tasks@[i] == old(
                            self,
                        ).tasks@[i])
                        &&& final(self).task_at(i).sem_need == old(self).task_at(i).sem_need
                        &&& final(self).task_at(i).mutex_allocation == old(self).task_at(
                            i,
                        ).mutex_allocation
                        &&& final(self).task_at(i).mutex_need == old(self).task_at(i).mutex_need
                        &&& final(self).task_at(i).status == old(self).task_at(i).status
                        &&& final(self).task_at(i).blocked_on == old(self).task_at(i).blocked_on
                        &&& final(self).task_at(i).trap_ret == old(self).task_at(i).trap_ret
                        &&& final(self).task_at(i).priority == old(self).task_at(i).priority
                    }
                &&& final(self).mutexes == old(self).mutexes
                &&& final(self).condvars == old(self).condvars
                &&& same_but_sync(*old(self), *final(self))
            },
    {
        if sem_id >= self.semaphores.len() {
            return -1;
        }
        let ok: bool = match &self.semaphores[sem_id] {
            Some(s) => s.wait_queue.len() == 0,
            None => false,
        };
        if !ok {
            return -1;
        }
        self.semaphores[sem_id] = None;
        if sem_id < RESOURCE_SLOTS {
            let n: usize = self.tasks.len();
            let mut i: usize = 0;
            #[verifier::loop_isolation(false)]
            while i < n
                invariant
                    i <= n,
                    self.tasks@.len() == n,
                    forall|k: int|
                        0 <= k < n ==> (self.tasks@[k] is Some <==> old(self).tasks@[k] is Some),
                    forall|k: int|
                        0 <= k < i && old(self).tasks@[k] is Some ==> {
                            &&& (#[trigger] opt_at(self.tasks@, k)).sem_allocation@ == opt_at(
                                old(self).tasks@,
                                k,
                            ).sem_allocation@.update(sem_id as int, 0usize)
                            &&& opt_at(self.tasks@, k).sem_need == opt_at(
                                old(self).tasks@,
                                k,
                            ).sem_need
                            &&& opt_at(self.tasks@, k).mutex_allocation == opt_at(
                                old(self).tasks@,
                                k,
                            ).mutex_allocation
                            &&& opt_at(self.tasks@, k).mutex_need == opt_at(
                                old(self).tasks@,
                                k,
                            ).mutex_need
                            &&& opt_at(self.tasks@, k).status == opt_at(
                                old(self).tasks@,
                                k,
                            ).status
                            &&& opt_at(self.tasks@, k).blocked_on == opt_at(
                                old(self).tasks@,
                                k,
                            ).blocked_on
                            &&& opt_at(self.tasks@, k).trap_ret == opt_at(
                                old(self).tasks@,
                                k,
                            ).trap_ret
                            &&& opt_at(self.tasks@, k).priority == opt_at(
                                old(self).tasks@,
                                k,
                            ).priority
                            &&& opt_at(self.tasks@, k).tid == opt_at(old(self).tasks@, k).tid
                        },
                    forall|k: int| i <= k < n ==> #[trigger] self.tasks@[k] == old(self).tasks@[k],
                    self.semaphores@ == old(self).semaphores@.update(sem_id as int, None::<
                        SemState,
                    >),
                    self.mutexes == old(self).mutexes,
                    self.condvars == old(self).condvars,
                    same_but_sync(*old(self), *self),
                decreases n - i,
            {
                let ghost tpre: Seq<Option<TaskControl>> = self.tasks@;
                proof {
                    if old(self).tasks@[i as int] is Some {
                        assert(opt_at(old(self).tasks@, i as int).wf());
                    }
                }
                match &mut self.tasks[i] {
                    Some(tc) => {
                        tc.sem_allocation[sem_id] = 0;
                    },
                    None => {},
                }
                proof {
                    assert forall|k: int| 0 <= k < n && k != i implies self.tasks@[k] == tpre[k]
                        by {}
                    assert forall|k: int|
                        0 <= k < i && old(self).tasks@[k] is Some implies {
                        &&& (#[trigger] opt_at(self.tasks@, k)).sem_allocation@ == opt_at(
                            old(self).tasks@,
                            k,
                        ).sem_allocation@.update(sem_id as int, 0usize)
                        &&& opt_at(self.tasks@, k).sem_need == opt_at(old(self).tasks@, k).sem_need
                        &&& opt_at(self.tasks@, k).mutex_allocation == opt_at(
                            old(self).tasks@,
                            k,
                        ).mutex_allocation
                        &&& opt_at(self.tasks@, k).mutex_need == opt_at(
                            old(self).tasks@,
                            k,
                        ).mutex_need
                        &&& opt_at(self.tasks@, k).status == opt_at(old(self).tasks@, k).status
                        &&& opt_at(self.tasks@, k).blocked_on == opt_at(
                            old(self).tasks@,
                            k,
                        ).blocked_on
                        &&& opt_at(self.tasks@, k).trap_ret == opt_at(
                            old(self).tasks@,
                            k,
                        ).trap_ret
                        &&& opt_at(self.tasks@, k).priority == opt_at(
                            old(self).tasks@,
                            k,
                        ).priority
                        &&& opt_at(self.tasks@, k).tid == opt_at(old(self).tasks@, k).tid
                    } by {
                        assert(self.tasks@[k] == tpre[k]);
                        assert(opt_at(tpre, k).sem_allocation@ == opt_at(
                            old(self).tasks@,
                            k,
                        ).sem_allocation@.update(sem_id as int, 0usize));
                    }
                    if old(self).tasks@[i as int] is Some {
                        assert(tpre[i as int] == old(self).tasks@[i as int]);
                        assert(opt_at(self.tasks@, i as int).sem_allocation@ =~= opt_at(
                            old(self).tasks@,
                            i as int,
                        ).sem_allocation@.update(sem_id as int, 0usize));
                        assert(opt_at(self.tasks@, i as int).sem_need == opt_at(
                            old(self).tasks@,
                            i as int,
                        ).sem_need);
                        assert(opt_at(self.tasks@, i as int).mutex_allocation == opt_at(
                            old(self).tasks@,
                            i as int,
                        ).mutex_allocation);
                        assert(opt_at(self.tasks@, i as int).mutex_need == opt_at(
                            old(self).tasks@,
                            i as int,
                        ).mutex_need);
                        assert(opt_at(self.tasks@, i as int).status == opt_at(
                            old(self).tasks@,
                            i as int,
                        ).status);
                        assert(opt_at(self.tasks@, i as int).blocked_on == opt_at(
                            old(self).tasks@,
                            i as int,
                        ).blocked_on);
                        assert(opt_at(self.tasks@, i as int).trap_ret == opt_at(
                            old(self).tasks@,
                            i as int,
                        ).trap_ret);
                        assert(opt_at(self.tasks@, i as int).priority == opt_at(
                            old(self).tasks@,
                            i as int,
                        ).priority);
                        assert(opt_at(self.tasks@, i as int).tid == opt_at(
                            old(self).tasks@,
                            i as int,
                        ).tid);
                    } else {
                        assert(self.tasks@[i as int] is None);
                    }
                }
                i += 1;
            }
        }
        proof {
            assert(self.semaphores@ =~= old(self).semaphores@.update(sem_id as int, None::<
                SemState,
            >));
            lemma_sync_sem_clear(
                old(self).tasks@,
                self.tasks@,
                self.mutexes@,
                old(self).semaphores@,
                self.semaphores@,
                self.condvars@,
                sem_id as int,
            );
        }
        0
    }
}

/// Relates a process before and after task `tid` suspends on condition
/// variable `id`: the task blocks and joins the condition variable's wait
/// queue; nothing else changes.
pub open spec fn condvar_block_post(a: ProcessState, b: ProcessState, tid: int, id: int) -> bool {
    &&& b.tasks@.len() == a.tasks@.len()
    &&& forall|i: int| 0 <= i < a.tasks@.len() && i != tid ==> b.tasks@[i] == a.tasks@[i]
    &&& b.live(tid)
    &&& b.task_at(tid).mutex_allocation == a.task_at(tid).mutex_allocation
    &&& b.task_at(tid).mutex_need == a.task_at(tid).mutex_need
    &&& b.task_at(tid).sem_allocation == a.task_at(tid).sem_allocation
    &&& b.task_at(tid).sem_need == a.task_at(tid).sem_need
    &&& b.task_at(tid).status == TaskStatus::Blocked
    &&& b.task_at(tid).blocked_on == Some(BlockReason::OnCondvar(id as usize))
    &&& b.task_at(tid).trap_ret == a.task_at(tid).trap_ret
    &&& b.task_at(tid).priority == a.task_at(tid).priority
    &&& b.task_at(tid).tid == a.task_at(tid).tid
    &&& b.condvars@.len() == a.condvars@.len()
    &&& forall|j: int| 0 <= j < a.condvars@.len() && j != id ==> b.condvars@[j] == a.condvars@[j]
    &&& b.condvar_live(id)
    &&& b.condvar_at(id).wait_queue@ == a.condvar_at(id).wait_queue@.push(tid as usize)
    &&& b.mutexes == a.mutexes
    &&& b.semaphores == a.semaphores
    &&& same_but_sync(a, b)
}

/// Relates a process before and after a signal on condition variable
/// `id`: when tasks wait on it the first of them wakes, ready, with a
/// zero syscall return value; otherwise nothing changes.
pub open spec fn condvar_wake_post(a: ProcessState, b: ProcessState, id: int) -> bool {
    if a.condvar_at(id).wait_queue@.len() == 0 {
        b == a
    } else {
        let w = a.condvar_at(id).wait_queue@[0] as int;
        &&& b.tasks@.len() == a.tasks@.len()
        &&& forall|i: int| 0 <= i < a.tasks@.len() && i != w ==> b.tasks@[i] == a.tasks@[i]
        &&& b.live(w)
        &&& b.task_at(w).mutex_allocation == a.task_at(w).mutex_allocation
        &&& b.task_at(w).mutex_need == a.task_at(w).mutex_need
        &&& b.task_at(w).sem_allocation == a.task_at(w).sem_allocation
        &&& b.task_at(w).sem_need == a.task_at(w).sem_need
        &&& b.task_at(w).status == TaskStatus::Ready
        &&& b.task_at(w).blocked_on is None
        &&& b.task_at(w).trap_ret == 0
        &&& b.task_at(w).priority == a.task_at(w).priority
        &&& b.task_at(w).tid == a.task_at(w).tid
        &&& b.condvars@.len() == a.condvars@.len()
        &&& forall|j: int|
            0 <= j < a.condvars@.len() && j != id ==> b.condvars@[j] == a.condvars@[j]
        &&& b.condvar_live(id)
        &&& b.condvar_at(id).wait_queue@ == a.condvar_at(id).wait_queue@.subrange(
            1,
            a.condvar_at(id).wait_queue@.len() as int,
        )
        &&& b.mutexes == a.mutexes
        &&& b.semaphores == a.semaphores
        &&& same_but_sync(a, b)
    }
}

/// Suspending on a condition variable preserves the invariants.
proof fn lemma_sync_condvar_block(a: ProcessState, b: ProcessState, tid: int, id: int)
    requires
        a.wf(),
        !a.zombie,
        a.runnable(tid),
        a.task_at(tid).blocked_on is None,
        a.condvar_live(id),
        condvar_block_post(a, b, tid, id),
    ensures
        tasks_ok(b.tasks@),
        sync_ok(b.tasks@, b.mutexes@, b.semaphores@, b.condvars@),
{
    let t0 = a.tasks@;
    let t1 = b.tasks@;
    let c0 = a.condvars@;
    let c1 = b.condvars@;
    assert(a.condvars.len() as int == c0.len());
    assert forall|i: int| opt_live(t1, i) implies (#[trigger] opt_at(t1, i)).wf() && opt_at(
        t1,
        i,
    ).tid == i by {
        if i != tid {
            assert(opt_at(t1, i) == opt_at(t0, i));
        }
        assert(opt_at(t0, i).wf() && opt_at(t0, i).tid == i);
    }
    assert forall|i: int, j: int|
        opt_live(t1, i) && 0 <= j < RESOURCE_SLOTS implies (#[trigger] opt_at(
        t1,
        i,
    ).mutex_allocation@[j]) == (if mutex_holder_in(b.mutexes@, j) == Some(i as usize) {
        1usize
    } else {
        0usize
    }) by {
        assert(opt_at(t0, i).mutex_allocation@[j] == (if mutex_holder_in(a.mutexes@, j) == Some(
            i as usize,
        ) {
            1usize
        } else {
            0usize
        }));
        if i != tid {
            assert(opt_at(t1, i) == opt_at(t0, i));
        }
    }
    assert forall|i: int, j: int|
        opt_live(t1, i) && 0 <= j < RESOURCE_SLOTS implies (#[trigger] opt_at(
        t1,
        i,
    ).mutex_need@[j]) == (if blocked_on_mutex(opt_at(t1, i), j) {
        1usize
    } else {
        0usize
    }) by {
        assert(opt_at(t0, i).mutex_need@[j] == (if blocked_on_mutex(opt_at(t0, i), j) {
            1usize
        } else {
            0usize
        }));
        if i != tid {
            assert(opt_at(t1, i) == opt_at(t0, i));
        } else {
            assert(!blocked_on_mutex(opt_at(t0, tid), j));
            assert(!blocked_on_mutex(opt_at(t1, tid), j));
        }
    }
    assert forall|i: int, j: int|
        opt_live(t1, i) && 0 <= j < RESOURCE_SLOTS implies (#[trigger] opt_at(t1, i).sem_need@[j])
        == (if blocked_on_sem(opt_at(t1, i), j) {
        1usize
    } else {
        0usize
    }) by {
        assert(opt_at(t0, i).sem_need@[j] == (if blocked_on_sem(opt_at(t0, i), j) {
            1usize
        } else {
            0usize
        }));
        if i != tid {
            assert(opt_at(t1, i) == opt_at(t0, i));
        } else {
            assert(!blocked_on_sem(opt_at(t0, tid), j));
            assert(!blocked_on_sem(opt_at(t1, tid), j));
        }
    }
    assert forall|i: int| opt_live(t1, i) implies ((#[trigger] opt_at(t1, i)).status
        == TaskStatus::Blocked <==> opt_at(t1, i).blocked_on is Some) by {
        if i != tid {
            assert(opt_at(t1, i) == opt_at(t0, i));
        }
        assert(opt_at(t0, i).status == TaskStatus::Blocked <==> opt_at(t0, i).blocked_on is Some);
    }
    assert forall|i: int| opt_live(t1, i) implies match (#[trigger] opt_at(t1, i)).blocked_on {
        Some(BlockReason::OnMutex(mj)) => mj < RESOURCE_SLOTS && opt_live(b.mutexes@, mj as int)
            && opt_at(b.mutexes@, mj as int).locked && in_queue(
            opt_at(b.mutexes@, mj as int).wait_queue@,
            i,
        ),
        Some(BlockReason::OnSemaphore(sj)) => sj < RESOURCE_SLOTS && opt_live(
            b.semaphores@,
            sj as int,
        ) && in_queue(opt_at(b.semaphores@, sj as int).wait_queue@, i),
        Some(BlockReason::OnCondvar(cj)) => opt_live(c1, cj as int) && in_queue(
            opt_at(c1, cj as int).wait_queue@,
            i,
        ),
        Some(BlockReason::Sleeping(_)) => true,
        None => true,
    } by {
        if i == tid {
            let q1 = opt_at(c1, id).wait_queue@;
            assert(q1[q1.len() - 1] == tid as usize);
            assert(in_queue(q1, tid));
        } else {
            assert(opt_at(t1, i) == opt_at(t0, i));
            match opt_at(t0, i).blocked_on {
                Some(BlockReason::OnMutex(mj)) => {
                    assert(opt_live(a.mutexes@, mj as int) && opt_at(a.mutexes@, mj as int).locked
                        && in_queue(opt_at(a.mutexes@, mj as int).wait_queue@, i));
                },
                Some(BlockReason::OnSemaphore(sj)) => {
                    assert(opt_live(a.semaphores@, sj as int) && in_queue(
                        opt_at(a.semaphores@, sj as int).wait_queue@,
                        i,
                    ));
                },
                Some(BlockReason::OnCondvar(cj)) => {
                    assert(opt_live(c0, cj as int) && in_queue(
                        opt_at(c0, cj as int).wait_queue@,
                        i,
                    ));
                    if cj == id {
                        let q0 = opt_at(c0, id).wait_queue@;
                        let q1 = opt_at(c1, id).wait_queue@;
                        let k: int = choose|k: int| 0 <= k < q0.len() && q0[k] == i;
                        assert(q1[k] == i);
                        assert(in_queue(q1, i));
                    } else {
                        assert(opt_at(c1, cj as int) == opt_at(c0, cj as int));
                    }
                },
                _ => {},
            }
        }
    }
    assert forall|j: int| #![trigger opt_at(b.mutexes@, j)] opt_live(b.mutexes@, j) implies {
        &&& (opt_at(b.mutexes@, j).holder is Some ==> opt_at(b.mutexes@, j).locked)
        &&& (opt_at(b.mutexes@, j).holder is Some ==> opt_live(
            t1,
            opt_at(b.mutexes@, j).holder->0 as int,
        ))
        &&& (j >= RESOURCE_SLOTS ==> !opt_at(b.mutexes@, j).locked && opt_at(
            b.mutexes@,
            j,
        ).wait_queue@.len() == 0)
        &&& queue_ok(t1, opt_at(b.mutexes@, j).wait_queue@, BlockReason::OnMutex(j as usize))
    } by {
        assert(opt_live(a.mutexes@, j) && opt_at(b.mutexes@, j) == opt_at(a.mutexes@, j));
        lemma_queue_ok_nonmember(
            t0,
            t1,
            opt_at(a.mutexes@, j).wait_queue@,
            BlockReason::OnMutex(j as usize),
            tid,
        );
    }
    assert forall|j: int| #![trigger opt_at(b.semaphores@, j)] opt_live(b.semaphores@, j) implies {
        &&& (opt_at(b.semaphores@, j).count > 0 ==> opt_at(b.semaphores@, j).wait_queue@.len()
            == 0)
        &&& (j >= RESOURCE_SLOTS ==> opt_at(b.semaphores@, j).wait_queue@.len() == 0)
        &&& queue_ok(t1, opt_at(b.semaphores@, j).wait_queue@, BlockReason::OnSemaphore(j as usize))
    } by {
        assert(opt_live(a.semaphores@, j) && opt_at(b.semaphores@, j) == opt_at(a.semaphores@, j));
        lemma_queue_ok_nonmember(
            t0,
            t1,
            opt_at(a.semaphores@, j).wait_queue@,
            BlockReason::OnSemaphore(j as usize),
            tid,
        );
    }
    assert forall|j: int| #![trigger opt_at(c1, j)] opt_live(c1, j) implies queue_ok(
        t1,
        opt_at(c1, j).wait_queue@,
        BlockReason::OnCondvar(j as usize),
    ) by {
        if j == id {
            let q0 = opt_at(c0, id).wait_queue@;
            let q1 = opt_at(c1, id).wait_queue@;
            assert(queue_ok(t0, q0, BlockReason::OnCondvar(id as usize)));
            assert forall|k: int|
                0 <= k < q1.len() implies opt_live(t1, #[trigger] q1[k] as int) && opt_at(
                t1,
                q1[k] as int,
            ).blocked_on == Some(BlockReason::OnCondvar(id as usize)) by {
                if k < q0.len() {
                    assert(q1[k] == q0[k]);
                    assert(opt_at(t0, q0[k] as int).blocked_on == Some(
                        BlockReason::OnCondvar(id as usize),
                    ));
                    assert(q0[k] != tid);
                } else {
                    assert(q1[k] == tid as usize);
                }
            }
            assert forall|k1: int, k2: int| 0 <= k1 < k2 < q1.len() implies q1[k1] != q1[k2] by {
                if k2 == q1.len() - 1 {
                    assert(q1[k1] == q0[k1]);
                    assert(opt_at(t0, q0[k1] as int).blocked_on == Some(
                        BlockReason::OnCondvar(id as usize),
                    ));
                    assert(q0[k1] != tid);
                } else {
                    assert(q1[k1] == q0[k1] && q1[k2] == q0[k2]);
                }
            }
        } else {
            assert(opt_live(c0, j) ==> opt_at(c1, j) == opt_at(c0, j));
            if opt_live(c1, j) {
                assert(opt_live(c0, j));
                lemma_queue_ok_nonmember(
                    t0,
                    t1,
                    opt_at(c0, j).wait_queue@,
                    BlockReason::OnCondvar(j as usize),
                    tid,
                );
            }
        }
    }
}

/// Waking the first waiter of a condition variable preserves the
/// invariants.
proof fn lemma_sync_condvar_wake(a: ProcessState, b: ProcessState, id: int)
    requires
        a.wf(),
        !a.zombie,
        a.condvar_live(id),
        a.condvar_at(id).wait_queue@.len() > 0,
        condvar_wake_post(a, b, id),
    ensures
        tasks_ok(b.tasks@),
        sync_ok(b.tasks@, b.mutexes@, b.semaphores@, b.condvars@),
{
    let t0 = a.tasks@;
    let t1 = b.tasks@;
    let c0 = a.condvars@;
    let c1 = b.condvars@;
    let q0 = a.condvar_at(id).wait_queue@;
    let w: int = q0[0] as int;
    assert(a.condvars.len() as int == c0.len());
    assert(opt_live(t0, w) && opt_at(t0, w).blocked_on == Some(
        BlockReason::OnCondvar(id as usize),
    ));
    assert forall|i: int| opt_live(t1, i) implies (#[trigger] opt_at(t1, i)).wf() && opt_at(
        t1,
        i,
    ).tid == i by {
        if i != w {
            assert(opt_at(t1, i) == opt_at(t0, i));
        }
        assert(opt_at(t0, i).wf() && opt_at(t0, i).tid == i);
    }
    assert forall|i: int, j: int|
        opt_live(t1, i) && 0 <= j < RESOURCE_SLOTS implies (#[trigger] opt_at(
        t1,
        i,
    ).mutex_allocation@[j]) == (if mutex_holder_in(b.mutexes@, j) == Some(i as usize) {
        1usize
    } else {
        0usize
    }) by {
        assert(opt_at(t0, i).mutex_allocation@[j] == (if mutex_holder_in(a.mutexes@, j) == Some(
            i as usize,
        ) {
            1usize
        } else {
            0usize
        }));
        if i != w {
            assert(opt_at(t1, i) == opt_at(t0, i));
        }
    }
    assert forall|i: int, j: int|
        opt_live(t1, i) && 0 <= j < RESOURCE_SLOTS implies (#[trigger] opt_at(
        t1,
        i,
    ).mutex_need@[j]) == (if blocked_on_mutex(opt_at(t1, i), j) {
        1usize
    } else {
        0usize
    }) by {
        assert(opt_at(t0, i).mutex_need@[j] == (if blocked_on_mutex(opt_at(t0, i), j) {
            1usize
        } else {
            0usize
        }));
        if i != w {
            assert(opt_at(t1, i) == opt_at(t0, i));
        } else {
            assert(!blocked_on_mutex(opt_at(t0, w), j));
            assert(!blocked_on_mutex(opt_at(t1, w), j));
        }
    }
    assert forall|i: int, j: int|
        opt_live(t1, i) && 0 <= j < RESOURCE_SLOTS implies (#[trigger] opt_at(t1, i).sem_need@[j])
        == (if blocked_on_sem(opt_at(t1, i), j) {
        1usize
    } else {
        0usize
    }) by {
        assert(opt_at(t0, i).sem_need@[j] == (if blocked_on_sem(opt_at(t0, i), j) {
            1usize
        } else {
            0usize
        }));
        if i != w {
            assert(opt_at(t1, i) == opt_at(t0, i));
        } else {
            assert(!blocked_on_sem(opt_at(t0, w), j));
            assert(!blocked_on_sem(opt_at(t1, w), j));
        }
    }
    assert forall|i: int| opt_live(t1, i) implies ((#[trigger] opt_at(t1, i)).status
        == TaskStatus::Blocked <==> opt_at(t1, i).blocked_on is Some) by {
        if i != w {
            assert(opt_at(t1, i) == opt_at(t0, i));
        }
        assert(opt_at(t0, i).status == TaskStatus::Blocked <==> opt_at(t0, i).blocked_on is Some);
    }
    assert forall|i: int| opt_live(t1, i) implies match (#[trigger] opt_at(t1, i)).blocked_on {
        Some(BlockReason::OnMutex(mj)) => mj < RESOURCE_SLOTS && opt_live(b.mutexes@, mj as int)
            && opt_at(b.mutexes@, mj as int).locked && in_queue(
            opt_at(b.mutexes@, mj as int).wait_queue@,
            i,
        ),
        Some(BlockReason::OnSemaphore(sj)) => sj < RESOURCE_SLOTS && opt_live(
            b.semaphores@,
            sj as int,
        ) && in_queue(opt_at(b.semaphores@, sj as int).wait_queue@, i),
        Some(BlockReason::OnCondvar(cj)) => opt_live(c1, cj as int) && in_queue(
            opt_at(c1, cj as int).wait_queue@,
            i,
        ),
        Some(BlockReason::Sleeping(_)) => true,
        None => true,
    } by {
        if i != w {
            assert(opt_at(t1, i) == opt_at(t0, i));
            match opt_at(t0, i).blocked_on {
                Some(BlockReason::OnMutex(mj)) => {
                    assert(opt_live(a.mutexes@, mj as int) && opt_at(a.mutexes@, mj as int).locked
                        && in_queue(opt_at(a.mutexes@, mj as int).wait_queue@, i));
                },
                Some(BlockReason::OnSemaphore(sj)) => {
                    assert(opt_live(a.semaphores@, sj as int) && in_queue(
                        opt_at(a.semaphores@, sj as int).wait_queue@,
                        i,
                    ));
                },
                Some(BlockReason::OnCondvar(cj)) => {
                    assert(opt_live(c0, cj as int) && in_queue(
                        opt_at(c0, cj as int).wait_queue@,
                        i,
                    ));
                    if cj == id {
                        let q1 = opt_at(c1, id).wait_queue@;
                        let k: int = choose|k: int| 0 <= k < q0.len() && q0[k] == i;
                        assert(i != w);
                        assert(k != 0);
                        assert(q1[k - 1] == i);
                        assert(in_queue(q1, i));
                    } else {
                        assert(opt_at(c1, cj as int) == opt_at(c0, cj as int));
                    }
                },
                _ => {},
            }
        }
    }
    assert forall|j: int| #![trigger opt_at(b.mutexes@, j)] opt_live(b.mutexes@, j) implies {
        &&& (opt_at(b.mutexes@, j).holder is Some ==> opt_at(b.mutexes@, j).locked)
        &&& (opt_at(b.mutexes@, j).holder is Some ==> opt_live(
            t1,
            opt_at(b.mutexes@, j).holder->0 as int,
        ))
        &&& (j >= RESOURCE_SLOTS ==> !opt_at(b.mutexes@, j).locked && opt_at(
            b.mutexes@,
            j,
        ).wait_queue@.len() == 0)
        &&& queue_ok(t1, opt_at(b.mutexes@, j).wait_queue@, BlockReason::OnMutex(j as usize))
    } by {
        assert(opt_live(a.mutexes@, j) && opt_at(b.mutexes@, j) == opt_at(a.mutexes@, j));
        lemma_queue_ok_nonmember(
            t0,
            t1,
            opt_at(a.mutexes@, j).wait_queue@,
            BlockReason::OnMutex(j as usize),
            w,
        );
    }
    assert forall|j: int| #![trigger opt_at(b.semaphores@, j)] opt_live(b.semaphores@, j) implies {
        &&& (opt_at(b.semaphores@, j).count > 0 ==> opt_at(b.semaphores@, j).wait_queue@.len()
            == 0)
        &&& (j >= RESOURCE_SLOTS ==> opt_at(b.semaphores@, j).wait_queue@.len() == 0)
        &&& queue_ok(t1, opt_at(b.semaphores@, j).wait_queue@, BlockReason::OnSemaphore(j as usize))
    } by {
        assert(opt_live(a.semaphores@, j) && opt_at(b.semaphores@, j) == opt_at(a.semaphores@, j));
        lemma_queue_ok_nonmember(
            t0,
            t1,
            opt_at(a.semaphores@, j).wait_queue@,
            BlockReason::OnSemaphore(j as usize),
            w,
        );
    }
    assert forall|j: int| #![trigger opt_at(c1, j)] opt_live(c1, j) implies queue_ok(
        t1,
        opt_at(c1, j).wait_queue@,
        BlockReason::OnCondvar(j as usize),
    ) by {
        if j == id {
            let q1 = opt_at(c1, id).wait_queue@;
            assert forall|k: int|
                0 <= k < q1.len() implies opt_live(t1, #[trigger] q1[k] as int) && opt_at(
                t1,
                q1[k] as int,
            ).blocked_on == Some(BlockReason::OnCondvar(id as usize)) by {
                assert(q1[k] == q0[k + 1]);
                assert(opt_live(t0, q0[k + 1] as int) && opt_at(t0, q0[k + 1] as int).blocked_on
                    == Some(BlockReason::OnCondvar(id as usize)));
                assert(q0[k + 1] != q0[0]);
            }
            assert forall|k1: int, k2: int| 0 <= k1 < k2 < q1.len() implies q1[k1] != q1[k2] by {
                assert(q1[k1] == q0[k1 + 1] && q1[k2] == q0[k2 + 1]);
            }
        } else {
            assert(opt_live(c0, j) ==> opt_at(c1, j) == opt_at(c0, j));
            if opt_live(c1, j) {
                assert(opt_live(c0, j));
                assert(a.condvars.len() as int == c0.len());
                assert(j as usize != id as usize);
                assert(opt_at(t0, w).blocked_on != Some(BlockReason::OnCondvar(j as usize)));
                lemma_queue_ok_nonmember(
                    t0,
                    t1,
                    opt_at(c0, j).wait_queue@,
                    BlockReason::OnCondvar(j as usize),
                    w,
                );
            }
        }
    }
}

impl ProcessState {
    /// Signals condition variable `condvar_id`: the first waiting task, if
    /// any, wakes ready with a zero syscall return value. An out-of-range
    /// or empty slot is rejected with `-1`. The signaler is not named, so
    /// a signal raised in another process sharing the handle is delivered
    /// by calling this on the waiting process.
    pub fn sys_condvar_signal(&mut self, condvar_id: usize) -> (r: isize)
        requires
            old(self).wf(),
            !old(self).zombie,
        ensures
            final(self).wf(),
            r == 0 || r == -1,
            r == -1 <==> !old(self).condvar_live(condvar_id as int),
            r == -1 ==> *final(self) == *old(self),
            r == 0 ==> condvar_wake_post(*old(self), *final(self), condvar_id as int),
    {
        if condvar_id >= self.condvars.len() {
            return -1;
        }
        let qlen: usize = match &self.condvars[condvar_id] {
            Some(c) => c.wait_queue.len(),
            None => {
                return -1;
            },
        };
        if qlen == 0 {
            return 0;
        }
        let w: usize = match &self.condvars[condvar_id] {
            Some(c) => c.wait_queue[0],
            None => 0,
        };
        proof {
            let q0 = old(self).condvar_at(condvar_id as int).wait_queue@;
            assert(opt_live(old(self).tasks@, q0[0] as int) && opt_at(
                old(self).tasks@,
                q0[0] as int,
            ).blocked_on == Some(BlockReason::OnCondvar(condvar_id)));
        }
        match &mut self.condvars[condvar_id] {
            Some(c) => {
                let _front: usize = c.wait_queue.remove(0);
            },
            None => {},
        }
        match &mut self.tasks[w] {
            Some(tc) => {
                tc.status = TaskStatus::Ready;
                tc.blocked_on = None;
                tc.trap_ret = 0;
            },
            None => {},
        }
        proof {
            let a = *old(self);
            let q0 = a.condvar_at(condvar_id as int).wait_queue@;
            assert(self.condvar_at(condvar_id as int).wait_queue@ =~= q0.subrange(
                1,
                q0.len() as int,
            ));
            assert(condvar_wake_post(a, *self, condvar_id as int));
            lemma_sync_condvar_wake(a, *self, condvar_id as int);
        }
        0
    }

    /// Atomically releases mutex `mutex_id` (waking its next waiter if
    /// any) and suspends task `tid` on condition variable `condvar_id`.
    /// Waking later, by a signal, does not re-acquire the mutex; that is
    /// the caller's business. Out-of-range or empty slots are rejected
    /// with `-1` before anything changes.
    pub fn sys_condvar_wait(&mut self, tid: usize, condvar_id: usize, mutex_id: usize) -> (r:
        SysOutcome)
        requires
            old(self).wf(),
            old(self).runnable(tid as int),
            old(self).mutex_usable(mutex_id as int) ==> old(self).mutex_holder(mutex_id as int)
                == Some(tid),
        ensures
            final(self).wf(),
            !(old(self).condvar_live(condvar_id as int) && old(self).mutex_usable(
                mutex_id as int,
            )) ==> r == SysOutcome::Done(-1isize) && *final(self) == *old(self),
            old(self).condvar_live(condvar_id as int) && old(self).mutex_usable(mutex_id as int)
                ==> r == SysOutcome::Suspend && exists|mid: ProcessState|
                {
                    &&& #[trigger] mutex_release_post(*old(self), mid, tid as int, mutex_id as int)
                    &&& condvar_block_post(mid, *final(self), tid as int, condvar_id as int)
                },
    {
        proof {
            lemma_runnable_not_zombie(*self, tid as int);
        }
        if condvar_id >= self.condvars.len() {
            return SysOutcome::Done(-1);
        }
        let cv_ok: bool = match &self.condvars[condvar_id] {
            Some(_) => true,
            None => false,
        };
        if !cv_ok {
            return SysOutcome::Done(-1);
        }
        if mutex_id >= RESOURCE_SLOTS || mutex_id >= self.mutexes.len() {
            return SysOutcome::Done(-1);
        }
        let m_ok: bool = match &self.mutexes[mutex_id] {
            Some(_) => true,
            None => false,
        };
        if !m_ok {
            return SysOutcome::Done(-1);
        }
        let unlock_ret: isize = self.sys_mutex_unlock(tid, mutex_id);
        let ghost mid: ProcessState = *self;
        proof {
            assert(mid.runnable(tid as int));
            assert(mid.task_at(tid as int).blocked_on is None);
            assert(mid.condvar_live(condvar_id as int));
            assert(!mid.zombie);
            assert(mid.wf());
            assert(mid.task_at(tid as int).wf());
        }
        match &mut self.tasks[tid] {
            Some(tc) => {
                tc.status = TaskStatus::Blocked;
                tc.blocked_on = Some(BlockReason::OnCondvar(condvar_id));
            },
            None => {},
        }
        match &mut self.condvars[condvar_id] {
            Some(c) => {
                c.wait_queue.push(tid);
            },
            None => {},
        }
        proof {
            assert(condvar_block_post(mid, *self, tid as int, condvar_id as int));
            lemma_sync_condvar_block(mid, *self, tid as int, condvar_id as int);
        }
        SysOutcome::Suspend
    }

    /// Suspends task `tid` until the timer wakes it at or after the
    /// millisecond deadline `expire_ms` (computed by the caller from the
    /// current time and the requested duration).
    pub fn sys_sleep(&mut self, tid: usize, expire_ms: usize) -> (r: SysOutcome)
        requires
            old(self).wf(),
            old(self).runnable(tid as int),
        ensures
            final(self).wf(),
            r == SysOutcome::Suspend,
            final(self).tasks@.len() == old(self).tasks@.len(),
            forall|i: int|
                0 <= i < old(self).tasks@.len() && i != tid ==> final(self).tasks@[i] == old(
                    self,
                ).tasks@[i],
            final(self).live(tid as int),
            final(self).task_at(tid as int).status == TaskStatus::Blocked,
            final(self).task_at(tid as int).blocked_on == Some(BlockReason::Sleeping(expire_ms)),
            final(self).task_at(tid as int).mutex_allocation == old(self).task_at(
                tid as int,
            ).mutex_allocation,
            final(self).task_at(tid as int).mutex_need == old(self).task_at(
                tid as int,
            ).mutex_need,
            final(self).task_at(tid as int).sem_allocation == old(self).task_at(
                tid as int,
            ).sem_allocation,
            final(self).task_at(tid as int).sem_need == old(self).task_at(tid as int).sem_need,
            final(self).task_at(tid as int).trap_ret == old(self).task_at(tid as int).trap_ret,
            final(self).task_at(tid as int).priority == old(self).task_at(tid as int).priority,
            same_but_tasks(*old(self), *final(self)),
    {
        proof {
            lemma_runnable_not_zombie(*self, tid as int);
        }
        match &mut self.tasks[tid] {
            Some(tc) => {
                tc.status = TaskStatus::Blocked;
                tc.blocked_on = Some(BlockReason::Sleeping(expire_ms));
            },
            None => {},
        }
        proof {
            crate::process::lemma_unblocked_update_wf(
                old(self).tasks@,
                self.tasks@,
                *old(self),
                tid as int,
            );
        }
        SysOutcome::Suspend
    }

    /// Timer delivery: wakes task `tid` when it is sleeping and its
    /// deadline has passed (`now_ms` is the timer's current millisecond
    /// reading); otherwise reports `-1` and changes nothing.
    pub fn timer_wake(&mut self, tid: usize, now_ms: usize) -> (r: isize)
        requires
            old(self).wf(),
        ensures
            final(self).wf(),
            r == 0 || r == -1,
            r == 0 <==> old(self).live(tid as int) && old(self).task_at(tid as int).status
                == TaskStatus::Blocked && (exists|d: usize|
                old(self).task_at(tid as int).blocked_on == Some(BlockReason::Sleeping(d)) && d
                    <= now_ms),
            r == -1 ==> *final(self) == *old(self),
            r == 0 ==> {
                &&& final(self).tasks@.len() == old(self).tasks@.len()
                &&& forall|i: int|
                    0 <= i < old(self).tasks@.len() && i != tid ==> final(self).tasks@[i] == old(
                        self,
                    ).tasks@[i]
                &&& final(self).live(tid as int)
                &&& final(self).task_at(tid as int).status == TaskStatus::Ready
                &&& final(self).task_at(tid as int).blocked_on is None
                &&& final(self).task_at(tid as int).trap_ret == 0
                &&& final(self).task_at(tid as int).mutex_allocation == old(self).task_at(
                    tid as int,
                ).mutex_allocation
                &&& final(self).task_at(tid as int).sem_allocation == old(self).task_at(
                    tid as int,
                ).sem_allocation
                &&& same_but_tasks(*old(self), *final(self))
            },
    {
        if tid >= self.tasks.len() {
            return -1;
        }
        let due: bool = match &self.tasks[tid] {
            Some(tc) => matches!(tc.status, TaskStatus::Blocked) && match tc.blocked_on {
                Some(BlockReason::Sleeping(d)) => d <= now_ms,
                _ => false,
            },
            None => false,
        };
        if !due {
            return -1;
        }
        proof {
            match opt_at(self.tasks@, tid as int).blocked_on {
                Some(BlockReason::Sleeping(d)) => {
                    assert(opt_at(self.tasks@, tid as int).blocked_on == Some(
                        BlockReason::Sleeping(d),
                    ) && d <= now_ms);
                },
                _ => {},
            }
            assert(!self.zombie) by {
                if self.zombie {
                    assert(opt_at(self.tasks@, tid as int).status == TaskStatus::Zombie);
                }
            }
        }
        match &mut self.tasks[tid] {
            Some(tc) => {
                tc.status = TaskStatus::Ready;
                tc.blocked_on = None;
                tc.trap_ret = 0;
            },
            None => {},
        }
        proof {
            crate::process::lemma_unblocked_update_wf(
                old(self).tasks@,
                self.tasks@,
                *old(self),
                tid as int,
            );
        }
        0
    }
}

proof fn lemma_first_free_prefix<T>(s: Seq<Option<T>>, k: int, j: int)
    requires
        0 <= k <= j < first_free_index(s, k),
    ensures
        s[j] is Some,
    decreases j - k,
{
    if j == k {
    } else {
        lemma_first_free_prefix(s, k + 1, j);
    }
}

proof fn lemma_first_free_at<T>(s: Seq<Option<T>>, id: int, k: int)
    requires
        0 <= k <= id < s.len(),
        s[id] is None,
        forall|j: int| k <= j < id ==> s[j] is Some,
    ensures
        first_free_index(s, k) == id,
    decreases id - k,
{
    if k < id {
        lemma_first_free_at(s, id, k + 1);
    }
}

/// Law: when the first-fit allocator hands out a mutex slot, that slot is
/// freed again, and no lower slot has been freed meanwhile, the next
/// creation reuses exactly the freed slot id. The tables are those of
/// `sys_mutex_create`'s and `mutex_free`'s contracts: `m0` before the
/// first creation, `m1` after it, `m2` after the free.
pub proof fn lemma_mutex_slot_reuse(
    m0: Seq<Option<MutexState>>,
    m1: Seq<Option<MutexState>>,
    m2: Seq<Option<MutexState>>,
    id: int,
)
    requires
        id == first_free_index(m0, 0),
        m1.len() == (if id < m0.len() {
            m0.len() as int
        } else {
            m0.len() + 1int
        }),
        forall|j: int| 0 <= j < m0.len() && j != id ==> m1[j] == m0[j],
        opt_live(m1, id),
        m2 == m1.update(id, None::<MutexState>),
    ensures
        first_free_index(m2, 0) == id,
{
    assert forall|j: int| 0 <= j < id implies m2[j] is Some by {
        lemma_first_free_prefix(m0, 0, j);
        assert(m0[j] is Some);
        assert(m2[j] == m0[j]);
    }
    lemma_first_free_at(m2, id, 0);
}

/// Law: a lock/unlock pair on a mutex without other waiters leaves the
/// locking task's allocation vector exactly as before the pair, and the
/// mutex unlocked — free to be taken by another task at once. The states
/// are those of `sys_mutex_lock`'s and `sys_mutex_unlock`'s contracts:
/// `p0` before the acquiring lock, `p1` between the pair, `p2` after the
/// unlock.
pub proof fn lemma_lock_unlock_net_zero(
    p0: ProcessState,
    p1: ProcessState,
    p2: ProcessState,
    tid: int,
    id: int,
)
    requires
        p0.wf(),
        !p0.zombie,
        p0.runnable(tid),
        p0.mutex_usable(id),
        !p0.mutex_at(id).locked,
        mutex_acquire_post(p0, p1, tid, id),
        mutex_release_post(p1, p2, tid, id),
    ensures
        p2.task_at(tid).mutex_allocation@ == p0.task_at(tid).mutex_allocation@,
        p2.mutex_usable(id),
        !p2.mutex_at(id).locked,
        p2.mutex_at(id).holder is None,
        p2.mutex_at(id).wait_queue@.len() == 0,
{
    assert(p0.mutex_at(id).wait_queue@.len() == 0) by {
        let q = p0.mutex_at(id).wait_queue@;
        if q.len() > 0 {
            let w: int = q[0] as int;
            assert(opt_live(p0.tasks@, w) && opt_at(p0.tasks@, w).blocked_on == Some(
                BlockReason::OnMutex(id as usize),
            ));
            assert(opt_at(p0.mutexes@, id).locked);
        }
    }
    assert(p1.mutex_at(id).wait_queue@.len() == 0);
    assert(p0.task_at(tid).mutex_allocation@[id] == 0) by {
        assert(p0.live(tid));
        assert(opt_at(p0.tasks@, tid).mutex_allocation@[id] == (if mutex_holder_in(
            p0.mutexes@,
            id,
        ) == Some(tid as usize) {
            1usize
        } else {
            0usize
        }));
        assert(mutex_holder_in(p0.mutexes@, id) is None);
    }
    assert(p2.task_at(tid).mutex_allocation@ =~= p0.task_at(tid).mutex_allocation@) by {
        assert(p0.task_at(tid).wf());
        assert(p1.task_at(tid).mutex_allocation@ == p0.task_at(tid).mutex_allocation@.update(
            id,
            1usize,
        ));
        assert(p2.task_at(tid).mutex_allocation@ == p1.task_at(tid).mutex_allocation@.update(
            id,
            0usize,
        ));
    }
}

/// Relates a process before and after the release of mutex `id` reaches
/// it from outside — the holding task belongs to another process sharing
/// the handle, so no local accounting is given back. The mutex becomes
/// free (no local waiters) or ownership passes to the first local
/// waiter, which wakes with its request accounted as held and a zero
/// syscall return value.
pub open spec fn mutex_external_release_post(a: ProcessState, b: ProcessState, id: int) -> bool {
    &&& b.tasks@.len() == a.tasks@.len()
    &&& b.mutexes@.len() == a.mutexes@.len()
    &&& forall|j: int| 0 <= j < a.mutexes@.len() && j != id ==> b.mutexes@[j] == a.mutexes@[j]
    &&& b.mutex_live(id)
    &&& b.mutex_at(id).blocking == a.mutex_at(id).blocking
    &&& b.semaphores == a.semaphores
    &&& b.condvars == a.condvars
    &&& same_but_sync(a, b)
    &&& if a.mutex_at(id).wait_queue@.len() == 0 {
        &&& forall|i: int| 0 <= i < a.tasks@.len() ==> b.tasks@[i] == a.tasks@[i]
        &&& !b.mutex_at(id).locked
        &&& b.mutex_at(id).holder is None
        &&& b.mutex_at(id).wait_queue@.len() == 0
    } else {
        let w = a.mutex_at(id).wait_queue@[0] as int;
        &&& forall|i: int| 0 <= i < a.tasks@.len() && i != w ==> b.tasks@[i] == a.tasks@[i]
        &&& b.live(w)
        &&& b.task_at(w).mutex_allocation@ == a.task_at(w).mutex_allocation@.update(id, 1usize)
        &&& b.task_at(w).mutex_need@ == a.task_at(w).mutex_need@.update(id, 0usize)
        &&& b.task_at(w).sem_allocation == a.task_at(w).sem_allocation
        &&& b.task_at(w).sem_need == a.task_at(w).sem_need
        &&& b.task_at(w).status == TaskStatus::Ready
        &&& b.task_at(w).blocked_on is None
        &&& b.task_at(w).trap_ret == 0
        &&& b.task_at(w).priority == a.task_at(w).priority
        &&& b.task_at(w).tid == a.task_at(w).tid
        &&& b.mutex_at(id).locked
        &&& b.mutex_at(id).holder == Some(a.mutex_at(id).wait_queue@[0])
        &&& b.mutex_at(id).wait_queue@ == a.mutex_at(id).wait_queue@.subrange(
            1,
            a.mutex_at(id).wait_queue@.len() as int,
        )
    }
}

/// An externally delivered mutex release, handing the lock to the first
/// local waiter when one exists, preserves the invariants.
proof fn lemma_sync_external_release(a: ProcessState, b: ProcessState, id: int)
    requires
        a.wf(),
        !a.zombie,
        a.mutex_usable(id),
        a.mutex_at(id).locked,
        a.mutex_at(id).holder is None,
        mutex_external_release_post(a, b, id),
    ensures
        tasks_ok(b.tasks@),
        sync_ok(b.tasks@, b.mutexes@, b.semaphores@, b.condvars@),
{
    let t0 = a.tasks@;
    let t1 = b.tasks@;
    let m0 = a.mutexes@;
    let m1 = b.mutexes@;
    let q0 = a.mutex_at(id).wait_queue@;
    let transfer: bool = q0.len() > 0;
    let w: int = if transfer {
        q0[0] as int
    } else {
        -1
    };
    if transfer {
        assert(opt_live(t0, w) && opt_at(t0, w).blocked_on == Some(
            BlockReason::OnMutex(id as usize),
        ));
    }
    assert forall|i: int| opt_live(t1, i) implies (#[trigger] opt_at(t1, i)).wf() && opt_at(
        t1,
        i,
    ).tid == i by {
        if i != w {
            assert(opt_at(t1, i) == opt_at(t0, i));
        }
        assert(opt_at(t0, i).wf() && opt_at(t0, i).tid == i);
    }
    assert forall|i: int, j: int|
        opt_live(t1, i) && 0 <= j < RESOURCE_SLOTS implies (#[trigger] opt_at(
        t1,
        i,
    ).mutex_allocation@[j]) == (if mutex_holder_in(m1, j) == Some(i as usize) {
        1usize
    } else {
        0usize
    }) by {
        assert(opt_live(t0, i));
        assert(opt_at(t0, i).mutex_allocation@[j] == (if mutex_holder_in(m0, j) == Some(
            i as usize,
        ) {
            1usize
        } else {
            0usize
        }));
        if i != w {
            assert(opt_at(t1, i) == opt_at(t0, i));
        }
        if j != id {
            assert(mutex_holder_in(m1, j) == mutex_holder_in(m0, j));
        } else {
            assert(mutex_holder_in(m0, id) is None);
            if transfer {
                assert(mutex_holder_in(m1, id) == Some(w as usize));
            } else {
                assert(mutex_holder_in(m1, id) is None);
            }
        }
    }
    assert forall|i: int, j: int|
        opt_live(t1, i) && 0 <= j < RESOURCE_SLOTS implies (#[trigger] opt_at(
        t1,
        i,
    ).mutex_need@[j]) == (if blocked_on_mutex(opt_at(t1, i), j) {
        1usize
    } else {
        0usize
    }) by {
        assert(opt_at(t0, i).mutex_need@[j] == (if blocked_on_mutex(opt_at(t0, i), j) {
            1usize
        } else {
            0usize
        }));
        if i != w {
            assert(opt_at(t1, i) == opt_at(t0, i));
        } else {
            assert(blocked_on_mutex(opt_at(t0, w), j) <==> j == id);
            assert(!blocked_on_mutex(opt_at(t1, w), j));
        }
    }
    assert forall|i: int, j: int|
        opt_live(t1, i) && 0 <= j < RESOURCE_SLOTS implies (#[trigger] opt_at(t1, i).sem_need@[j])
        == (if blocked_on_sem(opt_at(t1, i), j) {
        1usize
    } else {
        0usize
    }) by {
        assert(opt_at(t0, i).sem_need@[j] == (if blocked_on_sem(opt_at(t0, i), j) {
            1usize
        } else {
            0usize
        }));
        if i != w {
            assert(opt_at(t1, i) == opt_at(t0, i));
        } else {
            assert(!blocked_on_sem(opt_at(t0, w), j));
            assert(!blocked_on_sem(opt_at(t1, w), j));
        }
    }
    assert forall|i: int| opt_live(t1, i) implies ((#[trigger] opt_at(t1, i)).status
        == TaskStatus::Blocked <==> opt_at(t1, i).blocked_on is Some) by {
        if i != w {
            assert(opt_at(t1, i) == opt_at(t0, i));
        }
        assert(opt_at(t0, i).status == TaskStatus::Blocked <==> opt_at(t0, i).blocked_on is Some);
    }
    assert forall|i: int| opt_live(t1, i) implies match (#[trigger] opt_at(t1, i)).blocked_on {
        Some(BlockReason::OnMutex(mj)) => mj < RESOURCE_SLOTS && opt_live(m1, mj as int) && opt_at(
            m1,
            mj as int,
        ).locked && in_queue(opt_at(m1, mj as int).wait_queue@, i),
        Some(BlockReason::OnSemaphore(sj)) => sj < RESOURCE_SLOTS && opt_live(
            b.semaphores@,
            sj as int,
        ) && in_queue(opt_at(b.semaphores@, sj as int).wait_queue@, i),
        Some(BlockReason::OnCondvar(cj)) => opt_live(b.condvars@, cj as int) && in_queue(
            opt_at(b.condvars@, cj as int).wait_queue@,
            i,
        ),
        Some(BlockReason::Sleeping(_)) => true,
        None => true,
    } by {
        if i != w {
            assert(opt_at(t1, i) == opt_at(t0, i));
            match opt_at(t0, i).blocked_on {
                Some(BlockReason::OnMutex(mj)) => {
                    assert(opt_live(m0, mj as int) && opt_at(m0, mj as int).locked && in_queue(
                        opt_at(m0, mj as int).wait_queue@,
                        i,
                    ));
                    if mj == id {
                        let q1 = opt_at(m1, id).wait_queue@;
                        let k: int = choose|k: int| 0 <= k < q0.len() && q0[k] == i;
                        assert(i != w);
                        assert(k != 0);
                        assert(q1[k - 1] == i);
                        assert(in_queue(q1, i));
                        assert(transfer);
                        assert(opt_at(m1, id).locked);
                    } else {
                        assert(opt_at(m1, mj as int) == opt_at(m0, mj as int));
                    }
                },
                Some(BlockReason::OnSemaphore(sj)) => {
                    assert(opt_live(a.semaphores@, sj as int) && in_queue(
                        opt_at(a.semaphores@, sj as int).wait_queue@,
                        i,
                    ));
                },
                Some(BlockReason::OnCondvar(cj)) => {
                    assert(opt_live(a.condvars@, cj as int) && in_queue(
                        opt_at(a.condvars@, cj as int).wait_queue@,
                        i,
                    ));
                },
                _ => {},
            }
        }
    }
    assert forall|j: int| #![trigger opt_at(m1, j)] opt_live(m1, j) implies {
        &&& (opt_at(m1, j).holder is Some ==> opt_at(m1, j).locked)
        &&& (opt_at(m1, j).holder is Some ==> opt_live(t1, opt_at(m1, j).holder->0 as int))
        &&& (j >= RESOURCE_SLOTS ==> !opt_at(m1, j).locked && opt_at(m1, j).wait_queue@.len()
            == 0)
        &&& queue_ok(t1, opt_at(m1, j).wait_queue@, BlockReason::OnMutex(j as usize))
    } by {
        if j == id {
            if transfer {
                let q1 = opt_at(m1, id).wait_queue@;
                assert forall|k: int|
                    0 <= k < q1.len() implies opt_live(t1, #[trigger] q1[k] as int) && opt_at(
                    t1,
                    q1[k] as int,
                ).blocked_on == Some(BlockReason::OnMutex(id as usize)) by {
                    assert(q1[k] == q0[k + 1]);
                    assert(opt_live(t0, q0[k + 1] as int) && opt_at(
                        t0,
                        q0[k + 1] as int,
                    ).blocked_on == Some(BlockReason::OnMutex(id as usize)));
                    assert(q0[k + 1] != q0[0]);
                }
                assert forall|k1: int, k2: int| 0 <= k1 < k2 < q1.len() implies q1[k1]
                    != q1[k2] by {
                    assert(q1[k1] == q0[k1 + 1] && q1[k2] == q0[k2 + 1]);
                }
            }
        } else {
            assert(opt_live(m0, j) ==> opt_at(m1, j) == opt_at(m0, j));
            if opt_live(m1, j) {
                assert(opt_live(m0, j));
                assert(a.mutexes.len() as int == m0.len());
                if transfer {
                    assert(j as usize != id as usize);
                    assert(opt_at(t0, w).blocked_on != Some(BlockReason::OnMutex(j as usize)));
                    lemma_queue_ok_nonmember(
                        t0,
                        t1,
                        opt_at(m0, j).wait_queue@,
                        BlockReason::OnMutex(j as usize),
                        w,
                    );
                } else {
                    assert(queue_ok(t1, opt_at(m0, j).wait_queue@, BlockReason::OnMutex(
                        j as usize,
                    )));
                }
            }
        }
    }
    assert forall|j: int| #![trigger opt_at(b.semaphores@, j)] opt_live(b.semaphores@, j) implies {
        &&& (opt_at(b.semaphores@, j).count > 0 ==> opt_at(b.semaphores@, j).wait_queue@.len()
            == 0)
        &&& (j >= RESOURCE_SLOTS ==> opt_at(b.semaphores@, j).wait_queue@.len() == 0)
        &&& queue_ok(t1, opt_at(b.semaphores@, j).wait_queue@, BlockReason::OnSemaphore(j as usize))
    } by {
        assert(opt_live(a.semaphores@, j) && opt_at(b.semaphores@, j) == opt_at(a.semaphores@, j));
        if transfer {
            lemma_queue_ok_nonmember(
                t0,
                t1,
                opt_at(a.semaphores@, j).wait_queue@,
                BlockReason::OnSemaphore(j as usize),
                w,
            );
        } else {
            assert(queue_ok(t1, opt_at(a.semaphores@, j).wait_queue@, BlockReason::OnSemaphore(
                j as usize,
            )));
        }
    }
    assert forall|j: int| #![trigger opt_at(b.condvars@, j)] opt_live(b.condvars@, j) implies
        queue_ok(t1, opt_at(b.condvars@, j).wait_queue@, BlockReason::OnCondvar(j as usize)) by {
        assert(opt_live(a.condvars@, j) && opt_at(b.condvars@, j) == opt_at(a.condvars@, j));
        if transfer {
            lemma_queue_ok_nonmember(
                t0,
                t1,
                opt_at(a.condvars@, j).wait_queue@,
                BlockReason::OnCondvar(j as usize),
                w,
            );
        } else {
            assert(queue_ok(t1, opt_at(a.condvars@, j).wait_queue@, BlockReason::OnCondvar(
                j as usize,
            )));
        }
    }
}

impl ProcessState {
    /// Delivers the release of mutex `mutex_id` performed in another
    /// process that shares the handle (after a fork): accepted only for a
    /// mutex that is locked with no local holder. With no local waiters
    /// the mutex becomes free; otherwise ownership passes directly to the
    /// first local waiter, which wakes ready with a zero syscall return
    /// value. A mutex held locally, free, empty or out of the accounted
    /// range is rejected with `-1`.
    pub fn mutex_external_release(&mut self, mutex_id: usize) -> (r: isize)
        requires
            old(self).wf(),
            !old(self).zombie,
        ensures
            final(self).wf(),
            r == 0 || r == -1,
            r == 0 <==> old(self).mutex_usable(mutex_id as int) && old(self).mutex_at(
                mutex_id as int,
            ).locked && old(self).mutex_at(mutex_id as int).holder is None,
            r == -1 ==> *final(self) == *old(self),
            r == 0 ==> mutex_external_release_post(*old(self), *final(self), mutex_id as int),
    {
        if mutex_id >= RESOURCE_SLOTS || mutex_id >= self.mutexes.len() {
            return -1;
        }
        let ok: bool = match &self.mutexes[mutex_id] {
            Some(m) => m.locked && matches!(m.holder, None),
            None => false,
        };
        if !ok {
            return -1;
        }
        let qlen: usize = match &self.mutexes[mutex_id] {
            Some(m) => m.wait_queue.len(),
            None => 0,
        };
        if qlen == 0 {
            match &mut self.mutexes[mutex_id] {
                Some(m) => {
                    m.locked = false;
                },
                None => {},
            }
            proof {
                assert(mutex_external_release_post(*old(self), *self, mutex_id as int));
                lemma_sync_external_release(*old(self), *self, mutex_id as int);
            }
            0
        } else {
            let w: usize = match &self.mutexes[mutex_id] {
                Some(m) => m.wait_queue[0],
                None => 0,
            };
            proof {
                let q0 = old(self).mutex_at(mutex_id as int).wait_queue@;
                assert(opt_live(old(self).tasks@, q0[0] as int) && opt_at(
                    old(self).tasks@,
                    q0[0] as int,
                ).blocked_on == Some(BlockReason::OnMutex(mutex_id)));
                assert(opt_at(old(self).tasks@, w as int).wf());
            }
            match &mut self.mutexes[mutex_id] {
                Some(m) => {
                    let _front: usize = m.wait_queue.remove(0);
                    m.holder = Some(w);
                },
                None => {},
            }
            match &mut self.tasks[w] {
                Some(tc) => {
                    tc.mutex_need[mutex_id] = 0;
                    tc.mutex_allocation[mutex_id] = 1;
                    tc.status = TaskStatus::Ready;
                    tc.blocked_on = None;
                    tc.trap_ret = 0;
                },
                None => {},
            }
            proof {
                let a = *old(self);
                let q0 = a.mutex_at(mutex_id as int).wait_queue@;
                assert(self.mutex_at(mutex_id as int).wait_queue@ =~= q0.subrange(
                    1,
                    q0.len() as int,
                ));
                assert(self.task_at(w as int).mutex_allocation@ =~= a.task_at(
                    w as int,
                ).mutex_allocation@.update(mutex_id as int, 1usize));
                assert(self.task_at(w as int).mutex_need@ =~= a.task_at(
                    w as int,
                ).mutex_need@.update(mutex_id as int, 0usize));
                assert(mutex_external_release_post(a, *self, mutex_id as int));
                lemma_sync_external_release(a, *self, mutex_id as int);
            }
            0
        }
    }
}

/// Relates a process before and after one unit of semaphore `id` arrives
/// from outside — the task returning it belongs to another process
/// sharing the handle, so no local accounting is given back. The unit
/// goes to the pool (no local waiters) or passes directly to the first
/// local waiter, which wakes with the unit accounted as held and a zero
/// syscall return value.
pub open spec fn sem_external_up_post(a: ProcessState, b: ProcessState, id: int) -> bool {
    &&& b.tasks@.len() == a.tasks@.len()
    &&& b.semaphores@.len() == a.semaphores@.len()
    &&& forall|j: int|
        0 <= j < a.semaphores@.len() && j != id ==> b.semaphores@[j] == a.semaphores@[j]
    &&& b.sem_live(id)
    &&& b.sem_at(id).total == a.sem_at(id).total
    &&& b.mutexes == a.mutexes
    &&& b.condvars == a.condvars
    &&& same_but_sync(a, b)
    &&& if a.sem_at(id).wait_queue@.len() == 0 {
        &&& forall|i: int| 0 <= i < a.tasks@.len() ==> b.tasks@[i] == a.tasks@[i]
        &&& b.sem_at(id).count == a.sem_at(id).count + 1
        &&& b.sem_at(id).wait_queue@.len() == 0
    } else {
        let w = a.sem_at(id).wait_queue@[0] as int;
        &&& forall|i: int| 0 <= i < a.tasks@.len() && i != w ==> b.tasks@[i] == a.tasks@[i]
        &&& b.live(w)
        &&& b.task_at(w).sem_allocation@ == a.task_at(w).sem_allocation@.update(
            id,
            (a.task_at(w).sem_allocation@[id] + 1) as usize,
        )
        &&& b.task_at(w).sem_need@ == a.task_at(w).sem_need@.update(id, 0usize)
        &&& b.task_at(w).mutex_allocation == a.task_at(w).mutex_allocation
        &&& b.task_at(w).mutex_need == a.task_at(w).mutex_need
        &&& b.task_at(w).status == TaskStatus::Ready
        &&& b.task_at(w).blocked_on is None
        &&& b.task_at(w).trap_ret == 0
        &&& b.task_at(w).priority == a.task_at(w).priority
        &&& b.task_at(w).tid == a.task_at(w).tid
        &&& b.sem_at(id).count == a.sem_at(id).count
        &&& b.sem_at(id).wait_queue@ == a.sem_at(id).wait_queue@.subrange(
            1,
            a.sem_at(id).wait_queue@.len() as int,
        )
    }
}

/// An externally delivered semaphore unit, handed to the first local
/// waiter when one exists, preserves the invariants.
proof fn lemma_sync_sem_external_up(a: ProcessState, b: ProcessState, id: int)
    requires
        a.wf(),
        !a.zombie,
        a.sem_usable(id),
        sem_external_up_post(a, b, id),
    ensures
        tasks_ok(b.tasks@),
        sync_ok(b.tasks@, b.mutexes@, b.semaphores@, b.condvars@),
{
    let t0 = a.tasks@;
    let t1 = b.tasks@;
    let s0 = a.semaphores@;
    let s1 = b.semaphores@;
    let q0 = a.sem_at(id).wait_queue@;
    let transfer: bool = q0.len() > 0;
    let w: int = if transfer {
        q0[0] as int
    } else {
        -1
    };
    if transfer {
        assert(opt_live(t0, w) && opt_at(t0, w).blocked_on == Some(
            BlockReason::OnSemaphore(id as usize),
        ));
        assert(a.sem_at(id).count == 0);
    }
    assert forall|i: int| opt_live(t1, i) implies (#[trigger] opt_at(t1, i)).wf() && opt_at(
        t1,
        i,
    ).tid == i by {
        if i != w {
            assert(opt_at(t1, i) == opt_at(t0, i));
        }
        assert(opt_at(t0, i).wf() && opt_at(t0, i).tid == i);
    }
    assert forall|i: int, j: int|
        opt_live(t1, i) && 0 <= j < RESOURCE_SLOTS implies (#[trigger] opt_at(
        t1,
        i,
    ).mutex_allocation@[j]) == (if mutex_holder_in(b.mutexes@, j) == Some(i as usize) {
        1usize
    } else {
        0usize
    }) by {
        assert(opt_at(t0, i).mutex_allocation@[j] == (if mutex_holder_in(a.mutexes@, j) == Some(
            i as usize,
        ) {
            1usize
        } else {
            0usize
        }));
        if i != w {
            assert(opt_at(t1, i) == opt_at(t0, i));
        }
    }
    assert forall|i: int, j: int|
        opt_live(t1, i) && 0 <= j < RESOURCE_SLOTS implies (#[trigger] opt_at(
        t1,
        i,
    ).mutex_need@[j]) == (if blocked_on_mutex(opt_at(t1, i), j) {
        1usize
    } else {
        0usize
    }) by {
        assert(opt_at(t0, i).mutex_need@[j] == (if blocked_on_mutex(opt_at(t0, i), j) {
            1usize
        } else {
            0usize
        }));
        if i != w {
            assert(opt_at(t1, i) == opt_at(t0, i));
        } else {
            assert(!blocked_on_mutex(opt_at(t0, w), j));
            assert(!blocked_on_mutex(opt_at(t1, w), j));
        }
    }
    assert forall|i: int, j: int|
        opt_live(t1, i) && 0 <= j < RESOURCE_SLOTS implies (#[trigger] opt_at(t1, i).sem_need@[j])
        == (if blocked_on_sem(opt_at(t1, i), j) {
        1usize
    } else {
        0usize
    }) by {
        assert(opt_at(t0, i).sem_need@[j] == (if blocked_on_sem(opt_at(t0, i), j) {
            1usize
        } else {
            0usize
        }));
        if i != w {
            assert(opt_at(t1, i) == opt_at(t0, i));
        } else {
            assert(blocked_on_sem(opt_at(t0, w), j) <==> j == id);
            assert(!blocked_on_sem(opt_at(t1, w), j));
        }
    }
    assert forall|i: int| opt_live(t1, i) implies ((#[trigger] opt_at(t1, i)).status
        == TaskStatus::Blocked <==> opt_at(t1, i).blocked_on is Some) by {
        if i != w {
            assert(opt_at(t1, i) == opt_at(t0, i));
        }
        assert(opt_at(t0, i).status == TaskStatus::Blocked <==> opt_at(t0, i).blocked_on is Some);
    }
    assert forall|i: int| opt_live(t1, i) implies match (#[trigger] opt_at(t1, i)).blocked_on {
        Some(BlockReason::OnMutex(mj)) => mj < RESOURCE_SLOTS && opt_live(b.mutexes@, mj as int)
            && opt_at(b.mutexes@, mj as int).locked && in_queue(
            opt_at(b.mutexes@, mj as int).wait_queue@,
            i,
        ),
        Some(BlockReason::OnSemaphore(sj)) => sj < RESOURCE_SLOTS && opt_live(s1, sj as int)
            && in_queue(opt_at(s1, sj as int).wait_queue@, i),
        Some(BlockReason::OnCondvar(cj)) => opt_live(b.condvars@, cj as int) && in_queue(
            opt_at(b.condvars@, cj as int).wait_queue@,
            i,
        ),
        Some(BlockReason::Sleeping(_)) => true,
        None => true,
    } by {
        if i != w {
            assert(opt_at(t1, i) == opt_at(t0, i));
            match opt_at(t0, i).blocked_on {
                Some(BlockReason::OnMutex(mj)) => {
                    assert(opt_live(a.mutexes@, mj as int) && opt_at(a.mutexes@, mj as int).locked
                        && in_queue(opt_at(a.mutexes@, mj as int).wait_queue@, i));
                },
                Some(BlockReason::OnSemaphore(sj)) => {
                    assert(opt_live(s0, sj as int) && in_queue(
                        opt_at(s0, sj as int).wait_queue@,
                        i,
                    ));
                    if sj == id {
                        let q1 = opt_at(s1, id).wait_queue@;
                        let k: int = choose|k: int| 0 <= k < q0.len() && q0[k] == i;
                        assert(i != w);
                        assert(k != 0);
                        assert(q1[k - 1] == i);
                        assert(in_queue(q1, i));
                    } else {
                        assert(opt_at(s1, sj as int) == opt_at(s0, sj as int));
                    }
                },
                Some(BlockReason::OnCondvar(cj)) => {
                    assert(opt_live(a.condvars@, cj as int) && in_queue(
                        opt_at(a.condvars@, cj as int).wait_queue@,
                        i,
                    ));
                },
                _ => {},
            }
        }
    }
    assert forall|j: int| #![trigger opt_at(b.mutexes@, j)] opt_live(b.mutexes@, j) implies {
        &&& (opt_at(b.mutexes@, j).holder is Some ==> opt_at(b.mutexes@, j).locked)
        &&& (opt_at(b.mutexes@, j).holder is Some ==> opt_live(
            t1,
            opt_at(b.mutexes@, j).holder->0 as int,
        ))
        &&& (j >= RESOURCE_SLOTS ==> !opt_at(b.mutexes@, j).locked && opt_at(
            b.mutexes@,
            j,
        ).wait_queue@.len() == 0)
        &&& queue_ok(t1, opt_at(b.mutexes@, j).wait_queue@, BlockReason::OnMutex(j as usize))
    } by {
        assert(opt_live(a.mutexes@, j) && opt_at(b.mutexes@, j) == opt_at(a.mutexes@, j));
        if transfer {
            lemma_queue_ok_nonmember(
                t0,
                t1,
                opt_at(a.mutexes@, j).wait_queue@,
                BlockReason::OnMutex(j as usize),
                w,
            );
        } else {
            assert(queue_ok(t1, opt_at(a.mutexes@, j).wait_queue@, BlockReason::OnMutex(
                j as usize,
            )));
        }
    }
    assert forall|j: int| #![trigger opt_at(s1, j)] opt_live(s1, j) implies {
        &&& (opt_at(s1, j).count > 0 ==> opt_at(s1, j).wait_queue@.len() == 0)
        &&& (j >= RESOURCE_SLOTS ==> opt_at(s1, j).wait_queue@.len() == 0)
        &&& queue_ok(t1, opt_at(s1, j).wait_queue@, BlockReason::OnSemaphore(j as usize))
    } by {
        if j == id {
            if transfer {
                let q1 = opt_at(s1, id).wait_queue@;
                assert forall|k: int|
                    0 <= k < q1.len() implies opt_live(t1, #[trigger] q1[k] as int) && opt_at(
                    t1,
                    q1[k] as int,
                ).blocked_on == Some(BlockReason::OnSemaphore(id as usize)) by {
                    assert(q1[k] == q0[k + 1]);
                    assert(opt_live(t0, q0[k + 1] as int) && opt_at(
                        t0,
                        q0[k + 1] as int,
                    ).blocked_on == Some(BlockReason::OnSemaphore(id as usize)));
                    assert(q0[k + 1] != q0[0]);
                }
                assert forall|k1: int, k2: int| 0 <= k1 < k2 < q1.len() implies q1[k1]
                    != q1[k2] by {
                    assert(q1[k1] == q0[k1 + 1] && q1[k2] == q0[k2 + 1]);
                }
                assert(opt_at(s1, id).count == 0);
            }
        } else {
            assert(opt_live(s0, j) ==> opt_at(s1, j) == opt_at(s0, j));
            if opt_live(s1, j) {
                assert(opt_live(s0, j));
                assert(a.semaphores.len() as int == s0.len());
                if transfer {
                    assert(j as usize != id as usize);
                    assert(opt_at(t0, w).blocked_on != Some(
                        BlockReason::OnSemaphore(j as usize),
                    ));
                    lemma_queue_ok_nonmember(
                        t0,
                        t1,
                        opt_at(s0, j).wait_queue@,
                        BlockReason::OnSemaphore(j as usize),
                        w,
                    );
                } else {
                    assert(queue_ok(t1, opt_at(s0, j).wait_queue@, BlockReason::OnSemaphore(
                        j as usize,
                    )));
                }
            }
        }
    }
    assert forall|j: int| #![trigger opt_at(b.condvars@, j)] opt_live(b.condvars@, j) implies
        queue_ok(t1, opt_at(b.condvars@, j).wait_queue@, BlockReason::OnCondvar(j as usize)) by {
        assert(opt_live(a.condvars@, j) && opt_at(b.condvars@, j) == opt_at(a.condvars@, j));
        if transfer {
            lemma_queue_ok_nonmember(
                t0,
                t1,
                opt_at(a.condvars@, j).wait_queue@,
                BlockReason::OnCondvar(j as usize),
                w,
            );
        } else {
            assert(queue_ok(t1, opt_at(a.condvars@, j).wait_queue@, BlockReason::OnCondvar(
                j as usize,
            )));
        }
    }
}

impl ProcessState {
    /// Delivers one unit of semaphore `sem_id` returned in another
    /// process that shares the handle (after a fork): the unit goes to
    /// the local pool, or passes directly to the first local waiter,
    /// which wakes ready with a zero syscall return value. An empty slot,
    /// or one at or beyond the accounted range, is rejected with `-1`.
    pub fn semaphore_external_up(&mut self, sem_id: usize) -> (r: isize)
        requires
            old(self).wf(),
            !old(self).zombie,
            old(self).sem_usable(sem_id as int) && old(self).sem_at(
                sem_id as int,
            ).wait_queue@.len() == 0 ==> old(self).sem_at(sem_id as int).count < usize::MAX,
            old(self).sem_usable(sem_id as int) && old(self).sem_at(
                sem_id as int,
            ).wait_queue@.len() > 0 ==> old(self).task_at(
                old(self).sem_at(sem_id as int).wait_queue@[0] as int,
            ).sem_allocation@[sem_id as int] < usize::MAX,
        ensures
            final(self).wf(),
            r == 0 || r == -1,
            r == 0 <==> old(self).sem_usable(sem_id as int),
            r == -1 ==> *final(self) == *old(self),
            r == 0 ==> sem_external_up_post(*old(self), *final(self), sem_id as int),
    {
        if sem_id >= RESOURCE_SLOTS || sem_id >= self.semaphores.len() {
            return -1;
        }
        let occupied: bool = match &self.semaphores[sem_id] {
            Some(_) => true,
            None => false,
        };
        if !occupied {
            return -1;
        }
        let qlen: usize = match &self.semaphores[sem_id] {
            Some(s) => s.wait_queue.len(),
            None => 0,
        };
        if qlen == 0 {
            match &mut self.semaphores[sem_id] {
                Some(s) => {
                    s.count = s.count + 1;
                },
                None => {},
            }
            proof {
                assert(sem_external_up_post(*old(self), *self, sem_id as int));
                lemma_sync_sem_external_up(*old(self), *self, sem_id as int);
            }
            0
        } else {
            let w: usize = match &self.semaphores[sem_id] {
                Some(s) => s.wait_queue[0],
                None => 0,
            };
            proof {
                let q0 = old(self).sem_at(sem_id as int).wait_queue@;
                assert(opt_live(old(self).tasks@, q0[0] as int) && opt_at(
                    old(self).tasks@,
                    q0[0] as int,
                ).blocked_on == Some(BlockReason::OnSemaphore(sem_id)));
                assert(opt_at(old(self).tasks@, w as int).wf());
            }
            match &mut self.semaphores[sem_id] {
                Some(s) => {
                    let _front: usize = s.wait_queue.remove(0);
                },
                None => {},
            }
            let wheld: usize = match &self.tasks[w] {
                Some(tc) => tc.sem_allocation[sem_id],
                None => 0,
            };
            match &mut self.tasks[w] {
                Some(tc) => {
                    tc.sem_need[sem_id] = 0;
                    tc.sem_allocation[sem_id] = wheld + 1;
                    tc.status = TaskStatus::Ready;
                    tc.blocked_on = None;
                    tc.trap_ret = 0;
                },
                None => {},
            }
            proof {
                let a = *old(self);
                let q0 = a.sem_at(sem_id as int).wait_queue@;
                assert(self.sem_at(sem_id as int).wait_queue@ =~= q0.subrange(
                    1,
                    q0.len() as int,
                ));
                assert(self.task_at(w as int).sem_allocation@ =~= a.task_at(
                    w as int,
                ).sem_allocation@.update(
                    sem_id as int,
                    (a.task_at(w as int).sem_allocation@[sem_id as int] + 1) as usize,
                ));
                assert(self.task_at(w as int).sem_need@ =~= a.task_at(
                    w as int,
                ).sem_need@.update(sem_id as int, 0usize));
                assert(sem_external_up_post(a, *self, sem_id as int));
                lemma_sync_sem_external_up(a, *self, sem_id as int);
            }
            0
        }
    }
}

} // verus!
