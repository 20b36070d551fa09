//! The kernel's process table and the cross-process lifecycle operations:
//! fork, wait and spawn. Process ids are table indices, reused first-fit
//! once a process is reaped.
use vstd::prelude::*;

use crate::process::{
    links_ok, opt_at, opt_live, CondvarState, FileHandle, MutexState, ProcessState, SemState,
};
use crate::sync::first_free_index;
use crate::task::TaskControl;
use crate::vm::AddressSpace;
use crate::{MAX_PROCS, RESOURCE_SLOTS};

verus! {

/// The kernel: its process table. A `None` slot is a free process id.
pub struct Kernel {
    pub processes: Vec<Option<ProcessState>>,
}

/// True when child id `c` matches a wait request for `target` (`-1`
/// matches any child).
pub open spec fn kid_matches(c: usize, target: isize) -> bool {
    target == -1 || (target >= 0 && c == target as usize)
}

impl Kernel {
    /// The process at slot `p`.
    pub open spec fn proc_at(self, p: int) -> ProcessState {
        opt_at(self.processes@, p)
    }

    /// True when `p` is a valid, not yet reaped process id.
    pub open spec fn proc_live(self, p: int) -> bool {
        opt_live(self.processes@, p)
    }

    /// Kernel well-formedness: a capped table of well-formed processes
    /// whose ids equal their slots, and whose child lists name distinct
    /// live processes, no process being its own child or the child of two
    /// parents.
    pub open spec fn wf(self) -> bool {
        &&& self.processes@.len() <= MAX_PROCS
        &&& forall|p: int| self.proc_live(p) ==> (#[trigger] self.proc_at(p)).wf()
        &&& forall|p: int| self.proc_live(p) ==> (#[trigger] self.proc_at(p)).pid == p
        &&& forall|p: int, k: int|
            self.proc_live(p) && 0 <= k < self.proc_at(p).children@.len() ==> self.proc_live(
                #[trigger] self.proc_at(p).children@[k] as int,
            ) && self.proc_at(p).children@[k] != p
        &&& forall|p: int, k1: int, k2: int|
            self.proc_live(p) && 0 <= k1 < k2 < self.proc_at(p).children@.len() ==> (
            #[trigger] self.proc_at(p).children@[k1]) != (#[trigger] self.proc_at(
                p,
            ).children@[k2])
        &&& forall|p1: int, p2: int, k1: int, k2: int|
            self.proc_live(p1) && self.proc_live(p2) && p1 != p2 && 0 <= k1 < self.proc_at(
                p1,
            ).children@.len() && 0 <= k2 < self.proc_at(p2).children@.len() ==> (
            #[trigger] self.proc_at(p1).children@[k1]) != (#[trigger] self.proc_at(
                p2,
            ).children@[k2])
    }

    /// A kernel with one live root process (pid 0) and room to grow.
    pub fn new() -> (r: Kernel)
        ensures
            r.wf(),
            r.processes@.len() == 1,
            r.proc_live(0),
            r.proc_at(0).wf(),
            !r.proc_at(0).zombie,
            r.proc_at(0).runnable(0),
            r.proc_at(0).children@.len() == 0,
            r.proc_at(0).tasks@.len() == 1,
            r.proc_at(0).task_at(0).is_fresh(0),
    {
        let root: ProcessState = ProcessState::new(0);
        let mut processes: Vec<Option<ProcessState>> = Vec::new();
        processes.push(Some(root));
        Kernel { processes }
    }
}

/// Relates a freshly forked child to its parent: a new identity with one
/// fresh task, the parent's address space, program break, open files,
/// hard links, deadlock-detection setting, and the shared primitives'
/// state as of the fork — each mutex with the parent's lock state, each
/// semaphore with the parent's capacity and current count.
///
/// Wait bookkeeping stays with each process: holders and waiters are
/// tasks, which belong to one process, so the child records no local
/// holder and no local waiters. A mutex the parent holds at fork is
/// locked in the child with no local holder — held outside the process —
/// and child tasks that request it suspend until the release reaches the
/// child as an external-release event (`mutex_external_release`).
/// Updates made to a shared primitive after the fork propagate between
/// the processes only through such events.
pub open spec fn fork_child_ok(child: ProcessState, parent: ProcessState, cpid: int) -> bool {
    &&& child.pid == cpid
    &&& !child.zombie
    &&& child.exit_code == 0
    &&& child.deadlock_detect == parent.deadlock_detect
    &&& child.tasks@.len() == 1
    &&& child.live(0)
    &&& child.task_at(0).is_fresh(0)
    &&& child.mutexes@.len() == parent.mutexes@.len()
    &&& forall|j: int|
        0 <= j < parent.mutexes@.len() ==> ((#[trigger] child.mutexes@[j]) is Some <==> parent
            .mutexes@[j] is Some)
    &&& forall|j: int|
        opt_live(child.mutexes@, j) ==> (#[trigger] opt_at(child.mutexes@, j)).blocking == opt_at(
            parent.mutexes@,
            j,
        ).blocking && opt_at(child.mutexes@, j).locked == opt_at(parent.mutexes@, j).locked
            && opt_at(child.mutexes@, j).holder is None && opt_at(
            child.mutexes@,
            j,
        ).wait_queue@.len() == 0
    &&& child.semaphores@.len() == parent.semaphores@.len()
    &&& forall|j: int|
        0 <= j < parent.semaphores@.len() ==> ((#[trigger] child.semaphores@[j]) is Some
            <==> parent.semaphores@[j] is Some)
    &&& forall|j: int|
        opt_live(child.semaphores@, j) ==> (#[trigger] opt_at(child.semaphores@, j)).total
            == opt_at(parent.semaphores@, j).total && opt_at(child.semaphores@, j).count == opt_at(
            parent.semaphores@,
            j,
        ).count && opt_at(child.semaphores@, j).wait_queue@.len() == 0
    &&& child.condvars@.len() == parent.condvars@.len()
    &&& forall|j: int|
        0 <= j < parent.condvars@.len() ==> ((#[trigger] child.condvars@[j]) is Some <==> parent
            .condvars@[j] is Some)
    &&& forall|j: int|
        opt_live(child.condvars@, j) ==> (#[trigger] opt_at(child.condvars@, j)).wait_queue@.len()
            == 0
    &&& child.children@.len() == 0
    &&& child.addr_space.pages@ == parent.addr_space.pages@
    &&& child.heap_bottom == parent.heap_bottom
    &&& child.brk == parent.brk
    &&& child.fd_table@.len() == parent.fd_table@.len()
    &&& forall|j: int|
        0 <= j < parent.fd_table@.len() ==> ((#[trigger] child.fd_table@[j]) is Some <==> parent
            .fd_table@[j] is Some)
    &&& forall|j: int|
        opt_live(child.fd_table@, j) ==> (#[trigger] opt_at(child.fd_table@, j)).readable
            == opt_at(parent.fd_table@, j).readable && opt_at(child.fd_table@, j).writable
            == opt_at(parent.fd_table@, j).writable && opt_at(child.fd_table@, j).ino == opt_at(
            parent.fd_table@,
            j,
        ).ino && opt_at(child.fd_table@, j).path@ == opt_at(parent.fd_table@, j).path@
    &&& child.link_table@.len() == parent.link_table@.len()
    &&& forall|j: int|
        0 <= j < parent.link_table@.len() ==> (#[trigger] child.link_table@[j]).0@ == parent
            .link_table@[j].0@ && child.link_table@[j].1@ == parent.link_table@[j].1@
}

/// A single fresh task beside resource tables with no local holders and
/// no local waiters satisfies the synchronization invariants; mutexes may
/// be locked from outside the process, except in the unaccounted slot
/// range.
proof fn lemma_sync_fresh(p: ProcessState)
    requires
        p.tasks@.len() == 1,
        p.live(0),
        p.task_at(0).is_fresh(0),
        forall|j: int|
            opt_live(p.mutexes@, j) ==> (#[trigger] opt_at(p.mutexes@, j)).holder is None
                && opt_at(p.mutexes@, j).wait_queue@.len() == 0 && (j >= RESOURCE_SLOTS
                ==> !opt_at(p.mutexes@, j).locked),
        forall|j: int|
            opt_live(p.semaphores@, j) ==> (#[trigger] opt_at(p.semaphores@, j)).wait_queue@.len()
                == 0,
        forall|j: int|
            opt_live(p.condvars@, j) ==> (#[trigger] opt_at(p.condvars@, j)).wait_queue@.len()
                == 0,
    ensures
        p.sync_wf(),
{
    let t = p.tasks@;
    assert forall|i: int, j: int|
        opt_live(t, i) && 0 <= j < RESOURCE_SLOTS implies (#[trigger] opt_at(
        t,
        i,
    ).mutex_allocation@[j]) == (if crate::process::mutex_holder_in(p.mutexes@, j) == Some(
        i as usize,
    ) {
        1usize
    } else {
        0usize
    }) by {
        assert(i == 0);
        assert(opt_at(t, 0).mutex_allocation@[j] == 0);
    }
    assert forall|i: int, j: int|
        opt_live(t, i) && 0 <= j < RESOURCE_SLOTS implies (#[trigger] opt_at(
        t,
        i,
    ).mutex_need@[j]) == (if crate::process::blocked_on_mutex(opt_at(t, i), j) {
        1usize
    } else {
        0usize
    }) by {
        assert(i == 0);
        assert(opt_at(t, 0).mutex_need@[j] == 0);
    }
    assert forall|i: int, j: int|
        opt_live(t, i) && 0 <= j < RESOURCE_SLOTS implies (#[trigger] opt_at(t, i).sem_need@[j])
        == (if crate::process::blocked_on_sem(opt_at(t, i), j) {
        1usize
    } else {
        0usize
    }) by {
        assert(i == 0);
        assert(opt_at(t, 0).sem_need@[j] == 0);
    }
}

/// The child's view of the parent's mutex table: the same handles with
/// their lock state as of the fork. Holders and waiters are tasks of the
/// parent, so the child records no local holder and no local waiters; a
/// mutex the parent holds arrives in the child locked, released later by
/// an external-release event.
fn clone_mutexes(src: &Vec<Option<MutexState>>) -> (r: Vec<Option<MutexState>>)
    ensures
        r@.len() == src@.len(),
        forall|j: int| 0 <= j < src@.len() ==> ((#[trigger] r@[j]) is Some <==> src@[j] is Some),
        forall|j: int|
            opt_live(r@, j) ==> (#[trigger] opt_at(r@, j)).blocking == opt_at(src@, j).blocking
                && opt_at(r@, j).locked == opt_at(src@, j).locked && opt_at(r@, j).holder is None
                && opt_at(r@, j).wait_queue@.len() == 0,
{
    let mut out: Vec<Option<MutexState>> = Vec::new();
    let mut k: usize = 0;
    #[verifier::loop_isolation(false)]
    while k < src.len()
        invariant
            k <= src@.len(),
            out@.len() == k,
            forall|j: int| 0 <= j < k ==> ((#[trigger] out@[j]) is Some <==> src@[j] is Some),
            forall|j: int|
                opt_live(out@, j) ==> (#[trigger] opt_at(out@, j)).blocking == opt_at(
                    src@,
                    j,
                ).blocking && opt_at(out@, j).locked == opt_at(src@, j).locked && opt_at(
                    out@,
                    j,
                ).holder is None && opt_at(out@, j).wait_queue@.len() == 0,
        decreases src@.len() - k,
    {
        let ghost pre: Seq<Option<MutexState>> = out@;
        match &src[k] {
            Some(m) => {
                out.push(
                    Some(
                        MutexState {
                            blocking: m.blocking,
                            locked: m.locked,
                            holder: None,
                            wait_queue: Vec::new(),
                        },
                    ),
                );
            },
            None => {
                out.push(None);
            },
        }
        proof {
            assert forall|j: int| opt_live(out@, j) implies (#[trigger] opt_at(out@, j)).blocking
                == opt_at(src@, j).blocking && opt_at(out@, j).locked == opt_at(src@, j).locked
                && opt_at(out@, j).holder is None && opt_at(out@, j).wait_queue@.len() == 0 by {
                if j < pre.len() {
                    assert(out@[j] == pre[j]);
                    assert(opt_live(pre, j));
                    assert(opt_at(pre, j).blocking == opt_at(src@, j).blocking && opt_at(
                        pre,
                        j,
                    ).locked == opt_at(src@, j).locked && opt_at(pre, j).holder is None && opt_at(
                        pre,
                        j,
                    ).wait_queue@.len() == 0);
                }
            }
        }
        k += 1;
    }
    out
}

/// The child's view of the parent's semaphore table: the same handles
/// with their capacities and current counts, none with waiters in the
/// child.
fn clone_semaphores(src: &Vec<Option<SemState>>) -> (r: Vec<Option<SemState>>)
    ensures
        r@.len() == src@.len(),
        forall|j: int| 0 <= j < src@.len() ==> ((#[trigger] r@[j]) is Some <==> src@[j] is Some),
        forall|j: int|
            opt_live(r@, j) ==> (#[trigger] opt_at(r@, j)).total == opt_at(src@, j).total
                && opt_at(r@, j).count == opt_at(src@, j).count && opt_at(r@, j).wait_queue@.len()
                == 0,
{
    let mut out: Vec<Option<SemState>> = Vec::new();
    let mut k: usize = 0;
    #[verifier::loop_isolation(false)]
    while k < src.len()
        invariant
            k <= src@.len(),
            out@.len() == k,
            forall|j: int| 0 <= j < k ==> ((#[trigger] out@[j]) is Some <==> src@[j] is Some),
            forall|j: int|
                opt_live(out@, j) ==> (#[trigger] opt_at(out@, j)).total == opt_at(
                    src@,
                    j,
                ).total && opt_at(out@, j).count == opt_at(src@, j).count && opt_at(
                    out@,
                    j,
                ).wait_queue@.len() == 0,
        decreases src@.len() - k,
    {
        let ghost pre: Seq<Option<SemState>> = out@;
        match &src[k] {
            Some(s) => {
                out.push(Some(SemState { total: s.total, count: s.count, wait_queue: Vec::new() }));
            },
            None => {
                out.push(None);
            },
        }
        proof {
            assert forall|j: int| opt_live(out@, j) implies (#[trigger] opt_at(out@, j)).total
                == opt_at(src@, j).total && opt_at(out@, j).count == opt_at(src@, j).count
                && opt_at(out@, j).wait_queue@.len() == 0 by {
                if j < pre.len() {
                    assert(out@[j] == pre[j]);
                    assert(opt_live(pre, j));
                    assert(opt_at(pre, j).total == opt_at(src@, j).total && opt_at(pre, j).count
                        == opt_at(src@, j).count && opt_at(pre, j).wait_queue@.len() == 0);
                }
            }
        }
        k += 1;
    }
    out
}

/// The child's view of the parent's condition-variable table: the same
/// handles, none with waiters in the child.
fn clone_condvars(src: &Vec<Option<CondvarState>>) -> (r: Vec<Option<CondvarState>>)
    ensures
        r@.len() == src@.len(),
        forall|j: int| 0 <= j < src@.len() ==> ((#[trigger] r@[j]) is Some <==> src@[j] is Some),
        forall|j: int|
            opt_live(r@, j) ==> (#[trigger] opt_at(r@, j)).wait_queue@.len() == 0,
{
    let mut out: Vec<Option<CondvarState>> = Vec::new();
    let mut k: usize = 0;
    #[verifier::loop_isolation(false)]
    while k < src.len()
        invariant
            k <= src@.len(),
            out@.len() == k,
            forall|j: int| 0 <= j < k ==> ((#[trigger] out@[j]) is Some <==> src@[j] is Some),
            forall|j: int|
                opt_live(out@, j) ==> (#[trigger] opt_at(out@, j)).wait_queue@.len() == 0,
        decreases src@.len() - k,
    {
        let ghost pre: Seq<Option<CondvarState>> = out@;
        match &src[k] {
            Some(_) => {
                out.push(Some(CondvarState { wait_queue: Vec::new() }));
            },
            None => {
                out.push(None);
            },
        }
        proof {
            assert forall|j: int| opt_live(out@, j) implies (#[trigger] opt_at(
                out@,
                j,
            )).wait_queue@.len() == 0 by {
                if j < pre.len() {
                    assert(out@[j] == pre[j]);
                    assert(opt_live(pre, j));
                    assert(opt_at(pre, j).wait_queue@.len() == 0);
                }
            }
        }
        k += 1;
    }
    out
}

/// An exact copy of one path.
fn copy_path(v: &Vec<u8>) -> (r: Vec<u8>)
    ensures
        r@ == v@,
{
    let mut out: Vec<u8> = Vec::new();
    let mut k: usize = 0;
    while k < v.len()
        invariant
            k <= v@.len(),
            out@ == v@.subrange(0, k as int),
        decreases v@.len() - k,
    {
        out.push(v[k]);
        proof {
            assert(out@ =~= v@.subrange(0, k + 1));
        }
        k += 1;
    }
    proof {
        assert(out@ =~= v@);
    }
    out
}

/// The child's copy of the parent's file-descriptor table.
fn clone_fd_table(src: &Vec<Option<FileHandle>>) -> (r: Vec<Option<FileHandle>>)
    ensures
        r@.len() == src@.len(),
        forall|j: int| 0 <= j < src@.len() ==> ((#[trigger] r@[j]) is Some <==> src@[j] is Some),
        forall|j: int|
            opt_live(r@, j) ==> (#[trigger] opt_at(r@, j)).readable == opt_at(src@, j).readable
                && opt_at(r@, j).writable == opt_at(src@, j).writable && opt_at(r@, j).ino
                == opt_at(src@, j).ino && opt_at(r@, j).path@ == opt_at(src@, j).path@,
{
    let mut out: Vec<Option<FileHandle>> = Vec::new();
    let mut k: usize = 0;
    #[verifier::loop_isolation(false)]
    while k < src.len()
        invariant
            k <= src@.len(),
            out@.len() == k,
            forall|j: int| 0 <= j < k ==> ((#[trigger] out@[j]) is Some <==> src@[j] is Some),
            forall|j: int|
                opt_live(out@, j) ==> (#[trigger] opt_at(out@, j)).readable == opt_at(
                    src@,
                    j,
                ).readable && opt_at(out@, j).writable == opt_at(src@, j).writable && opt_at(
                    out@,
                    j,
                ).ino == opt_at(src@, j).ino && opt_at(out@, j).path@ == opt_at(src@, j).path@,
        decreases src@.len() - k,
    {
        let ghost pre: Seq<Option<FileHandle>> = out@;
        match &src[k] {
            Some(h) => {
                let p: Vec<u8> = copy_path(&h.path);
                out.push(
                    Some(
                        FileHandle {
                            readable: h.readable,
                            writable: h.writable,
                            ino: h.ino,
                            path: p,
                        },
                    ),
                );
            },
            None => {
                out.push(None);
            },
        }
        proof {
            assert forall|j: int| opt_live(out@, j) implies (#[trigger] opt_at(out@, j)).readable
                == opt_at(src@, j).readable && opt_at(out@, j).writable == opt_at(
                src@,
                j,
            ).writable && opt_at(out@, j).ino == opt_at(src@, j).ino && opt_at(out@, j).path@
                == opt_at(src@, j).path@ by {
                if j < pre.len() {
                    assert(out@[j] == pre[j]);
                    assert(opt_live(pre, j));
                    assert(opt_at(pre, j).readable == opt_at(src@, j).readable && opt_at(
                        pre,
                        j,
                    ).writable == opt_at(src@, j).writable && opt_at(pre, j).ino == opt_at(
                        src@,
                        j,
                    ).ino && opt_at(pre, j).path@ == opt_at(src@, j).path@);
                }
            }
        }
        k += 1;
    }
    out
}

/// The child's copy of the parent's hard-link table.
fn clone_links(src: &Vec<(Vec<u8>, Vec<u8>)>) -> (r: Vec<(Vec<u8>, Vec<u8>)>)
    ensures
        r@.len() == src@.len(),
        forall|j: int|
            0 <= j < src@.len() ==> (#[trigger] r@[j]).0@ == src@[j].0@ && r@[j].1@ == src@[j].1@,
{
    let mut out: Vec<(Vec<u8>, Vec<u8>)> = Vec::new();
    let mut k: usize = 0;
    #[verifier::loop_isolation(false)]
    while k < src.len()
        invariant
            k <= src@.len(),
            out@.len() == k,
            forall|j: int|
                0 <= j < k ==> (#[trigger] out@[j]).0@ == src@[j].0@ && out@[j].1@ == src@[j].1@,
        decreases src@.len() - k,
    {
        let a: Vec<u8> = copy_path(&src[k].0);
        let b: Vec<u8> = copy_path(&src[k].1);
        out.push((a, b));
        k += 1;
    }
    out
}

impl Kernel {
    /// Duplicates process `caller`: the child gets the lowest free
    /// process id, a copy of the parent's address space and program
    /// break, copies of its open files, hard links and resource-table
    /// handles, a cleared accounting state, one ready task whose saved
    /// syscall return value is `0`, and a place in the parent's child
    /// list. The parent is handed the child's pid. With the table full
    /// the fork fails with `-1`. See `fork_child_ok` for how the shared
    /// handles carry the parent's lock state into the child, with wait
    /// bookkeeping kept per process.
    pub fn sys_fork(&mut self, caller: usize) -> (r: isize)
        requires
            old(self).wf(),
            old(self).proc_live(caller as int),
            !old(self).proc_at(caller as int).zombie,
        ensures
            final(self).wf(),
            r == -1 || r >= 0,
            r == -1 <==> first_free_index(old(self).processes@, 0) == old(self).processes@.len()
                && old(self).processes@.len() == MAX_PROCS,
            r == -1 ==> *final(self) == *old(self),
            r >= 0 ==> {
                &&& r == first_free_index(old(self).processes@, 0)
                &&& r != caller
                &&& final(self).processes@.len() == (if r < old(self).processes@.len() {
                    old(self).processes@.len() as int
                } else {
                    old(self).processes@.len() + 1int
                })
                &&& forall|p: int|
                    0 <= p < old(self).processes@.len() && p != r && p != caller
                        ==> final(self).processes@[p] == old(self).processes@[p]
                &&& final(self).proc_live(r as int)
                &&& fork_child_ok(
                    final(self).proc_at(r as int),
                    old(self).proc_at(caller as int),
                    r as int,
                )
                &&& final(self).proc_live(caller as int)
                &&& final(self).proc_at(caller as int).children@ == old(self).proc_at(
                    caller as int,
                ).children@.push(r as usize)
                &&& final(self).proc_at(caller as int).tasks == old(self).proc_at(
                    caller as int,
                ).tasks
                &&& final(self).proc_at(caller as int).mutexes == old(self).proc_at(
                    caller as int,
                ).mutexes
                &&& final(self).proc_at(caller as int).semaphores == old(self).proc_at(
                    caller as int,
                ).semaphores
                &&& final(self).proc_at(caller as int).condvars == old(self).proc_at(
                    caller as int,
                ).condvars
                &&& final(self).proc_at(caller as int).addr_space == old(self).proc_at(
                    caller as int,
                ).addr_space
                &&& final(self).proc_at(caller as int).zombie == old(self).proc_at(
                    caller as int,
                ).zombie
                &&& final(self).proc_at(caller as int).fd_table == old(self).proc_at(
                    caller as int,
                ).fd_table
                &&& final(self).proc_at(caller as int).link_table == old(self).proc_at(
                    caller as int,
                ).link_table
                &&& final(self).proc_at(caller as int).deadlock_detect == old(self).proc_at(
                    caller as int,
                ).deadlock_detect
                &&& final(self).proc_at(caller as int).pid == old(self).proc_at(
                    caller as int,
                ).pid
                &&& final(self).proc_at(caller as int).exit_code == old(self).proc_at(
                    caller as int,
                ).exit_code
                &&& final(self).proc_at(caller as int).heap_bottom == old(self).proc_at(
                    caller as int,
                ).heap_bottom
                &&& final(self).proc_at(caller as int).brk == old(self).proc_at(
                    caller as int,
                ).brk
            },
    {
        let cpid: usize = crate::sync::first_free_slot(&self.processes);
        if cpid == self.processes.len() && self.processes.len() >= MAX_PROCS {
            return -1;
        }
        proof {
            assert(cpid != caller);
        }
        let task: TaskControl = TaskControl::new(0);
        let mut tasks: Vec<Option<TaskControl>> = Vec::new();
        tasks.push(Some(task));
        let child: ProcessState = match &self.processes[caller] {
            Some(par) => ProcessState {
                pid: cpid,
                zombie: false,
                exit_code: 0,
                deadlock_detect: par.deadlock_detect,
                tasks,
                mutexes: clone_mutexes(&par.mutexes),
                semaphores: clone_semaphores(&par.semaphores),
                condvars: clone_condvars(&par.condvars),
                children: Vec::new(),
                addr_space: par.addr_space.duplicate(),
                heap_bottom: par.heap_bottom,
                brk: par.brk,
                fd_table: clone_fd_table(&par.fd_table),
                link_table: clone_links(&par.link_table),
            },
            None => {
                return -1;
            },
        };
        proof {
            let parent = old(self).proc_at(caller as int);
            assert(fork_child_ok(child, parent, cpid as int));
            assert(child.base_wf()) by {
                assert(parent.base_wf());
                assert(forall|k1: int, k2: int|
                    0 <= k1 < k2 < child.link_table@.len() ==> (
                    #[trigger] child.link_table@[k1]).0@ != (#[trigger] child.link_table@[k2]).0@)
                    by {
                    assert(links_ok(parent.link_table@));
                };
            };
            lemma_sync_fresh(child);
            assert(child.wf());
        }
        match &mut self.processes[caller] {
            Some(par) => {
                par.children.push(cpid);
            },
            None => {},
        }
        if cpid < self.processes.len() {
            self.processes[cpid] = Some(child);
        } else {
            self.processes.push(Some(child));
        }
        proof {
            let a = *old(self);
            let b = *self;
            assert(b.proc_at(caller as int).children@ =~= a.proc_at(caller as int).children@.push(
                cpid,
            ));
            assert(b.proc_at(caller as int).wf()) by {
                assert(a.proc_at(caller as int).wf());
            };
            assert forall|p: int| b.proc_live(p) implies (#[trigger] b.proc_at(p)).wf()
                && b.proc_at(p).pid == p by {
                if p != caller && p != cpid {
                    assert(b.processes@[p] == a.processes@[p]);
                    assert(a.proc_at(p).wf() && a.proc_at(p).pid == p);
                }
            }
            assert forall|p: int, k: int|
                b.proc_live(p) && 0 <= k < b.proc_at(p).children@.len() implies b.proc_live(
                #[trigger] b.proc_at(p).children@[k] as int,
            ) && b.proc_at(p).children@[k] != p by {
                if p == cpid {
                } else {
                    let ch0 = a.proc_at(p).children@;
                    if p == caller && k == ch0.len() {
                        assert(b.proc_at(p).children@[k] == cpid);
                    } else {
                        assert(b.proc_at(p).children@[k] == ch0[k]);
                        assert(a.proc_live(ch0[k] as int));
                        assert(ch0[k] != cpid);
                    }
                }
            }
            assert forall|p: int, k1: int, k2: int|
                b.proc_live(p) && 0 <= k1 < k2 < b.proc_at(p).children@.len() implies (
            #[trigger] b.proc_at(p).children@[k1]) != (#[trigger] b.proc_at(p).children@[k2]) by {
                if p != cpid {
                    let ch0 = a.proc_at(p).children@;
                    if p == caller && k2 == ch0.len() {
                        assert(b.proc_at(p).children@[k1] == ch0[k1]);
                        assert(a.proc_live(ch0[k1] as int));
                        assert(ch0[k1] != cpid);
                    } else {
                        assert(b.proc_at(p).children@[k1] == ch0[k1]);
                        assert(b.proc_at(p).children@[k2] == ch0[k2]);
                    }
                }
            }
            assert forall|p1: int, p2: int, k1: int, k2: int|
                b.proc_live(p1) && b.proc_live(p2) && p1 != p2 && 0 <= k1 < b.proc_at(
                    p1,
                ).children@.len() && 0 <= k2 < b.proc_at(p2).children@.len() implies (
            #[trigger] b.proc_at(p1).children@[k1]) != (#[trigger] b.proc_at(
                p2,
            ).children@[k2]) by {
                if p1 != cpid && p2 != cpid {
                    let c1 = a.proc_at(p1).children@;
                    let c2 = a.proc_at(p2).children@;
                    if p1 == caller && k1 == c1.len() {
                        assert(b.proc_at(p1).children@[k1] == cpid);
                        assert(b.proc_at(p2).children@[k2] == c2[k2]);
                        assert(a.proc_live(c2[k2] as int));
                        assert(c2[k2] != cpid);
                    } else if p2 == caller && k2 == c2.len() {
                        assert(b.proc_at(p2).children@[k2] == cpid);
                        assert(b.proc_at(p1).children@[k1] == c1[k1]);
                        assert(a.proc_live(c1[k1] as int));
                        assert(c1[k1] != cpid);
                    } else {
                        assert(b.proc_at(p1).children@[k1] == c1[k1]);
                        assert(b.proc_at(p2).children@[k2] == c2[k2]);
                        assert(a.proc_live(c1[k1] as int) && a.proc_live(c2[k2] as int));
                    }
                }
            }
        }
        cpid as isize
    }
}

impl Kernel {
    /// Index of the first child of `caller` at or after `k` that matches
    /// `target` and has already exited.
    pub open spec fn first_zombie_child(self, caller: int, target: isize, k: int) -> Option<int>
        decreases self.proc_at(caller).children@.len() - k,
    {
        let ch = self.proc_at(caller).children@;
        if k < 0 || k >= ch.len() {
            None
        } else if kid_matches(ch[k], target) && self.proc_live(ch[k] as int) && self.proc_at(
            ch[k] as int,
        ).zombie {
            Some(k)
        } else {
            self.first_zombie_child(caller, target, k + 1)
        }
    }

    /// True when some child of `caller` matches `target`.
    pub open spec fn has_matching_child(self, caller: int, target: isize) -> bool {
        exists|k: int|
            0 <= k < self.proc_at(caller).children@.len() && kid_matches(
                #[trigger] self.proc_at(caller).children@[k],
                target,
            )
    }

    /// Reaps one exited child of `caller`. `target` selects the child by
    /// pid, `-1` matching any. With no matching child at all the call
    /// fails with `-1`; with matching children that are all still running
    /// it reports `-2` so the caller can poll. Otherwise the first
    /// matching zombie child is removed from the child list and the
    /// process table in one step — no other task can observe it half
    /// reaped — and its pid is returned along with its exit code, which
    /// the facade writes to the caller-supplied location.
    pub fn sys_waitpid(&mut self, caller: usize, target: isize) -> (r: (isize, Option<i32>))
        requires
            old(self).wf(),
            old(self).proc_live(caller as int),
        ensures
            final(self).wf(),
            !old(self).has_matching_child(caller as int, target) ==> r == (-1isize, None::<i32>)
                && *final(self) == *old(self),
            old(self).has_matching_child(caller as int, target) && old(self).first_zombie_child(
                caller as int,
                target,
                0,
            ) is None ==> r == (-2isize, None::<i32>) && *final(self) == *old(self),
            old(self).has_matching_child(caller as int, target) && old(self).first_zombie_child(
                caller as int,
                target,
                0,
            ) is Some ==> {
                let k = old(self).first_zombie_child(caller as int, target, 0)->Some_0;
                let c = old(self).proc_at(caller as int).children@[k] as int;
                &&& r.0 == c
                &&& r.1 == Some(old(self).proc_at(c).exit_code)
                &&& final(self).processes@.len() == old(self).processes@.len()
                &&& final(self).processes@[c] is None
                &&& forall|p: int|
                    0 <= p < old(self).processes@.len() && p != c && p != caller
                        ==> final(self).processes@[p] == old(self).processes@[p]
                &&& final(self).proc_live(caller as int)
                &&& final(self).proc_at(caller as int).children@ == old(self).proc_at(
                    caller as int,
                ).children@.remove(k)
                &&& final(self).proc_at(caller as int).tasks == old(self).proc_at(
                    caller as int,
                ).tasks
                &&& final(self).proc_at(caller as int).mutexes == old(self).proc_at(
                    caller as int,
                ).mutexes
                &&& final(self).proc_at(caller as int).semaphores == old(self).proc_at(
                    caller as int,
                ).semaphores
                &&& final(self).proc_at(caller as int).condvars == old(self).proc_at(
                    caller as int,
                ).condvars
                &&& final(self).proc_at(caller as int).addr_space == old(self).proc_at(
                    caller as int,
                ).addr_space
                &&& final(self).proc_at(caller as int).fd_table == old(self).proc_at(
                    caller as int,
                ).fd_table
                &&& final(self).proc_at(caller as int).link_table == old(self).proc_at(
                    caller as int,
                ).link_table
                &&& final(self).proc_at(caller as int).zombie == old(self).proc_at(
                    caller as int,
                ).zombie
            },
    {
        let nch: usize = match &self.processes[caller] {
            Some(p) => p.children.len(),
            None => 0,
        };
        let mut any_match: bool = false;
        let mut k: usize = 0;
        #[verifier::loop_isolation(false)]
        while k < nch
            invariant
                k <= nch,
                *self == *old(self),
                nch == self.proc_at(caller as int).children@.len(),
                any_match == exists|j: int|
                    0 <= j < k && kid_matches(
                        #[trigger] self.proc_at(caller as int).children@[j],
                        target,
                    ),
            decreases nch - k,
        {
            let c: usize = match &self.processes[caller] {
                Some(p) => p.children[k],
                None => 0,
            };
            if target == -1 || (target >= 0 && c == target as usize) {
                any_match = true;
            }
            proof {
                if any_match {
                    assert(exists|j: int|
                        0 <= j < k + 1 && kid_matches(
                            #[trigger] self.proc_at(caller as int).children@[j],
                            target,
                        ));
                }
            }
            k += 1;
        }
        if !any_match {
            return (-1, None);
        }
        let mut zidx: usize = nch;
        let mut k: usize = 0;
        #[verifier::loop_isolation(false)]
        while k < nch && zidx == nch
            invariant
                k <= nch,
                zidx <= nch,
                *self == *old(self),
                nch == self.proc_at(caller as int).children@.len(),
                zidx == nch ==> self.first_zombie_child(caller as int, target, 0)
                    == self.first_zombie_child(caller as int, target, k as int),
                zidx < nch ==> self.first_zombie_child(caller as int, target, 0) == Some(
                    zidx as int,
                ),
            decreases nch - k + (if zidx == nch {
                1int
            } else {
                0int
            }),
        {
            let c: usize = match &self.processes[caller] {
                Some(p) => p.children[k],
                None => 0,
            };
            let matched: bool = target == -1 || (target >= 0 && c == target as usize);
            if matched {
                proof {
                    assert(self.proc_live(c as int));
                }
                let z: bool = match &self.processes[c] {
                    Some(q) => q.zombie,
                    None => false,
                };
                if z {
                    proof {
                        assert(self.first_zombie_child(caller as int, target, k as int) == Some(
                            k as int,
                        ));
                    }
                    zidx = k;
                } else {
                    proof {
                        assert(self.first_zombie_child(caller as int, target, k as int)
                            == self.first_zombie_child(caller as int, target, k + 1));
                    }
                    k += 1;
                }
            } else {
                proof {
                    assert(self.first_zombie_child(caller as int, target, k as int)
                        == self.first_zombie_child(caller as int, target, k + 1));
                }
                k += 1;
            }
        }
        if zidx == nch {
            proof {
                assert(self.first_zombie_child(caller as int, target, nch as int) is None);
            }
            return (-2, None);
        }
        let c: usize = match &self.processes[caller] {
            Some(p) => p.children[zidx],
            None => 0,
        };
        proof {
            assert(self.proc_live(c as int));
            assert(c != caller);
        }
        let code: i32 = match &self.processes[c] {
            Some(q) => q.exit_code,
            None => 0,
        };
        match &mut self.processes[caller] {
            Some(p) => {
                let _removed: usize = p.children.remove(zidx);
            },
            None => {},
        }
        self.processes[c] = None;
        proof {
            let a = *old(self);
            let b = *self;
            let ch0 = a.proc_at(caller as int).children@;
            assert(b.proc_at(caller as int).children@ =~= ch0.remove(zidx as int));
            assert(b.proc_at(caller as int).wf()) by {
                assert(a.proc_at(caller as int).wf());
            };
            assert forall|p: int| b.proc_live(p) implies (#[trigger] b.proc_at(p)).wf()
                && b.proc_at(p).pid == p by {
                assert(p != c);
                if p != caller {
                    assert(b.processes@[p] == a.processes@[p]);
                    assert(a.proc_at(p).wf() && a.proc_at(p).pid == p);
                }
            }
            assert forall|p: int, k1: int|
                b.proc_live(p) && 0 <= k1 < b.proc_at(p).children@.len() implies b.proc_live(
                #[trigger] b.proc_at(p).children@[k1] as int,
            ) && b.proc_at(p).children@[k1] != p by {
                assert(p != c);
                if p == caller {
                    let o1: int = if k1 < zidx {
                        k1
                    } else {
                        k1 + 1
                    };
                    assert(b.proc_at(p).children@[k1] == ch0[o1]);
                    assert(a.proc_live(ch0[o1] as int) && ch0[o1] != p);
                    assert(ch0[o1] != ch0[zidx as int]);
                } else {
                    assert(b.proc_at(p).children@[k1] == a.proc_at(p).children@[k1]);
                    assert(a.proc_live(a.proc_at(p).children@[k1] as int) && a.proc_at(
                        p,
                    ).children@[k1] != p);
                    assert(a.proc_at(p).children@[k1] != ch0[zidx as int]);
                }
            }
            assert forall|p: int, k1: int, k2: int|
                b.proc_live(p) && 0 <= k1 < k2 < b.proc_at(p).children@.len() implies (
            #[trigger] b.proc_at(p).children@[k1]) != (#[trigger] b.proc_at(p).children@[k2]) by {
                if p == caller {
                    let o1: int = if k1 < zidx {
                        k1
                    } else {
                        k1 + 1
                    };
                    let o2: int = if k2 < zidx {
                        k2
                    } else {
                        k2 + 1
                    };
                    assert(b.proc_at(p).children@[k1] == ch0[o1]);
                    assert(b.proc_at(p).children@[k2] == ch0[o2]);
                } else {
                    assert(b.proc_at(p).children@[k1] == a.proc_at(p).children@[k1]);
                    assert(b.proc_at(p).children@[k2] == a.proc_at(p).children@[k2]);
                }
            }
            assert forall|p1: int, p2: int, k1: int, k2: int|
                b.proc_live(p1) && b.proc_live(p2) && p1 != p2 && 0 <= k1 < b.proc_at(
                    p1,
                ).children@.len() && 0 <= k2 < b.proc_at(p2).children@.len() implies (
            #[trigger] b.proc_at(p1).children@[k1]) != (#[trigger] b.proc_at(
                p2,
            ).children@[k2]) by {
                let o1: int = if p1 == caller && k1 >= zidx {
                    k1 + 1
                } else {
                    k1
                };
                let o2: int = if p2 == caller && k2 >= zidx {
                    k2 + 1
                } else {
                    k2
                };
                assert(b.proc_at(p1).children@[k1] == a.proc_at(p1).children@[o1]);
                assert(b.proc_at(p2).children@[k2] == a.proc_at(p2).children@[o2]);
            }
        }
        (c as isize, Some(code))
    }

    /// Creates a process directly from a loaded program image, without
    /// duplicating the caller: `image` is the external loader's product,
    /// `None` when the program was not found or unreadable, reported as
    /// `-1`. A full process table is reported distinctly as `-2` (the
    /// process-creation step failed, not the image lookup). On success
    /// the fresh process, with one ready task and empty resource tables,
    /// is registered as a child of the caller and its pid is returned.
    pub fn sys_spawn(&mut self, caller: usize, image: Option<AddressSpace>) -> (r: isize)
        requires
            old(self).wf(),
            old(self).proc_live(caller as int),
            !old(self).proc_at(caller as int).zombie,
            image is Some ==> image->Some_0.wf(),
        ensures
            final(self).wf(),
            r == -1 || r == -2 || r >= 0,
            r == -1 <==> image is None,
            r == -2 <==> image is Some && first_free_index(old(self).processes@, 0) == old(
                self,
            ).processes@.len() && old(self).processes@.len() == MAX_PROCS,
            r == -1 || r == -2 ==> *final(self) == *old(self),
            r >= 0 ==> {
                &&& r == first_free_index(old(self).processes@, 0)
                &&& r != caller
                &&& final(self).processes@.len() == (if r < old(self).processes@.len() {
                    old(self).processes@.len() as int
                } else {
                    old(self).processes@.len() + 1int
                })
                &&& forall|p: int|
                    0 <= p < old(self).processes@.len() && p != r && p != caller
                        ==> final(self).processes@[p] == old(self).processes@[p]
                &&& final(self).proc_live(r as int)
                &&& final(self).proc_at(r as int).pid == r
                &&& !final(self).proc_at(r as int).zombie
                &&& final(self).proc_at(r as int).tasks@.len() == 1
                &&& final(self).proc_at(r as int).task_at(0).is_fresh(0)
                &&& final(self).proc_at(r as int).mutexes@.len() == 0
                &&& final(self).proc_at(r as int).semaphores@.len() == 0
                &&& final(self).proc_at(r as int).condvars@.len() == 0
                &&& final(self).proc_at(r as int).children@.len() == 0
                &&& final(self).proc_at(r as int).addr_space == image->Some_0
                &&& !final(self).proc_at(r as int).deadlock_detect
                &&& final(self).proc_live(caller as int)
                &&& final(self).proc_at(caller as int).children@ == old(self).proc_at(
                    caller as int,
                ).children@.push(r as usize)
                &&& final(self).proc_at(caller as int).tasks == old(self).proc_at(
                    caller as int,
                ).tasks
                &&& final(self).proc_at(caller as int).zombie == old(self).proc_at(
                    caller as int,
                ).zombie
            },
    {
        let space: AddressSpace = match image {
            Some(s) => s,
            None => {
                return -1;
            },
        };
        let cpid: usize = crate::sync::first_free_slot(&self.processes);
        if cpid == self.processes.len() && self.processes.len() >= MAX_PROCS {
            return -2;
        }
        proof {
            assert(cpid != caller);
        }
        let mut child: ProcessState = ProcessState::new(cpid);
        child.addr_space = space;
        proof {
            lemma_sync_fresh(child);
            assert(child.wf());
        }
        match &mut self.processes[caller] {
            Some(par) => {
                par.children.push(cpid);
            },
            None => {},
        }
        if cpid < self.processes.len() {
            self.processes[cpid] = Some(child);
        } else {
            self.processes.push(Some(child));
        }
        proof {
            let a = *old(self);
            let b = *self;
            assert(b.proc_at(caller as int).children@ =~= a.proc_at(caller as int).children@.push(
                cpid,
            ));
            assert(b.proc_at(caller as int).wf()) by {
                assert(a.proc_at(caller as int).wf());
            };
            assert forall|p: int| b.proc_live(p) implies (#[trigger] b.proc_at(p)).wf()
                && b.proc_at(p).pid == p by {
                if p != caller && p != cpid {
                    assert(b.processes@[p] == a.processes@[p]);
                    assert(a.proc_at(p).wf() && a.proc_at(p).pid == p);
                }
            }
            assert forall|p: int, k: int|
                b.proc_live(p) && 0 <= k < b.proc_at(p).children@.len() implies b.proc_live(
                #[trigger] b.proc_at(p).children@[k] as int,
            ) && b.proc_at(p).children@[k] != p by {
                if p == cpid {
                } else {
                    let ch0 = a.proc_at(p).children@;
                    if p == caller && k == ch0.len() {
                        assert(b.proc_at(p).children@[k] == cpid);
                    } else {
                        assert(b.proc_at(p).children@[k] == ch0[k]);
                        assert(a.proc_live(ch0[k] as int));
                        assert(ch0[k] != cpid);
                    }
                }
            }
            assert forall|p: int, k1: int, k2: int|
                b.proc_live(p) && 0 <= k1 < k2 < b.proc_at(p).children@.len() implies (
            #[trigger] b.proc_at(p).children@[k1]) != (#[trigger] b.proc_at(p).children@[k2]) by {
                if p != cpid {
                    let ch0 = a.proc_at(p).children@;
                    if p == caller && k2 == ch0.len() {
                        assert(b.proc_at(p).children@[k1] == ch0[k1]);
                        assert(a.proc_live(ch0[k1] as int));
                        assert(ch0[k1] != cpid);
                    } else {
                        assert(b.proc_at(p).children@[k1] == ch0[k1]);
                        assert(b.proc_at(p).children@[k2] == ch0[k2]);
                    }
                }
            }
            assert forall|p1: int, p2: int, k1: int, k2: int|
                b.proc_live(p1) && b.proc_live(p2) && p1 != p2 && 0 <= k1 < b.proc_at(
                    p1,
                ).children@.len() && 0 <= k2 < b.proc_at(p2).children@.len() implies (
            #[trigger] b.proc_at(p1).children@[k1]) != (#[trigger] b.proc_at(
                p2,
            ).children@[k2]) by {
                if p1 != cpid && p2 != cpid {
                    let c1 = a.proc_at(p1).children@;
                    let c2 = a.proc_at(p2).children@;
                    if p1 == caller && k1 == c1.len() {
                        assert(b.proc_at(p1).children@[k1] == cpid);
                        assert(b.proc_at(p2).children@[k2] == c2[k2]);
                        assert(a.proc_live(c2[k2] as int));
                        assert(c2[k2] != cpid);
                    } else if p2 == caller && k2 == c2.len() {
                        assert(b.proc_at(p2).children@[k2] == cpid);
                        assert(b.proc_at(p1).children@[k1] == c1[k1]);
                        assert(a.proc_live(c1[k1] as int));
                        assert(c1[k1] != cpid);
                    } else {
                        assert(b.proc_at(p1).children@[k1] == c1[k1]);
                        assert(b.proc_at(p2).children@[k2] == c2[k2]);
                        assert(a.proc_live(c1[k1] as int) && a.proc_live(c2[k2] as int));
                    }
                }
            }
        }
        cpid as isize
    }
}

} // verus!
