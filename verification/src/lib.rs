//! Resource-management core of a small teaching operating system kernel.
//!
//! The crate models, as verified data structures, the kernel's task and
//! process lifecycle (fork, exec, wait, exit, spawn), page-granular virtual
//! memory regions, per-process resource tables with first-fit slot reuse,
//! kernel-mediated synchronization primitives (mutexes, counting semaphores,
//! condition variables), and a generalized Banker's-algorithm deadlock
//! detector that gates blocking acquisitions.
//!
//! External collaborators (the page-table walker, the file store, the
//! scheduler's dispatch loop and the timer source) are out of scope: every
//! operation takes the calling process/task identity and any collaborator
//! result as explicit arguments, and suspension is reported to the caller as
//! an explicit outcome rather than performed.
use vstd::prelude::*;

pub mod bankers;
pub mod fsops;
pub mod kernel;
pub mod process;
pub mod sync;
pub mod task;
pub mod vm;

verus! {

/// Number of bytes in one page.
pub const PAGE_SIZE: usize = 4096;

/// Number of resource slots per class that the allocation/need vectors and
/// the deadlock detector cover.
pub const RESOURCE_SLOTS: usize = 8;

/// Most tasks a single process may hold.
pub const MAX_TASKS: usize = 1024;

/// Most process table entries the kernel may hold.
pub const MAX_PROCS: usize = 1024;

/// Most slots a resource or file table may hold.
pub const MAX_TABLE: usize = 0x7FFF_FFFF;

/// Distinguished return value of a lock or semaphore-down request that the
/// deadlock detector refused instead of letting the caller block.
pub const DEADLOCK_AVOIDED: isize = -0xDEAD;

/// Outcome of a syscall that may suspend the calling task.
///
/// `Done` carries the value returned to the caller at once; `Suspend` means
/// the calling task was blocked and control goes to the scheduler, the
/// syscall's value being delivered when the task is later woken.
#[derive(PartialEq, Eq, Structural, Clone, Copy, Debug)]
pub enum SysOutcome {
    Done(isize),
    Suspend,
}

} // verus!
