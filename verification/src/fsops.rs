//! File-descriptor and hard-link bookkeeping: the kernel-side validation
//! and table logic of the file syscalls. The persistent store itself is an
//! external collaborator; its answers (an inode for an opened path) enter
//! as explicit arguments.
use vstd::prelude::*;

use crate::process::{opt_live, FileHandle, ProcessState};
use crate::sync::first_free_index;
use crate::MAX_TABLE;

verus! {

/// File-mode value reported for a regular file.
pub const STAT_MODE_FILE: u32 = 0o100000;

/// Open-flag bit requesting write-only access.
pub const OPEN_WRONLY: u32 = 0x1;

/// Open-flag bit requesting read-write access.
pub const OPEN_RDWR: u32 = 0x2;

/// Open-flag bit asking the store to create the file.
pub const OPEN_CREATE: u32 = 0x200;

/// Open-flag bit asking the store to truncate the file.
pub const OPEN_TRUNC: u32 = 0x400;

/// True when `flags` sets no bit outside the recognized open-flag set.
pub open spec fn valid_open_flags(flags: u32) -> bool {
    flags & !(OPEN_WRONLY | OPEN_RDWR | OPEN_CREATE | OPEN_TRUNC) == 0
}

/// Read access that `flags` grants: everything but write-only.
pub open spec fn flags_readable(flags: u32) -> bool {
    flags & OPEN_WRONLY == 0
}

/// Write access that `flags` grants.
pub open spec fn flags_writable(flags: u32) -> bool {
    flags & OPEN_WRONLY != 0 || flags & OPEN_RDWR != 0
}

/// The canonical path the hard-link table maps `key` to, scanning from
/// entry `k`.
pub open spec fn link_lookup(links: Seq<(Vec<u8>, Vec<u8>)>, key: Seq<u8>, k: int) -> Option<
    Seq<u8>,
>
    decreases links.len() - k,
{
    if k < 0 || k >= links.len() {
        None
    } else if links[k].0@ == key {
        Some(links[k].1@)
    } else {
        link_lookup(links, key, k + 1)
    }
}

/// Number of hard-link entries whose canonical path is `name`.
pub open spec fn link_count(links: Seq<(Vec<u8>, Vec<u8>)>, name: Seq<u8>) -> nat
    decreases links.len(),
{
    if links.len() == 0 {
        0nat
    } else {
        (if links.last().1@ == name {
            1nat
        } else {
            0nat
        }) + link_count(links.drop_last(), name)
    }
}

/// Byte-wise equality of two paths.
fn bytes_eq(a: &Vec<u8>, b: &Vec<u8>) -> (r: bool)
    ensures
        r == (a@ == b@),
{
    if a.len() != b.len() {
        return false;
    }
    let mut k: usize = 0;
    while k < a.len()
        invariant
            k <= a@.len(),
            a@.len() == b@.len(),
            forall|j: int| 0 <= j < k ==> a@[j] == b@[j],
        decreases a@.len() - k,
    {
        if a[k] != b[k] {
            return false;
        }
        k += 1;
    }
    proof {
        assert(a@ =~= b@);
    }
    true
}

/// An exact copy of a path.
fn copy_bytes(v: &Vec<u8>) -> (r: Vec<u8>)
    ensures
        r@ == v@,
{
    let mut out: Vec<u8> = Vec::new();
    let mut k: usize = 0;
    while k < v.len()
        invariant
            k <= v@.len(),
            out@ == v@.subrange(0, k as int),
        decreases v@.len() - k,
    {
        out.push(v[k]);
        proof {
            assert(out@ =~= v@.subrange(0, k + 1));
        }
        k += 1;
    }
    proof {
        assert(out@ =~= v@);
    }
    out
}

/// File metadata reported to user space: device, inode, mode and the
/// number of hard links resolving to the file.
#[derive(Debug)]
pub struct Stat {
    pub dev: u64,
    pub ino: u64,
    pub mode: u32,
    pub nlink: usize,
}

impl ProcessState {
    /// The index of the hard-link entry whose key is `key`, if any.
    pub open spec fn link_key_index(self, key: Seq<u8>) -> Option<int> {
        if exists|k: int| 0 <= k < self.link_table@.len() && (#[trigger] self.link_table@[k]).0@
            == key {
            Some(
                choose|k: int|
                    0 <= k < self.link_table@.len() && (#[trigger] self.link_table@[k]).0@ == key,
            )
        } else {
            None
        }
    }

    /// Scans the hard-link table for `key` and returns a copy of its
    /// canonical path.
    fn link_find(&self, key: &Vec<u8>) -> (r: Option<Vec<u8>>)
        ensures
            match r {
                Some(v) => link_lookup(self.link_table@, key@, 0) == Some(v@),
                None => link_lookup(self.link_table@, key@, 0) is None,
            },
    {
        let mut k: usize = 0;
        #[verifier::loop_isolation(false)]
        while k < self.link_table.len()
            invariant
                k <= self.link_table@.len(),
                link_lookup(self.link_table@, key@, 0) == link_lookup(
                    self.link_table@,
                    key@,
                    k as int,
                ),
            decreases self.link_table@.len() - k,
        {
            if bytes_eq(&self.link_table[k].0, key) {
                let out: Vec<u8> = copy_bytes(&self.link_table[k].1);
                return Some(out);
            }
            k += 1;
        }
        None
    }
}

impl ProcessState {
    /// Opens `path` with the given flags. The hard-link table resolves the
    /// path to its canonical form; a path it does not know can only be
    /// opened with the create flag, which also registers the path as its
    /// own canonical form. `store` is the external store's answer for the
    /// canonical path: the inode it opened, or `None` on failure. On
    /// success the lowest free file descriptor is handed out.
    pub fn sys_open(&mut self, path: &Vec<u8>, flags: u32, store: Option<u64>) -> (r: isize)
        requires
            old(self).wf(),
            old(self).fd_table@.len() < MAX_TABLE,
            old(self).link_table@.len() < MAX_TABLE,
        ensures
            final(self).wf(),
            r == -1 || r >= 0,
            r == -1 <==> !valid_open_flags(flags) || (link_lookup(old(self).link_table@, path@, 0)
                is None && flags & OPEN_CREATE == 0) || store is None,
            r == -1 ==> *final(self) == *old(self),
            r >= 0 ==> {
                &&& r == first_free_index(old(self).fd_table@, 0)
                &&& final(self).fd_table@.len() == (if r < old(self).fd_table@.len() {
                    old(self).fd_table@.len() as int
                } else {
                    old(self).fd_table@.len() + 1int
                })
                &&& forall|j: int|
                    0 <= j < old(self).fd_table@.len() && j != r ==> final(self).fd_table@[j]
                        == old(self).fd_table@[j]
                &&& opt_live(final(self).fd_table@, r as int)
                &&& final(self).fd_table@[r as int]->Some_0.readable == flags_readable(flags)
                &&& final(self).fd_table@[r as int]->Some_0.writable == flags_writable(flags)
                &&& final(self).fd_table@[r as int]->Some_0.ino == store->Some_0
                &&& final(self).fd_table@[r as int]->Some_0.path@ == (match link_lookup(
                    old(self).link_table@,
                    path@,
                    0,
                ) {
                    Some(c) => c,
                    None => path@,
                })
                &&& (link_lookup(old(self).link_table@, path@, 0) is Some
                    ==> final(self).link_table@ == old(self).link_table@)
                &&& (link_lookup(old(self).link_table@, path@, 0) is None ==> {
                    &&& final(self).link_table@.len() == old(self).link_table@.len() + 1
                    &&& forall|j: int|
                        0 <= j < old(self).link_table@.len() ==> final(self).link_table@[j] == old(
                            self,
                        ).link_table@[j]
                    &&& final(self).link_table@.last().0@ == path@
                    &&& final(self).link_table@.last().1@ == path@
                })
                &&& final(self).tasks == old(self).tasks
                &&& final(self).mutexes == old(self).mutexes
                &&& final(self).semaphores == old(self).semaphores
                &&& final(self).condvars == old(self).condvars
                &&& final(self).addr_space == old(self).addr_space
                &&& final(self).zombie == old(self).zombie
                &&& final(self).pid == old(self).pid
            },
    {
        if (flags & !(OPEN_WRONLY | OPEN_RDWR | OPEN_CREATE | OPEN_TRUNC)) != 0 {
            return -1;
        }
        let found: Option<Vec<u8>> = self.link_find(path);
        let create_new: bool = match &found {
            Some(_) => false,
            None => true,
        };
        if create_new && (flags & OPEN_CREATE) == 0 {
            return -1;
        }
        let ino: u64 = match store {
            Some(i) => i,
            None => {
                return -1;
            },
        };
        let canonical: Vec<u8> = match found {
            Some(c) => c,
            None => copy_bytes(path),
        };
        if create_new {
            let k1: Vec<u8> = copy_bytes(path);
            let k2: Vec<u8> = copy_bytes(path);
            self.link_table.push((k1, k2));
            proof {
                assert forall|x1: int, x2: int|
                    0 <= x1 < x2 < self.link_table@.len() implies (
                #[trigger] self.link_table@[x1]).0@ != (#[trigger] self.link_table@[x2]).0@ by {
                    if x2 == self.link_table@.len() - 1 {
                        assert(self.link_table@[x1] == old(self).link_table@[x1]);
                        if old(self).link_table@[x1].0@ == path@ {
                            lemma_link_lookup_finds(old(self).link_table@, path@, 0, x1);
                            assert(false);
                        }
                        assert(self.link_table@[x2].0@ == path@);
                    } else {
                        assert(self.link_table@[x1] == old(self).link_table@[x1]);
                        assert(self.link_table@[x2] == old(self).link_table@[x2]);
                    }
                }
            }
        }
        let readable: bool = (flags & OPEN_WRONLY) == 0;
        let writable: bool = (flags & OPEN_WRONLY) != 0 || (flags & OPEN_RDWR) != 0;
        let handle: FileHandle = FileHandle { readable, writable, ino, path: canonical };
        let fd: usize = crate::sync::first_free_slot(&self.fd_table);
        if fd < self.fd_table.len() {
            self.fd_table[fd] = Some(handle);
        } else {
            self.fd_table.push(Some(handle));
        }
        fd as isize
    }

    /// Closes file descriptor `fd`, freeing its slot for reuse; an
    /// out-of-range or empty descriptor is rejected with `-1`.
    pub fn sys_close(&mut self, fd: usize) -> (r: isize)
        requires
            old(self).wf(),
        ensures
            final(self).wf(),
            r == 0 || r == -1,
            r == 0 <==> opt_live(old(self).fd_table@, fd as int),
            r == -1 ==> *final(self) == *old(self),
            r == 0 ==> final(self).fd_table@ == old(self).fd_table@.update(fd as int, None::<
                FileHandle,
            >) && final(self).tasks == old(self).tasks && final(self).link_table == old(
                self,
            ).link_table,
    {
        if fd >= self.fd_table.len() {
            return -1;
        }
        let occupied: bool = match &self.fd_table[fd] {
            Some(_) => true,
            None => false,
        };
        if !occupied {
            return -1;
        }
        self.fd_table[fd] = None;
        proof {
            assert(self.fd_table@ =~= old(self).fd_table@.update(fd as int, None::<FileHandle>));
        }
        0
    }

    /// Validates a write request of `len` bytes on descriptor `fd`: the
    /// descriptor must be open and writable. The transfer itself belongs
    /// to the external store; `transferred` is the byte count the file
    /// object reports back (at most the requested length — a partial
    /// transfer is a shorter count), and it is what the caller receives.
    pub fn sys_write(&self, fd: usize, len: usize, transferred: usize) -> (r: isize)
        requires
            self.wf(),
            len <= isize::MAX as usize,
            transferred <= len,
        ensures
            r == -1 || r == transferred,
            r == -1 <==> !(opt_live(self.fd_table@, fd as int) && self.fd_table@[fd as int]
                ->Some_0.writable),
    {
        if fd >= self.fd_table.len() {
            return -1;
        }
        match &self.fd_table[fd] {
            Some(h) => {
                if h.writable {
                    transferred as isize
                } else {
                    -1
                }
            },
            None => -1,
        }
    }

    /// Validates a read request of `len` bytes on descriptor `fd`: the
    /// descriptor must be open and readable. The transfer itself belongs
    /// to the external store; `transferred` is the byte count the file
    /// object reports back (at most the requested length — a short count
    /// covers partial reads and end-of-file, `0` at the end), and it is
    /// what the caller receives.
    pub fn sys_read(&self, fd: usize, len: usize, transferred: usize) -> (r: isize)
        requires
            self.wf(),
            len <= isize::MAX as usize,
            transferred <= len,
        ensures
            r == -1 || r == transferred,
            r == -1 <==> !(opt_live(self.fd_table@, fd as int) && self.fd_table@[fd as int]
                ->Some_0.readable),
    {
        if fd >= self.fd_table.len() {
            return -1;
        }
        match &self.fd_table[fd] {
            Some(h) => {
                if h.readable {
                    transferred as isize
                } else {
                    -1
                }
            },
            None => -1,
        }
    }

    /// Reports metadata for descriptor `fd`: the stored inode, the regular
    /// file mode, and the number of hard-link entries resolving to the
    /// file's canonical path. An out-of-range or empty descriptor is
    /// rejected with `-1` and no record.
    pub fn sys_fstat(&self, fd: usize) -> (r: (isize, Option<Stat>))
        requires
            self.wf(),
        ensures
            r.0 == 0 || r.0 == -1,
            r.0 == 0 <==> opt_live(self.fd_table@, fd as int),
            r.0 == -1 ==> r.1 is None,
            r.0 == 0 ==> match r.1 {
                Some(st) => {
                    &&& st.dev == 0
                    &&& st.ino == self.fd_table@[fd as int]->Some_0.ino
                    &&& st.mode == STAT_MODE_FILE
                    &&& st.nlink == link_count(
                        self.link_table@,
                        self.fd_table@[fd as int]->Some_0.path@,
                    )
                },
                None => false,
            },
    {
        if fd >= self.fd_table.len() {
            return (-1, None);
        }
        let (ino, name): (u64, Vec<u8>) = match &self.fd_table[fd] {
            Some(h) => (h.ino, copy_bytes(&h.path)),
            None => {
                return (-1, None);
            },
        };
        let mut cnt: usize = 0;
        let mut k: usize = 0;
        #[verifier::loop_isolation(false)]
        while k < self.link_table.len()
            invariant
                k <= self.link_table@.len(),
                cnt <= k,
                cnt == link_count(self.link_table@.subrange(0, k as int), name@),
            decreases self.link_table@.len() - k,
        {
            let hit: bool = bytes_eq(&self.link_table[k].1, &name);
            if hit {
                cnt = cnt + 1;
            }
            proof {
                let pre = self.link_table@.subrange(0, k as int);
                let cur = self.link_table@.subrange(0, k + 1);
                assert(cur.drop_last() =~= pre);
                assert(cur.last() == self.link_table@[k as int]);
            }
            k += 1;
        }
        proof {
            assert(self.link_table@.subrange(0, self.link_table@.len() as int)
                =~= self.link_table@);
        }
        (0, Some(Stat { dev: 0, ino, mode: STAT_MODE_FILE, nlink: cnt }))
    }

    /// Registers `new_name` as a hard link to what `old_name` resolves to.
    /// Linking a name to itself, or to a name the table does not know, is
    /// rejected with `-1`; an existing entry for `new_name` is redirected.
    pub fn sys_linkat(&mut self, old_name: &Vec<u8>, new_name: &Vec<u8>) -> (r: isize)
        requires
            old(self).wf(),
            old(self).link_table@.len() < MAX_TABLE,
        ensures
            final(self).wf(),
            r == 0 || r == -1,
            r == -1 <==> old_name@ == new_name@ || link_lookup(
                old(self).link_table@,
                old_name@,
                0,
            ) is None,
            r == -1 ==> *final(self) == *old(self),
            r == 0 ==> {
                &&& final(self).tasks == old(self).tasks
                &&& final(self).fd_table == old(self).fd_table
                &&& match old(self).link_key_index(new_name@) {
                    Some(k) => {
                        &&& final(self).link_table@.len() == old(self).link_table@.len()
                        &&& forall|j: int|
                            0 <= j < old(self).link_table@.len() && j != k
                                ==> final(self).link_table@[j] == old(self).link_table@[j]
                        &&& final(self).link_table@[k].0@ == new_name@
                        &&& final(self).link_table@[k].1@ == link_lookup(
                            old(self).link_table@,
                            old_name@,
                            0,
                        )->Some_0
                    },
                    None => {
                        &&& final(self).link_table@.len() == old(self).link_table@.len() + 1
                        &&& forall|j: int|
                            0 <= j < old(self).link_table@.len() ==> final(self).link_table@[j]
                                == old(self).link_table@[j]
                        &&& final(self).link_table@.last().0@ == new_name@
                        &&& final(self).link_table@.last().1@ == link_lookup(
                            old(self).link_table@,
                            old_name@,
                            0,
                        )->Some_0
                    },
                }
            },
    {
        if bytes_eq(old_name, new_name) {
            return -1;
        }
        let canonical: Vec<u8> = match self.link_find(old_name) {
            Some(c) => c,
            None => {
                return -1;
            },
        };
        let mut k: usize = 0;
        let n: usize = self.link_table.len();
        #[verifier::loop_isolation(false)]
        while k < n
            invariant
                k <= n,
                *self == *old(self),
                forall|j: int| 0 <= j < k ==> (#[trigger] self.link_table@[j]).0@ != new_name@,
            decreases n - k,
        {
            if bytes_eq(&self.link_table[k].0, new_name) {
                proof {
                    assert(old(self).link_key_index(new_name@) is Some);
                    let kk: int = old(self).link_key_index(new_name@)->Some_0;
                    assert(old(self).link_table@[kk].0@ == new_name@);
                    assert(kk == k) by {
                        if kk != k {
                            assert(old(self).link_table@[kk].0@ != old(
                                self,
                            ).link_table@[k as int].0@);
                        }
                    }
                }
                match &mut self.link_table[k] {
                    pair => {
                        pair.1 = canonical;
                    },
                }
                proof {
                    assert forall|x1: int, x2: int|
                        0 <= x1 < x2 < self.link_table@.len() implies (
                    #[trigger] self.link_table@[x1]).0@ != (#[trigger] self.link_table@[x2]).0@ by {
                        assert(self.link_table@[x1].0@ == old(self).link_table@[x1].0@);
                        assert(self.link_table@[x2].0@ == old(self).link_table@[x2].0@);
                    }
                }
                return 0;
            }
            k += 1;
        }
        proof {
            if old(self).link_key_index(new_name@) is Some {
                let kk: int = old(self).link_key_index(new_name@)->Some_0;
                assert(old(self).link_table@[kk].0@ == new_name@);
                assert(false);
            }
        }
        let nn: Vec<u8> = copy_bytes(new_name);
        self.link_table.push((nn, canonical));
        proof {
            assert forall|x1: int, x2: int|
                0 <= x1 < x2 < self.link_table@.len() implies (#[trigger] self.link_table@[x1]).0@
                != (#[trigger] self.link_table@[x2]).0@ by {
                if x2 == self.link_table@.len() - 1 {
                    assert(self.link_table@[x1] == old(self).link_table@[x1]);
                } else {
                    assert(self.link_table@[x1] == old(self).link_table@[x1]);
                    assert(self.link_table@[x2] == old(self).link_table@[x2]);
                }
            }
        }
        0
    }

    /// Removes the hard-link entry registered under `name`; a name the
    /// table does not know is rejected with `-1`.
    pub fn sys_unlinkat(&mut self, name: &Vec<u8>) -> (r: isize)
        requires
            old(self).wf(),
        ensures
            final(self).wf(),
            r == 0 || r == -1,
            r == -1 <==> link_lookup(old(self).link_table@, name@, 0) is None,
            r == -1 ==> *final(self) == *old(self),
            r == 0 ==> {
                &&& final(self).tasks == old(self).tasks
                &&& final(self).fd_table == old(self).fd_table
                &&& exists|k: int|
                    0 <= k < old(self).link_table@.len() && (#[trigger] old(
                        self,
                    ).link_table@[k]).0@ == name@ && final(self).link_table@ == old(
                        self,
                    ).link_table@.remove(k)
            },
    {
        let mut k: usize = 0;
        let n: usize = self.link_table.len();
        #[verifier::loop_isolation(false)]
        while k < n
            invariant
                k <= n,
                *self == *old(self),
                forall|j: int| 0 <= j < k ==> (#[trigger] self.link_table@[j]).0@ != name@,
                link_lookup(self.link_table@, name@, 0) == link_lookup(
                    self.link_table@,
                    name@,
                    k as int,
                ),
            decreases n - k,
        {
            if bytes_eq(&self.link_table[k].0, name) {
                let _entry: (Vec<u8>, Vec<u8>) = self.link_table.remove(k);
                proof {
                    assert forall|x1: int, x2: int|
                        0 <= x1 < x2 < self.link_table@.len() implies (
                    #[trigger] self.link_table@[x1]).0@ != (#[trigger] self.link_table@[x2]).0@ by {
                        let o1: int = if x1 < k {
                            x1
                        } else {
                            x1 + 1
                        };
                        let o2: int = if x2 < k {
                            x2
                        } else {
                            x2 + 1
                        };
                        assert(self.link_table@[x1] == old(self).link_table@[o1]);
                        assert(self.link_table@[x2] == old(self).link_table@[o2]);
                    }
                }
                return 0;
            }
            k += 1;
        }
        -1
    }
}

/// The lookup scan finds a key before passing any entry that holds it.
proof fn lemma_link_lookup_finds(links: Seq<(Vec<u8>, Vec<u8>)>, key: Seq<u8>, k: int, at: int)
    requires
        0 <= k <= at < links.len(),
        links[at].0@ == key,
    ensures
        link_lookup(links, key, k) is Some,
    decreases at - k,
{
    if links[k].0@ == key {
    } else {
        lemma_link_lookup_finds(links, key, k + 1, at);
    }
}

} // verus!
