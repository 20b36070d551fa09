//! Virtual memory region manager: page-aligned, permission-tagged regions
//! of a process's address space, with all-or-nothing overlap checking.
use vstd::prelude::*;

use crate::PAGE_SIZE;

verus! {

/// Permission bit granting user-mode access, always set on mapped pages.
pub const PERM_USER: usize = 0x8;

/// A user address space, as the set of its mapped pages.
///
/// Each entry is one mapped page: its virtual page number and its permission
/// bits (read/write/execute as requested at mapping time, plus `PERM_USER`).
pub struct AddressSpace {
    pub pages: Vec<(usize, usize)>,
}

/// True when some entry of `s` maps page `page` with permission `perm`.
pub open spec fn maps_in(s: Seq<(usize, usize)>, page: usize, perm: usize) -> bool {
    exists|k: int| 0 <= k < s.len() && #[trigger] s[k] == (page, perm)
}

/// Number of pages that the rounded-up byte length `len` covers.
pub open spec fn page_span(len: usize) -> int {
    len / PAGE_SIZE + if len % PAGE_SIZE == 0 {
        0int
    } else {
        1int
    }
}

/// True when page `page` lies in the page range starting at byte address
/// `start` and covering `len` bytes, rounded up to whole pages.
pub open spec fn in_span(start: usize, len: usize, page: usize) -> bool {
    start / PAGE_SIZE <= page < start / PAGE_SIZE + page_span(len)
}

/// True when the port bits request at least one access and no access
/// outside the read/write/execute set: exactly the values 1 through 7.
pub open spec fn valid_port(port: usize) -> bool {
    1 <= port <= 7
}

/// True when mapping `[start, start + len)` with `port` succeeds on `s`:
/// `start` page-aligned, the port bits valid, and no page of the rounded-up
/// range already mapped.
pub open spec fn mmap_accepted(s: AddressSpace, start: usize, len: usize, port: usize) -> bool {
    &&& start % PAGE_SIZE == 0
    &&& valid_port(port)
    &&& forall|p: usize| in_span(start, len, p) ==> !s.is_mapped(p)
}

/// True when unmapping `[start, start + len)` succeeds on `s`: `start`
/// page-aligned and every page of the rounded-up range currently mapped.
pub open spec fn munmap_accepted(s: AddressSpace, start: usize, len: usize) -> bool {
    &&& start % PAGE_SIZE == 0
    &&& forall|p: usize| in_span(start, len, p) ==> s.is_mapped(p)
}

/// Relates an address space before and after a successful mapping: the
/// requested pages are mapped user-accessible with the requested access
/// bits, and nothing else changed.
pub open spec fn mmap_post(
    s0: AddressSpace,
    s1: AddressSpace,
    start: usize,
    len: usize,
    port: usize,
) -> bool {
    forall|p: usize, q: usize|
        #[trigger] s1.maps_at(p, q) <==> if in_span(start, len, p) {
            q == (port + PERM_USER) as usize
        } else {
            s0.maps_at(p, q)
        }
}

/// Relates an address space before and after a successful unmapping: the
/// requested pages are gone, and nothing else changed.
pub open spec fn munmap_post(s0: AddressSpace, s1: AddressSpace, start: usize, len: usize) -> bool {
    forall|p: usize, q: usize|
        #[trigger] s1.maps_at(p, q) <==> s0.maps_at(p, q) && !in_span(start, len, p)
}

impl AddressSpace {
    /// Each page is mapped by at most one entry.
    pub open spec fn wf(self) -> bool {
        forall|k1: int, k2: int|
            0 <= k1 < k2 < self.pages@.len() ==> (#[trigger] self.pages@[k1]).0 != (
            #[trigger] self.pages@[k2]).0
    }

    /// True when page `page` is mapped with permission `perm`.
    pub open spec fn maps_at(self, page: usize, perm: usize) -> bool {
        maps_in(self.pages@, page, perm)
    }

    /// True when page `page` is mapped.
    pub open spec fn is_mapped(self, page: usize) -> bool {
        exists|k: int| 0 <= k < self.pages@.len() && (#[trigger] self.pages@[k]).0 == page
    }

    /// An address space with no pages mapped.
    pub fn new() -> (r: AddressSpace)
        ensures
            r.wf(),
            forall|p: usize| !r.is_mapped(p),
            r.pages@.len() == 0,
    {
        AddressSpace { pages: Vec::new() }
    }

    /// An exact copy of this address space.
    pub fn duplicate(&self) -> (r: AddressSpace)
        ensures
            r.pages@ == self.pages@,
    {
        let mut out: Vec<(usize, usize)> = Vec::new();
        let mut k: usize = 0;
        while k < self.pages.len()
            invariant
                k <= self.pages@.len(),
                out@ == self.pages@.subrange(0, k as int),
            decreases self.pages@.len() - k,
        {
            out.push(self.pages[k]);
            k += 1;
        }
        proof {
            assert(out@ =~= self.pages@);
        }
        AddressSpace { pages: out }
    }

    /// Queries whether `page` is mapped, and with which permission; the
    /// model of the external translator's per-page validity lookup.
    pub fn translate(&self, page: usize) -> (r: Option<usize>)
        ensures
            match r {
                Some(q) => self.maps_at(page, q),
                None => !self.is_mapped(page),
            },
    {
        let mut k: usize = 0;
        while k < self.pages.len()
            invariant
                k <= self.pages@.len(),
                forall|j: int| 0 <= j < k ==> (#[trigger] self.pages@[j]).0 != page,
            decreases self.pages@.len() - k,
        {
            if self.pages[k].0 == page {
                let perm: usize = self.pages[k].1;
                proof {
                    assert(self.pages@[k as int] == (page, perm));
                }
                return Some(perm);
            }
            k += 1;
        }
        None
    }

    /// Maps the pages covering `[start, start + len)` with user access plus
    /// the read/write/execute bits of `port` (bit 0 read, bit 1 write,
    /// bit 2 execute). Rejects a misaligned `start`, a `port` that grants no
    /// access or sets bits above bit 2, and any overlap with an already
    /// mapped page; on rejection the address space is unchanged.
    #[verifier::loop_isolation(false)]
    pub fn sys_mmap(&mut self, start: usize, len: usize, port: usize) -> (r: isize)
        requires
            old(self).wf(),
        ensures
            final(self).wf(),
            r == 0 || r == -1,
            r == 0 <==> mmap_accepted(*old(self), start, len, port),
            r == -1 ==> final(self).pages@ == old(self).pages@,
            r == 0 ==> mmap_post(*old(self), *final(self), start, len, port),
    {
        if start % PAGE_SIZE != 0 {
            return -1;
        }
        let bad_port: bool = (port & !0x7usize) != 0 || (port & 0x7usize) == 0;
        proof {
            assert((port & !0x7usize) != 0 || (port & 0x7usize) == 0 <==> !(1 <= port <= 7))
                by (bit_vector);
        }
        if bad_port {
            return -1;
        }
        let base: usize = start / PAGE_SIZE;
        let count: usize = len / PAGE_SIZE + if len % PAGE_SIZE != 0 {
            1
        } else {
            0
        };
        proof {
            assert(base + count <= usize::MAX) by {
                assert(start / PAGE_SIZE <= usize::MAX / PAGE_SIZE);
                assert(len / PAGE_SIZE <= usize::MAX / PAGE_SIZE);
            };
        }
        let mut i: usize = 0;
        while i < count
            invariant
                i <= count,
                forall|p: usize| base <= p < base + i ==> !old(self).is_mapped(p),
            decreases count - i,
        {
            match self.translate(base + i) {
                Some(q) => {
                    proof {
                        let p: usize = (base + i) as usize;
                        let kk: int = choose|kk: int|
                            0 <= kk < old(self).pages@.len() && #[trigger] old(self).pages@[kk]
                                == (p, q);
                        assert(old(self).pages@[kk].0 == p);
                        assert(old(self).is_mapped(p));
                        assert(in_span(start, len, p));
                    }
                    return -1;
                },
                None => {},
            }
            i += 1;
        }
        let perm: usize = port | 0x8;
        proof {
            assert(port | 0x8usize == port + 8) by (bit_vector)
                requires
                    1 <= port <= 7,
            ;
        }
        let ghost s0: Seq<(usize, usize)> = self.pages@;
        let mut i: usize = 0;
        while i < count
            invariant
                i <= count,
                self.pages@.len() == s0.len() + i,
                self.pages@.subrange(0, s0.len() as int) == s0,
                forall|k: int|
                    s0.len() <= k < s0.len() + i ==> #[trigger] self.pages@[k] == (
                    (base + (k - s0.len())) as usize,
                    perm,
                ),
            decreases count - i,
        {
            self.pages.push((base + i, perm));
            proof {
                assert(self.pages@.subrange(0, s0.len() as int) =~= s0);
            }
            i += 1;
        }
        proof {
            let s1: Seq<(usize, usize)> = self.pages@;
            assert forall|k1: int, k2: int| 0 <= k1 < k2 < s1.len() implies (#[trigger] s1[k1]).0
                != (#[trigger] s1[k2]).0 by {
                if k1 < s0.len() {
                    assert(s1[k1] == s0[k1]);
                }
                if k2 < s0.len() {
                    assert(s1[k2] == s0[k2]);
                }
                if k1 < s0.len() && k2 >= s0.len() {
                    let p1: usize = s1[k1].0;
                    if s1[k2].0 == p1 {
                        assert(s0[k1].0 == p1);
                        assert(old(self).is_mapped(p1));
                        assert(in_span(start, len, p1));
                        assert(false);
                    }
                }
            }
            assert forall|p: usize, q: usize| #[trigger]
                maps_in(s1, p, q) <==> if in_span(start, len, p) {
                    q == (port + PERM_USER) as usize
                } else {
                    maps_in(s0, p, q)
                } by {
                if maps_in(s1, p, q) {
                    let k: int = choose|k: int| 0 <= k < s1.len() && #[trigger] s1[k] == (p, q);
                    if k < s0.len() {
                        assert(s0[k] == (p, q));
                        assert(maps_in(s0, p, q));
                        assert(s0[k].0 == p);
                        assert(old(self).is_mapped(p));
                        assert(!in_span(start, len, p));
                    } else {
                        assert(s1[k] == ((base + (k - s0.len())) as usize, perm));
                        assert(in_span(start, len, p) && q == (port + PERM_USER) as usize);
                    }
                }
                if in_span(start, len, p) && q == (port + PERM_USER) as usize {
                    let k: int = s0.len() + (p - base);
                    assert(s1[k] == (p, q));
                    assert(maps_in(s1, p, q));
                }
                if !in_span(start, len, p) && maps_in(s0, p, q) {
                    let k: int = choose|k: int| 0 <= k < s0.len() && #[trigger] s0[k] == (p, q);
                    assert(s1[k] == (p, q));
                    assert(maps_in(s1, p, q));
                }
            }
        }
        0
    }

    /// Unmaps the pages covering `[start, start + len)`. Rejects a
    /// misaligned `start` and any page of the range that is not currently
    /// mapped; on rejection the address space is unchanged.
    #[verifier::loop_isolation(false)]
    pub fn sys_munmap(&mut self, start: usize, len: usize) -> (r: isize)
        requires
            old(self).wf(),
        ensures
            final(self).wf(),
            r == 0 || r == -1,
            r == 0 <==> munmap_accepted(*old(self), start, len),
            r == -1 ==> final(self).pages@ == old(self).pages@,
            r == 0 ==> munmap_post(*old(self), *final(self), start, len),
    {
        if start % PAGE_SIZE != 0 {
            return -1;
        }
        let base: usize = start / PAGE_SIZE;
        let count: usize = len / PAGE_SIZE + if len % PAGE_SIZE != 0 {
            1
        } else {
            0
        };
        proof {
            assert(base + count <= usize::MAX) by {
                assert(start / PAGE_SIZE <= usize::MAX / PAGE_SIZE);
                assert(len / PAGE_SIZE <= usize::MAX / PAGE_SIZE);
            };
        }
        let mut i: usize = 0;
        while i < count
            invariant
                i <= count,
                forall|p: usize| base <= p < base + i ==> old(self).is_mapped(p),
            decreases count - i,
        {
            if self.translate(base + i).is_none() {
                proof {
                    assert(in_span(start, len, (base + i) as usize));
                }
                return -1;
            }
            i += 1;
        }
        let ghost s0: Seq<(usize, usize)> = self.pages@;
        let mut kept: Vec<(usize, usize)> = Vec::new();
        let mut k: usize = 0;
        while k < self.pages.len()
            invariant
                k <= self.pages@.len(),
                self.pages@ == s0,
                forall|j: int|
                    0 <= j < kept@.len() ==> !in_span(start, len, (#[trigger] kept@[j]).0),
                forall|p: usize, q: usize| #[trigger]
                    maps_in(kept@, p, q) <==> maps_in(s0.subrange(0, k as int), p, q) && !in_span(
                        start,
                        len,
                        p,
                    ),
                forall|j1: int, j2: int|
                    0 <= j1 < j2 < kept@.len() ==> (#[trigger] kept@[j1]).0 != (
                    #[trigger] kept@[j2]).0,
            decreases self.pages@.len() - k,
        {
            let e: (usize, usize) = self.pages[k];
            let ghost pre: Seq<(usize, usize)> = kept@;
            let in_range: bool = e.0 >= base && e.0 < base + count;
            if !in_range {
                kept.push(e);
            }
            proof {
                let now: Seq<(usize, usize)> = kept@;
                let prefix: Seq<(usize, usize)> = s0.subrange(0, k + 1);
                assert(prefix.drop_last() =~= s0.subrange(0, k as int));
                assert(prefix[k as int] == e);
                assert forall|p: usize, q: usize| #[trigger]
                    maps_in(now, p, q) <==> maps_in(prefix, p, q) && !in_span(start, len, p) by {
                    if maps_in(now, p, q) {
                        let j: int = choose|j: int|
                            0 <= j < now.len() && #[trigger] now[j] == (p, q);
                        if j < pre.len() {
                            assert(maps_in(pre, p, q));
                            let jj: int = choose|jj: int|
                                0 <= jj < s0.subrange(0, k as int).len() && #[trigger] s0.subrange(
                                    0,
                                    k as int,
                                )[jj] == (p, q);
                            assert(prefix[jj] == (p, q));
                            assert(maps_in(prefix, p, q));
                        } else {
                            assert(now[j] == e);
                            assert(!in_range);
                            assert(maps_in(prefix, p, q));
                        }
                    }
                    if maps_in(prefix, p, q) && !in_span(start, len, p) {
                        let j: int = choose|j: int|
                            0 <= j < prefix.len() && #[trigger] prefix[j] == (p, q);
                        if j < k {
                            assert(s0.subrange(0, k as int)[j] == (p, q));
                            assert(maps_in(s0.subrange(0, k as int), p, q));
                            assert(maps_in(pre, p, q));
                            let jj: int = choose|jj: int|
                                0 <= jj < pre.len() && #[trigger] pre[jj] == (p, q);
                            assert(now[jj] == (p, q));
                            assert(maps_in(now, p, q));
                        } else {
                            assert(prefix[j] == e);
                            assert(!in_range);
                            assert(now[now.len() - 1] == (p, q));
                            assert(maps_in(now, p, q));
                        }
                    }
                }
                assert forall|j1: int, j2: int| 0 <= j1 < j2 < now.len() implies (
                #[trigger] now[j1]).0 != (#[trigger] now[j2]).0 by {
                    if j2 == now.len() - 1 && now.len() > pre.len() {
                        let p1: usize = now[j1].0;
                        let q1: usize = now[j1].1;
                        assert(pre[j1] == now[j1]);
                        assert(maps_in(pre, p1, q1));
                        assert(maps_in(s0.subrange(0, k as int), p1, q1));
                        let jj: int = choose|jj: int|
                            0 <= jj < s0.subrange(0, k as int).len() && #[trigger] s0.subrange(
                                0,
                                k as int,
                            )[jj] == (p1, q1);
                        assert(s0[jj] == (p1, q1));
                        if now[j2].0 == p1 {
                            assert(s0[k as int].0 == p1);
                        }
                    }
                }
            }
            k += 1;
        }
        proof {
            assert(s0.subrange(0, s0.len() as int) =~= s0);
        }
        self.pages = kept;
        0
    }
}

/// Law: mapping a fresh page-aligned range and then unmapping the same
/// range restores the address space's mapped-page set, permissions
/// included; the intermediate unmapping is always accepted.
pub proof fn lemma_map_unmap_round_trip(
    s0: AddressSpace,
    s1: AddressSpace,
    s2: AddressSpace,
    start: usize,
    len: usize,
    port: usize,
)
    requires
        mmap_accepted(s0, start, len, port),
        mmap_post(s0, s1, start, len, port),
        munmap_post(s1, s2, start, len),
    ensures
        munmap_accepted(s1, start, len),
        forall|p: usize, q: usize| s2.maps_at(p, q) <==> s0.maps_at(p, q),
        forall|p: usize| s2.is_mapped(p) <==> s0.is_mapped(p),
{
    assert forall|p: usize| in_span(start, len, p) implies s1.is_mapped(p) by {
        assert(s1.maps_at(p, (port + PERM_USER) as usize));
        let k: int = choose|k: int|
            0 <= k < s1.pages@.len() && #[trigger] s1.pages@[k] == (
                p,
                (port + PERM_USER) as usize,
            );
        assert(s1.pages@[k].0 == p);
    }
    assert forall|p: usize, q: usize| s2.maps_at(p, q) <==> s0.maps_at(p, q) by {
        if s0.maps_at(p, q) {
            let k: int = choose|k: int|
                0 <= k < s0.pages@.len() && #[trigger] s0.pages@[k] == (p, q);
            assert(s0.pages@[k].0 == p);
            assert(s0.is_mapped(p));
            assert(!in_span(start, len, p));
        }
    }
    assert forall|p: usize| s2.is_mapped(p) <==> s0.is_mapped(p) by {
        if s2.is_mapped(p) {
            let k: int = choose|k: int|
                0 <= k < s2.pages@.len() && (#[trigger] s2.pages@[k]).0 == p;
            let q: usize = s2.pages@[k].1;
            assert(s2.pages@[k] == (p, q));
            assert(s2.maps_at(p, q));
            assert(s0.maps_at(p, q));
            let j: int = choose|j: int|
                0 <= j < s0.pages@.len() && #[trigger] s0.pages@[j] == (p, q);
            assert(s0.pages@[j].0 == p);
        }
        if s0.is_mapped(p) {
            let k: int = choose|k: int|
                0 <= k < s0.pages@.len() && (#[trigger] s0.pages@[k]).0 == p;
            let q: usize = s0.pages@[k].1;
            assert(s0.pages@[k] == (p, q));
            assert(s0.maps_at(p, q));
            assert(s2.maps_at(p, q));
            let j: int = choose|j: int|
                0 <= j < s2.pages@.len() && #[trigger] s2.pages@[j] == (p, q);
            assert(s2.pages@[j].0 == p);
        }
    }
}

/// Law: a mapping request that overlaps any already-mapped page of the
/// range is never accepted; by `sys_mmap`'s contract the rejected call
/// leaves the address space unchanged.
pub proof fn lemma_mmap_overlap_rejected(
    s: AddressSpace,
    start: usize,
    len: usize,
    port: usize,
    page: usize,
)
    requires
        in_span(start, len, page),
        s.is_mapped(page),
    ensures
        !mmap_accepted(s, start, len, port),
{
}

/// Law: a mapping request whose port bits are zero, or set any bit above
/// bit 2, is never accepted, whatever the range and the address space.
pub proof fn lemma_mmap_bad_port_rejected(
    s: AddressSpace,
    start: usize,
    len: usize,
    port: usize,
)
    requires
        port == 0 || port & !0x7usize != 0,
    ensures
        !mmap_accepted(s, start, len, port),
{
    assert(port == 0 || port & !0x7usize != 0 ==> !(1 <= port <= 7)) by (bit_vector);
}

} // verus!
