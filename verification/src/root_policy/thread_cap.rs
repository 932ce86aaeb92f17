//! Per-thread capability tokens: flags that grant or deny operations beyond
//! what the ring-level policy allows, plus a per-thread syscall deny list.
use vstd::prelude::*;
use crate::root_policy::policy::RingCaps;

pub mod tcap;

verus! {

pub const MAX_THREADS: usize = 64;

/// Capacity of a thread's syscall deny list.
pub const MAX_DENY_LIST: usize = 16;

/// Capability token of one thread.
#[derive(Clone, Copy)]
pub struct ThreadCap {
    pub flags: u64,
    pub deny_list: [u64; MAX_DENY_LIST],
    pub deny_count: u8,
    pub owner_ring: u8,
    /// Thread-specific page limit (0 defers to the ring).
    pub max_mem_pages: u32,
}

impl ThreadCap {
    /// The deny list's entries in use.
    pub open spec fn denied(&self) -> Seq<u64> {
        self.deny_list@.subrange(0, self.deny_count as int)
    }

    /// The deny list count stays within the list.
    pub open spec fn wf(&self) -> bool {
        self.deny_count <= MAX_DENY_LIST
    }

    /// No syscall number occurs twice in the deny list.
    pub open spec fn unique_denies(&self) -> bool {
        forall|i: int, j: int| 0 <= i < j < self.deny_count ==> self.deny_list@[i] != self.deny_list@[j]
    }

    pub open spec fn spec_is_revoked(&self) -> bool {
        self.flags & tcap::REVOKED != 0
    }

    pub open spec fn spec_has(&self, flag: u64) -> bool {
        self.flags & flag != 0
    }

    pub open spec fn spec_denies(&self, syscall_nr: u64) -> bool {
        self.denied().contains(syscall_nr)
    }

    /// `t` is what `add_deny(nr)` leaves of `self`.
    pub open spec fn add_step(&self, t: ThreadCap, nr: u64) -> bool {
        if self.deny_count >= MAX_DENY_LIST || self.spec_denies(nr) {
            t == *self
        } else {
            &&& t == (ThreadCap { deny_list: t.deny_list, deny_count: (self.deny_count + 1) as u8, ..*self })
            &&& t.deny_list@ == self.deny_list@.update(self.deny_count as int, nr)
        }
    }

    /// `t` is what `remove_deny(nr)` leaves of `self`.
    pub open spec fn remove_step(&self, t: ThreadCap, nr: u64) -> bool {
        if !self.spec_denies(nr) {
            t == *self
        } else {
            let i = self.denied().index_of_first(nr).unwrap();
            let last = self.deny_count - 1;
            &&& t == (ThreadCap { deny_list: t.deny_list, deny_count: last as u8, ..*self })
            &&& t.deny_list@ == self.deny_list@.update(i, self.deny_list@[last]).update(last, u64::MAX)
        }
    }

    pub open spec fn fresh(&self, flags: u64, ring: u8, pages: u32) -> bool {
        &&& self.flags == flags
        &&& self.deny_count == 0
        &&& self.owner_ring == ring
        &&& self.max_mem_pages == pages
        &&& forall|i: int| 0 <= i < MAX_DENY_LIST ==> #[trigger] self.deny_list@[i] == u64::MAX
    }

    /// No capabilities, ring 3, no thread limit.
    pub fn new_empty() -> (r: Self)
        ensures
            r.fresh(0, 3, 0),
            r.wf(),
    {
        ThreadCap { flags: 0, deny_list: [u64::MAX; MAX_DENY_LIST], deny_count: 0, owner_ring: 3, max_mem_pages: 0 }
    }

    /// Kernel thread: default kernel capabilities, ring 0.
    pub fn new_kernel() -> (r: Self)
        ensures
            r.fresh(tcap::DEFAULT_KERNEL, 0, 0),
            r.wf(),
    {
        ThreadCap {
            flags: tcap::DEFAULT_KERNEL,
            deny_list: [u64::MAX; MAX_DENY_LIST],
            deny_count: 0,
            owner_ring: 0,
            max_mem_pages: 0,
        }
    }

    /// User thread: ring 3, at most 128 pages per allocation.
    pub fn new_user() -> (r: Self)
        ensures
            r.fresh(tcap::DEFAULT_USER, 3, 128),
            r.wf(),
    {
        ThreadCap {
            flags: tcap::DEFAULT_USER,
            deny_list: [u64::MAX; MAX_DENY_LIST],
            deny_count: 0,
            owner_ring: 3,
            max_mem_pages: 128,
        }
    }

    /// Driver-space thread: ring 1, at most 256 pages per allocation.
    pub fn new_devspace() -> (r: Self)
        ensures
            r.fresh(tcap::DEFAULT_DEV, 1, 256),
            r.wf(),
    {
        ThreadCap {
            flags: tcap::DEFAULT_DEV,
            deny_list: [u64::MAX; MAX_DENY_LIST],
            deny_count: 0,
            owner_ring: 1,
            max_mem_pages: 256,
        }
    }

    pub fn is_revoked(&self) -> (r: bool)
        ensures
            r == self.spec_is_revoked(),
    {
        self.flags & tcap::REVOKED != 0
    }

    pub fn has(&self, flag: u64) -> (r: bool)
        ensures
            r == self.spec_has(flag),
    {
        self.flags & flag != 0
    }

    /// Whether `syscall_nr` is in the deny list.
    pub fn denies(&self, syscall_nr: u64) -> (r: bool)
        requires
            self.wf(),
        ensures
            r == self.spec_denies(syscall_nr),
    {
        if self.deny_count == 0 {
            proof {
                assert(self.denied().len() == 0);
            }
            return false;
        }
        let n = self.deny_count as usize;
        let mut i: usize = 0;
        while i < n
            invariant
                0 <= i <= n,
                n == self.deny_count,
                n <= MAX_DENY_LIST,
                forall|j: int| 0 <= j < i ==> self.deny_list@[j] != syscall_nr,
            decreases n - i,
        {
            if self.deny_list[i] == syscall_nr {
                proof {
                    assert(self.denied()[i as int] == syscall_nr);
                }
                return true;
            }
            i = i + 1;
        }
        proof {
            assert forall|j: int| 0 <= j < self.denied().len() implies self.denied()[j] != syscall_nr by {
                assert(self.denied()[j] == self.deny_list@[j]);
            }
        }
        false
    }

    /// Add `flag`, unless the thread is revoked.
    pub fn grant(&mut self, flag: u64)
        ensures
            old(self).spec_is_revoked() ==> *final(self) == *old(self),
            !old(self).spec_is_revoked() ==> *final(self) == (ThreadCap { flags: old(self).flags | flag, ..*old(self) }),
            !old(self).spec_is_revoked() && flag != 0 ==> final(self).spec_has(flag),
    {
        if self.is_revoked() {
            return;
        }
        let f = self.flags;
        proof {
            assert(flag != 0 ==> (f | flag) & flag != 0) by (bit_vector);
        }
        self.flags = self.flags | flag;
    }

    /// Remove `flag`.
    pub fn revoke(&mut self, flag: u64)
        ensures
            *final(self) == (ThreadCap { flags: old(self).flags & !flag, ..*old(self) }),
            !final(self).spec_has(flag),
    {
        let f = self.flags;
        proof {
            assert((f & !flag) & flag == 0) by (bit_vector);
        }
        self.flags = self.flags & !flag;
    }

    /// Revoke the thread completely: only the revoked flag remains and the
    /// deny list holds the syscall numbers 0 to 15.
    pub fn revoke_all(&mut self)
        ensures
            final(self).flags == tcap::REVOKED,
            final(self).deny_count == MAX_DENY_LIST,
            forall|i: int| 0 <= i < MAX_DENY_LIST ==> #[trigger] final(self).deny_list@[i] == i,
            final(self).owner_ring == old(self).owner_ring,
            final(self).max_mem_pages == old(self).max_mem_pages,
            final(self).wf(),
            final(self).spec_is_revoked(),
            final(self).unique_denies(),
            forall|nr: u64| nr < MAX_DENY_LIST ==> #[trigger] final(self).spec_denies(nr),
    {
        proof {
            assert(tcap::REVOKED & tcap::REVOKED != 0) by (bit_vector);
        }
        self.flags = tcap::REVOKED;
        self.deny_count = MAX_DENY_LIST as u8;
        let mut i: usize = 0;
        while i < MAX_DENY_LIST
            invariant
                0 <= i <= MAX_DENY_LIST,
                self.flags == tcap::REVOKED,
                self.deny_count == MAX_DENY_LIST,
                self.owner_ring == old(self).owner_ring,
                self.max_mem_pages == old(self).max_mem_pages,
                forall|k: int| 0 <= k < i ==> #[trigger] self.deny_list@[k] == k,
            decreases MAX_DENY_LIST - i,
        {
            self.deny_list[i] = i as u64;
            i = i + 1;
        }
        proof {
            assert forall|nr: u64| nr < MAX_DENY_LIST implies #[trigger] self.spec_denies(nr) by {
                assert(self.denied()[nr as int] == nr);
            }
        }
    }

    /// Append `syscall_nr` to the deny list unless it is full or already
    /// holds the number.
    pub fn add_deny(&mut self, syscall_nr: u64)
        ensures
            old(self).wf() ==> final(self).wf(),
            old(self).deny_count >= MAX_DENY_LIST || old(self).spec_denies(syscall_nr) ==> *final(self) == *old(self),
            old(self).deny_count < MAX_DENY_LIST && !old(self).spec_denies(syscall_nr) ==> *final(self) == (ThreadCap {
                deny_list: final(self).deny_list,
                deny_count: (old(self).deny_count + 1) as u8,
                ..*old(self)
            }) && final(self).deny_list@ == old(self).deny_list@.update(old(self).deny_count as int, syscall_nr),
            old(self).deny_count < MAX_DENY_LIST || old(self).spec_denies(syscall_nr) ==> final(self).spec_denies(
                syscall_nr,
            ),
            old(self).unique_denies() ==> final(self).unique_denies(),
            old(self).add_step(*final(self), syscall_nr),
    {
        if self.deny_count as usize >= MAX_DENY_LIST {
            return;
        }
        if self.denies(syscall_nr) {
            return;
        }
        let c = self.deny_count as usize;
        self.deny_list[c] = syscall_nr;
        self.deny_count = self.deny_count + 1;
        proof {
            let d0 = old(self).denied();
            assert(self.denied() =~= d0.push(syscall_nr));
            assert(self.denied()[c as int] == syscall_nr);
            if old(self).unique_denies() {
                assert forall|i: int, j: int| 0 <= i < j < self.deny_count implies self.deny_list@[i]
                    != self.deny_list@[j] by {
                    if j == c {
                        assert(d0[i] == self.deny_list@[i]);
                    }
                }
            }
        }
    }

    /// First slot of the deny list holding `syscall_nr`, or `MAX_DENY_LIST`.
    fn deny_slot(&self, syscall_nr: u64) -> (r: usize)
        requires
            self.wf(),
        ensures
            r == MAX_DENY_LIST || (r < self.deny_count && self.deny_list@[r as int] == syscall_nr),
            forall|j: int| 0 <= j < self.deny_count && j < r ==> self.deny_list@[j] != syscall_nr,
    {
        let n = self.deny_count as usize;
        let mut i: usize = 0;
        while i < n
            invariant
                0 <= i <= n,
                n == self.deny_count,
                n <= MAX_DENY_LIST,
                forall|j: int| 0 <= j < i ==> self.deny_list@[j] != syscall_nr,
            decreases n - i,
        {
            if self.deny_list[i] == syscall_nr {
                return i;
            }
            i = i + 1;
        }
        MAX_DENY_LIST
    }

    /// Drop `syscall_nr` from the deny list: its first slot takes the last
    /// entry, the last slot is reset to `u64::MAX` and the count shrinks.
    pub fn remove_deny(&mut self, syscall_nr: u64)
        requires
            old(self).wf(),
        ensures
            final(self).wf(),
            !old(self).spec_denies(syscall_nr) ==> *final(self) == *old(self),
            old(self).spec_denies(syscall_nr) ==> {
                let i = old(self).denied().index_of_first(syscall_nr).unwrap();
                let last = old(self).deny_count - 1;
                &&& *final(self) == (ThreadCap {
                    deny_list: final(self).deny_list,
                    deny_count: last as u8,
                    ..*old(self)
                })
                &&& final(self).deny_list@ == old(self).deny_list@.update(i, old(self).deny_list@[last]).update(
                    last,
                    u64::MAX,
                )
            },
            old(self).unique_denies() ==> final(self).unique_denies() && !final(self).spec_denies(syscall_nr),
            old(self).remove_step(*final(self), syscall_nr),
    {
        let found = self.deny_slot(syscall_nr);
        proof {
            let d = old(self).denied();
            if found < MAX_DENY_LIST {
                assert(d[found as int] == syscall_nr);
                assert forall|j: int| 0 <= j < found implies d[j] != syscall_nr by {
                    assert(d[j] == self.deny_list@[j]);
                }
                d.index_of_first_ensures(syscall_nr);
                assert(d.index_of_first(syscall_nr) == Some(found as int));
            } else {
                assert forall|j: int| 0 <= j < d.len() implies d[j] != syscall_nr by {
                    assert(d[j] == self.deny_list@[j]);
                }
            }
        }
        if found < MAX_DENY_LIST && self.deny_count > 0 {
            let last = self.deny_count as usize - 1;
            let moved = self.deny_list[last];
            self.deny_list[found] = moved;
            self.deny_list[last] = u64::MAX;
            self.deny_count = self.deny_count - 1;
            proof {
                if old(self).unique_denies() {
                    let o = old(self).deny_list@;
                    let nl = self.deny_list@;
                    assert forall|k: int| 0 <= k < last implies nl[k] == if k == found { o[last as int] } else { o[k] } by {}
                    assert forall|a: int, b: int| 0 <= a < b < self.deny_count implies nl[a] != nl[b] by {
                        if a == found {
                            assert(o[last as int] != o[b]);
                        } else if b == found {
                            assert(o[a] != o[last as int]);
                        }
                    }
                    assert forall|k: int| 0 <= k < self.denied().len() implies self.denied()[k] != syscall_nr by {
                        assert(self.denied()[k] == nl[k]);
                        if k != found {
                            assert(o[k] != o[found as int]);
                        } else {
                            assert(o[last as int] != o[found as int]);
                        }
                    }
                }
            }
        }
    }

    /// Whether an allocation of `pages` pages fits the thread's own limit
    /// (always, when the limit is 0).
    pub fn allows_mem_alloc(&self, pages: u32) -> (r: bool)
        ensures
            r == (self.max_mem_pages == 0 || pages <= self.max_mem_pages),
    {
        if self.max_mem_pages == 0 {
            return true;
        }
        pages <= self.max_mem_pages
    }

    /// Set the thread's own page limit.
    pub fn set_mem_limit(&mut self, pages: u32)
        ensures
            *final(self) == (ThreadCap { max_mem_pages: pages, ..*old(self) }),
    {
        self.max_mem_pages = pages;
    }
}

/// The token a thread spawned at `ring` starts with.
pub open spec fn cap_for_ring(ring: u8) -> (u64, u8, u32) {
    if ring == 0 {
        (tcap::DEFAULT_KERNEL, 0, 0)
    } else if ring == 1 {
        (tcap::DEFAULT_DEV, 1, 256)
    } else if ring == 3 {
        (tcap::DEFAULT_USER, 3, 128)
    } else {
        (0, 3, 0)
    }
}

/// Boot-time table: slots 0 and 1 kernel threads, slot 2 the first user
/// thread, every other slot empty.
pub fn init_cap_table(table: &mut [ThreadCap; MAX_THREADS])
    ensures
        final(table)@[0].fresh(tcap::DEFAULT_KERNEL, 0, 0),
        final(table)@[1].fresh(tcap::DEFAULT_KERNEL, 0, 0),
        final(table)@[2].fresh(tcap::DEFAULT_USER, 3, 128),
        forall|i: int| 3 <= i < MAX_THREADS ==> (#[trigger] final(table)@[i]).fresh(0, 3, 0),
        forall|i: int| 0 <= i < MAX_THREADS ==> (#[trigger] final(table)@[i]).wf(),
{
    table[0] = ThreadCap::new_kernel();
    table[1] = ThreadCap::new_kernel();
    table[2] = ThreadCap::new_user();
    let mut i: usize = 3;
    while i < MAX_THREADS
        invariant
            3 <= i <= MAX_THREADS,
            table@.len() == MAX_THREADS,
            table@[0].fresh(tcap::DEFAULT_KERNEL, 0, 0) && table@[0].wf(),
            table@[1].fresh(tcap::DEFAULT_KERNEL, 0, 0) && table@[1].wf(),
            table@[2].fresh(tcap::DEFAULT_USER, 3, 128) && table@[2].wf(),
            forall|k: int| 3 <= k < i ==> (#[trigger] table@[k]).fresh(0, 3, 0) && table@[k].wf(),
        decreases MAX_THREADS - i,
    {
        table[i] = ThreadCap::new_empty();
        i = i + 1;
    }
}

/// Give slot `tid` the starting token of a thread spawned at `ring`
/// (out-of-range slots are ignored).
pub fn init_thread_cap(table: &mut [ThreadCap; MAX_THREADS], tid: usize, ring: u8)
    ensures
        tid >= MAX_THREADS ==> final(table)@ == old(table)@,
        tid < MAX_THREADS ==> {
            let (f, r, p) = cap_for_ring(ring);
            &&& final(table)@[tid as int].fresh(f, r, p)
            &&& final(table)@[tid as int].wf()
            &&& forall|i: int| 0 <= i < MAX_THREADS && i != tid ==> #[trigger] final(table)@[i] == old(table)@[i]
        },
{
    if tid >= MAX_THREADS {
        return;
    }
    let c = if ring == 0 {
        ThreadCap::new_kernel()
    } else if ring == 1 {
        ThreadCap::new_devspace()
    } else if ring == 3 {
        ThreadCap::new_user()
    } else {
        ThreadCap::new_empty()
    };
    table[tid] = c;
}

/// Reset slot `tid` to the empty token (out-of-range slots are ignored).
pub fn clear_thread_cap(table: &mut [ThreadCap; MAX_THREADS], tid: usize)
    ensures
        tid >= MAX_THREADS ==> final(table)@ == old(table)@,
        tid < MAX_THREADS ==> final(table)@[tid as int].fresh(0, 3, 0) && forall|i: int|
            0 <= i < MAX_THREADS && i != tid ==> #[trigger] final(table)@[i] == old(table)@[i],
{
    if tid >= MAX_THREADS {
        return;
    }
    table[tid] = ThreadCap::new_empty();
}

/// Pages a thread may allocate at once: the ring's limit, or the smaller of
/// the thread's own limit and the ring's when the thread has one; 0 for an
/// out-of-range slot.
pub fn mem_limit(table: &[ThreadCap; MAX_THREADS], ring_caps: &[RingCaps; 4], tid: usize, ring: u8) -> (r: u32)
    requires
        tid < MAX_THREADS ==> ring < 4,
    ensures
        tid >= MAX_THREADS ==> r == 0,
        tid < MAX_THREADS ==> {
            let t = table@[tid as int].max_mem_pages;
            let g = ring_caps@[ring as int].max_mem_pages;
            r == if t == 0 {
                g
            } else if t < g {
                t
            } else {
                g
            }
        },
{
    if tid >= MAX_THREADS {
        return 0;
    }
    let thread_limit = table[tid].max_mem_pages;
    let ring_limit = ring_caps[ring as usize].max_mem_pages;
    if thread_limit == 0 {
        ring_limit
    } else if thread_limit < ring_limit {
        thread_limit
    } else {
        ring_limit
    }
}

/// Law: removing a syscall number right after adding it to a deny list
/// that did not hold it and had room gives back the same deny list.
pub proof fn law_remove_undoes_add(t0: ThreadCap, t1: ThreadCap, t2: ThreadCap, nr: u64)
    requires
        t0.wf(),
        t0.deny_count < MAX_DENY_LIST,
        !t0.spec_denies(nr),
        t0.add_step(t1, nr),
        t1.remove_step(t2, nr),
    ensures
        t2.deny_count == t0.deny_count,
        t2.denied() == t0.denied(),
        forall|x: u64| #[trigger] t2.spec_denies(x) == t0.spec_denies(x),
{
    let c = t0.deny_count as int;
    let d1 = t1.denied();
    assert(d1 =~= t0.denied().push(nr));
    assert(d1[c] == nr);
    assert(t1.spec_denies(nr));
    d1.index_of_first_ensures(nr);
    let i = d1.index_of_first(nr).unwrap();
    assert forall|j: int| 0 <= j < c implies d1[j] != nr by {
        assert(d1[j] == t0.denied()[j]);
    }
    assert(i == c);
    assert(t2.denied() =~= t0.denied());
}

} // verus!
