//! Ring policy engine: the checkpoint in front of every system call and every
//! sensitive kernel resource. A refused request is answered with
//! `err::PERM` and logged.
use vstd::prelude::*;
use crate::syscall_api::{err, nr};
use audit::{PolicyLog, ViolationKind, LogEntry};
use policy::{RingCaps, mask_allows};
use thread_cap::{ThreadCap, MAX_THREADS};

pub mod audit;
pub mod policy;
pub mod thread_cap;

verus! {

/// Syscalls permitted to kernel threads: all.
pub const RING0_SYSCALL_MASK: u64 = 0xffff_ffff_ffff_ffff;

/// Syscalls permitted to driver space.
pub const RING1_SYSCALL_MASK: u64 = (1 << nr::EXIT) | (1 << nr::WRITE) | (1 << nr::READ) | (1 << nr::YIELD)
    | (1 << nr::SPAWN) | (1 << nr::SLEEP) | (1 << nr::MEM_ALLOC) | (1 << nr::MEM_FREE) | (1 << nr::IPC_SEND)
    | (1 << nr::IPC_RECV) | (1 << nr::IPC_POLL) | (1 << nr::THREAD_ID) | (1 << nr::TIME);

/// Syscalls permitted to user space.
pub const RING3_SYSCALL_MASK: u64 = (1 << nr::EXIT) | (1 << nr::WRITE) | (1 << nr::READ) | (1 << nr::YIELD)
    | (1 << nr::SLEEP) | (1 << nr::MEM_ALLOC) | (1 << nr::MEM_FREE) | (1 << nr::IPC_SEND) | (1 << nr::IPC_RECV)
    | (1 << nr::IPC_POLL) | (1 << nr::THREAD_ID) | (1 << nr::TIME) | (1 << nr::DEBUG_PRINT);

pub open spec fn spec_ring_syscall_mask(ring: u8) -> u64 {
    if ring == 0 {
        RING0_SYSCALL_MASK
    } else if ring == 1 {
        RING1_SYSCALL_MASK
    } else if ring == 3 {
        RING3_SYSCALL_MASK
    } else {
        0
    }
}

/// The syscall mask of a ring; an unknown ring gets nothing.
pub fn ring_syscall_mask(ring: u8) -> (r: u64)
    ensures
        r == spec_ring_syscall_mask(ring),
{
    match ring {
        0 => RING0_SYSCALL_MASK,
        1 => RING1_SYSCALL_MASK,
        3 => RING3_SYSCALL_MASK,
        _ => 0,
    }
}

/// Privilege level encoded in a code segment selector.
pub open spec fn ring_of(cs: u64) -> u8 {
    (cs & 3) as u8
}

fn ring_from_cs(cs: u64) -> (r: u8)
    ensures
        r == ring_of(cs),
        r < 4,
{
    proof {
        assert(cs & 3 < 4) by (bit_vector);
    }
    (cs & 3) as u8
}

/// State of the policy engine.
pub struct PolicyEngine {
    pub log: PolicyLog,
    pub active: bool,
    pub ring_caps: [RingCaps; 4],
    pub cap_table: [ThreadCap; MAX_THREADS],
}

/// The outcome of the syscall check: `NoViolation` lets the call through,
/// any other kind refuses it.
pub open spec fn syscall_verdict(e: &PolicyEngine, syscall_nr: u64, cs: u64, tid: usize) -> ViolationKind {
    let ring = ring_of(cs);
    let cap = e.cap_table@[tid as int];
    if !e.active {
        ViolationKind::NoViolation
    } else if !mask_allows(spec_ring_syscall_mask(ring), syscall_nr) {
        ViolationKind::SyscallDenied
    } else if cap.spec_is_revoked() {
        ViolationKind::ThreadRevoked
    } else if cap.spec_denies(syscall_nr) {
        ViolationKind::ThreadDenied
    } else if !mask_allows(e.ring_caps@[ring as int].syscall_mask, syscall_nr) {
        ViolationKind::RingCapDenied
    } else {
        ViolationKind::NoViolation
    }
}

/// `after` is `before` with one violation logged.
pub open spec fn logged(before: &PolicyEngine, after: &PolicyEngine, kind: ViolationKind, ring: u8, tid: u32, detail: u64, tick: u64) -> bool {
    &&& after.log.spec_entries() == before.log.spec_entries().update(
        before.log.spec_head(),
        LogEntry { tick, kind, ring, tid, detail },
    )
    &&& after.log.spec_head() == (before.log.spec_head() + 1) % audit::MAX_LOG_ENTRIES as int
    &&& after.log.spec_total() == if before.log.spec_total() < u32::MAX {
        (before.log.spec_total() + 1) as u32
    } else {
        before.log.spec_total()
    }
    &&& after.active == before.active
    &&& after.ring_caps == before.ring_caps
    &&& after.cap_table == before.cap_table
}

/// The log of `after` is that of `before`, and so is everything else.
pub open spec fn unchanged(before: &PolicyEngine, after: &PolicyEngine) -> bool {
    &&& after.log.spec_entries() == before.log.spec_entries()
    &&& after.log.spec_head() == before.log.spec_head()
    &&& after.log.spec_total() == before.log.spec_total()
    &&& after.active == before.active
    &&& after.ring_caps == before.ring_caps
    &&& after.cap_table == before.cap_table
}

impl PolicyEngine {
    /// State before `init`: policy inactive, default ring table, all thread slots
    /// empty, empty log.
    pub fn new() -> (r: Self)
        ensures
            !r.active,
            r.log.spec_total() == 0,
            forall|i: int| 0 <= i < MAX_THREADS ==> (#[trigger] r.cap_table@[i]).fresh(0, 3, 0),
    {
        let e = ThreadCap::new_empty();
        PolicyEngine {
            log: PolicyLog::new(),
            active: false,
            ring_caps: policy::default_ring_caps(),
            cap_table: [e; MAX_THREADS],
        }
    }

    /// Clear the log, fill the thread table and activate the policy.
    pub fn init(&mut self)
        ensures
            final(self).active,
            final(self).log.spec_total() == 0,
            final(self).ring_caps == old(self).ring_caps,
            final(self).cap_table@[0].fresh(thread_cap::tcap::DEFAULT_KERNEL, 0, 0),
            final(self).cap_table@[1].fresh(thread_cap::tcap::DEFAULT_KERNEL, 0, 0),
            final(self).cap_table@[2].fresh(thread_cap::tcap::DEFAULT_USER, 3, 128),
            forall|i: int| 3 <= i < MAX_THREADS ==> (#[trigger] final(self).cap_table@[i]).fresh(0, 3, 0),
            forall|i: int| 0 <= i < MAX_THREADS ==> (#[trigger] final(self).cap_table@[i]).wf(),
    {
        self.log = PolicyLog::new();
        self.active = true;
        policy::init_ring_caps();
        thread_cap::init_cap_table(&mut self.cap_table);
    }

    /// The syscall check for thread `tid` calling `syscall_nr` from code
    /// segment `cs` at `tick`: `Ok` lets the call through; a refusal is
    /// logged and answered with `err::PERM`.
    pub fn check_syscall(&mut self, syscall_nr: u64, cs: u64, tid: usize, tick: u64) -> (r: Result<(), i64>)
        requires
            old(self).active && mask_allows(spec_ring_syscall_mask(ring_of(cs)), syscall_nr) ==> tid < MAX_THREADS
                && old(self).cap_table@[tid as int].wf(),
        ensures
            syscall_verdict(old(self), syscall_nr, cs, tid) == ViolationKind::NoViolation ==> r == Ok::<(), i64>(
                (),
            ) && unchanged(old(self), final(self)),
            syscall_verdict(old(self), syscall_nr, cs, tid) != ViolationKind::NoViolation ==> r == Err::<(), i64>(
                err::PERM,
            ) && logged(
                old(self),
                final(self),
                syscall_verdict(old(self), syscall_nr, cs, tid),
                ring_of(cs),
                tid as u32,
                syscall_nr,
                tick,
            ),
    {
        if !self.active {
            return Ok(());
        }
        let ring = ring_from_cs(cs);
        let mask = ring_syscall_mask(ring);
        if syscall_nr < 64 && (mask & (1u64 << syscall_nr)) == 0 {
            self.log.record(ViolationKind::SyscallDenied, ring, tid as u32, syscall_nr, tick);
            return Err(err::PERM);
        }
        let cap = self.cap_table[tid];
        if cap.is_revoked() {
            self.log.record(ViolationKind::ThreadRevoked, ring, tid as u32, syscall_nr, tick);
            return Err(err::PERM);
        }
        if cap.denies(syscall_nr) {
            self.log.record(ViolationKind::ThreadDenied, ring, tid as u32, syscall_nr, tick);
            return Err(err::PERM);
        }
        let ring_cap = self.ring_caps[ring as usize];
        if !ring_cap.allows_syscall(syscall_nr) {
            self.log.record(ViolationKind::RingCapDenied, ring, tid as u32, syscall_nr, tick);
            return Err(err::PERM);
        }
        Ok(())
    }

    /// Only ring 0 may spawn kernel threads.
    pub fn check_spawn_kernel(&mut self, cs: u64, tid: usize, tick: u64) -> (r: Result<(), i64>)
        ensures
            ring_of(cs) == 0 ==> r == Ok::<(), i64>(()) && unchanged(old(self), final(self)),
            ring_of(cs) != 0 ==> r == Err::<(), i64>(err::PERM) && logged(
                old(self),
                final(self),
                ViolationKind::KernelSpawnDenied,
                ring_of(cs),
                tid as u32,
                0,
                tick,
            ),
    {
        let ring = ring_from_cs(cs);
        if ring != 0 {
            self.log.record(ViolationKind::KernelSpawnDenied, ring, tid as u32, 0, tick);
            return Err(err::PERM);
        }
        Ok(())
    }

    /// Port I/O needs the ring's I/O capability.
    pub fn check_io_access(&mut self, cs: u64, port: u16, tid: usize, tick: u64) -> (r: Result<(), i64>)
        ensures
            old(self).ring_caps@[ring_of(cs) as int].can_io ==> r == Ok::<(), i64>(()) && unchanged(
                old(self),
                final(self),
            ),
            !old(self).ring_caps@[ring_of(cs) as int].can_io ==> r == Err::<(), i64>(err::PERM) && logged(
                old(self),
                final(self),
                ViolationKind::IoDenied,
                ring_of(cs),
                tid as u32,
                port as u64,
                tick,
            ),
    {
        let ring = ring_from_cs(cs);
        if !self.ring_caps[ring as usize].can_io {
            self.log.record(ViolationKind::IoDenied, ring, tid as u32, port as u64, tick);
            return Err(err::PERM);
        }
        Ok(())
    }

    /// Mapping physical memory needs the ring's physical-map capability.
    pub fn check_phys_map(&mut self, cs: u64, phys: u64, tid: usize, tick: u64) -> (r: Result<(), i64>)
        ensures
            old(self).ring_caps@[ring_of(cs) as int].can_phys_map ==> r == Ok::<(), i64>(()) && unchanged(
                old(self),
                final(self),
            ),
            !old(self).ring_caps@[ring_of(cs) as int].can_phys_map ==> r == Err::<(), i64>(err::PERM) && logged(
                old(self),
                final(self),
                ViolationKind::PhysMapDenied,
                ring_of(cs),
                tid as u32,
                phys,
                tick,
            ),
    {
        let ring = ring_from_cs(cs);
        if !self.ring_caps[ring as usize].can_phys_map {
            self.log.record(ViolationKind::PhysMapDenied, ring, tid as u32, phys, tick);
            return Err(err::PERM);
        }
        Ok(())
    }

    /// Only ring 0 may change IRQ masks.
    pub fn check_irq_control(&mut self, cs: u64, tid: usize, tick: u64) -> (r: Result<(), i64>)
        ensures
            ring_of(cs) == 0 ==> r == Ok::<(), i64>(()) && unchanged(old(self), final(self)),
            ring_of(cs) != 0 ==> r == Err::<(), i64>(err::PERM) && logged(
                old(self),
                final(self),
                ViolationKind::IrqDenied,
                ring_of(cs),
                tid as u32,
                0,
                tick,
            ),
    {
        let ring = ring_from_cs(cs);
        if ring != 0 {
            self.log.record(ViolationKind::IrqDenied, ring, tid as u32, 0, tick);
            return Err(err::PERM);
        }
        Ok(())
    }

    /// Grant a capability to thread `tid` (ignored for slots out of range).
    pub fn grant_cap(&mut self, tid: usize, cap_flag: u64)
        ensures
            tid >= MAX_THREADS ==> final(self).cap_table == old(self).cap_table,
            tid < MAX_THREADS ==> {
                let o = old(self).cap_table@[tid as int];
                final(self).cap_table@ == old(self).cap_table@.update(
                    tid as int,
                    if o.spec_is_revoked() { o } else { ThreadCap { flags: o.flags | cap_flag, ..o } },
                )
            },
            final(self).active == old(self).active,
            final(self).ring_caps == old(self).ring_caps,
    {
        if tid < MAX_THREADS {
            let mut c = self.cap_table[tid];
            c.grant(cap_flag);
            self.cap_table[tid] = c;
        }
    }

    /// Revoke a capability of thread `tid` (ignored for slots out of range).
    pub fn revoke_cap(&mut self, tid: usize, cap_flag: u64)
        ensures
            tid >= MAX_THREADS ==> final(self).cap_table == old(self).cap_table,
            tid < MAX_THREADS ==> final(self).cap_table@ == old(self).cap_table@.update(
                tid as int,
                ThreadCap { flags: old(self).cap_table@[tid as int].flags & !cap_flag, ..old(self).cap_table@[tid as int] },
            ),
            final(self).active == old(self).active,
            final(self).ring_caps == old(self).ring_caps,
    {
        if tid < MAX_THREADS {
            let mut c = self.cap_table[tid];
            c.revoke(cap_flag);
            self.cap_table[tid] = c;
        }
    }

    /// Revoke thread `tid` completely (ignored for slots out of range).
    pub fn revoke_thread(&mut self, tid: usize)
        ensures
            tid >= MAX_THREADS ==> final(self).cap_table == old(self).cap_table,
            tid < MAX_THREADS ==> {
                &&& final(self).cap_table@[tid as int].spec_is_revoked()
                &&& final(self).cap_table@[tid as int].wf()
                &&& forall|i: int| 0 <= i < MAX_THREADS && i != tid ==> #[trigger] final(self).cap_table@[i] == old(self).cap_table@[i]
            },
            final(self).active == old(self).active,
            final(self).ring_caps == old(self).ring_caps,
    {
        if tid < MAX_THREADS {
            let mut c = self.cap_table[tid];
            c.revoke_all();
            self.cap_table[tid] = c;
        }
    }

    /// Add a syscall to the deny list of thread `tid` (ignored for slots out
    /// of range).
    pub fn deny_syscall(&mut self, tid: usize, syscall_nr: u64)
        requires
            tid < MAX_THREADS ==> old(self).cap_table@[tid as int].wf(),
        ensures
            tid >= MAX_THREADS ==> final(self).cap_table == old(self).cap_table,
            tid < MAX_THREADS ==> {
                let o = old(self).cap_table@[tid as int];
                let n = final(self).cap_table@[tid as int];
                &&& n.wf()
                &&& (o.deny_count < thread_cap::MAX_DENY_LIST || o.spec_denies(syscall_nr)) ==> n.spec_denies(syscall_nr)
                &&& o.flags == n.flags
                &&& forall|i: int| 0 <= i < MAX_THREADS && i != tid ==> #[trigger] final(self).cap_table@[i] == old(self).cap_table@[i]
            },
            final(self).active == old(self).active,
            final(self).ring_caps == old(self).ring_caps,
    {
        if tid < MAX_THREADS {
            let mut c = self.cap_table[tid];
            c.add_deny(syscall_nr);
            self.cap_table[tid] = c;
        }
    }

    pub fn violation_count(&self) -> (r: u32)
        ensures
            r == self.log.spec_total(),
    {
        self.log.total_violations()
    }

    /// The entries a dump of the `n` most recent violations lists.
    pub fn dump_recent(&self, n: usize) -> (r: Vec<LogEntry>)
        ensures
            r@ == audit::recent_entries(
                self.log.spec_entries(),
                self.log.spec_head(),
                if n <= self.log.spec_total() && n <= audit::MAX_LOG_ENTRIES {
                    n as int
                } else if self.log.spec_total() <= audit::MAX_LOG_ENTRIES {
                    self.log.spec_total() as int
                } else {
                    audit::MAX_LOG_ENTRIES as int
                },
            ),
    {
        self.log.dump_recent(n)
    }
}

/// Law: while the policy is active, a revoked thread gets no system call
/// through.
pub proof fn law_revoked_thread_refused(e: &PolicyEngine, syscall_nr: u64, cs: u64, tid: usize)
    requires
        e.active,
        e.cap_table@[tid as int].spec_is_revoked(),
    ensures
        syscall_verdict(e, syscall_nr, cs, tid) != ViolationKind::NoViolation,
{
}

/// Law: while the policy is active, a syscall on the caller's deny list is
/// refused.
pub proof fn law_denied_syscall_refused(e: &PolicyEngine, syscall_nr: u64, cs: u64, tid: usize)
    requires
        e.active,
        e.cap_table@[tid as int].spec_denies(syscall_nr),
    ensures
        syscall_verdict(e, syscall_nr, cs, tid) != ViolationKind::NoViolation,
{
}

/// Law: while the policy is active, code in a ring without a syscall mask
/// (ring 2) gets none of the syscalls numbered below 64 through.
pub proof fn law_unknown_ring_refused(e: &PolicyEngine, syscall_nr: u64, cs: u64, tid: usize)
    requires
        e.active,
        ring_of(cs) == 2,
        syscall_nr < 64,
    ensures
        syscall_verdict(e, syscall_nr, cs, tid) == ViolationKind::SyscallDenied,
{
    assert(0u64 & (1u64 << syscall_nr) == 0) by (bit_vector);
}

/// Law: an inactive policy lets everything through.
pub proof fn law_inactive_allows(e: &PolicyEngine, syscall_nr: u64, cs: u64, tid: usize)
    requires
        !e.active,
    ensures
        syscall_verdict(e, syscall_nr, cs, tid) == ViolationKind::NoViolation,
{
}

} // verus!
