//! Per-ring capability tables: what each privilege level may do at the
//! resource level, independent of syscall numbers.
use vstd::prelude::*;
use crate::syscall_api::nr;

pub mod cap;

verus! {

/// Capability record of one ring.
#[derive(Clone, Copy)]
pub struct RingCaps {
    pub ring: u8,
    pub cap_flags: u64,
    /// Allowed syscall numbers, one bit each.
    pub syscall_mask: u64,
    pub can_io: bool,
    pub can_phys_map: bool,
    pub can_irq: bool,
    pub can_raw_disk: bool,
    /// Threads this ring may spawn.
    pub max_threads: u8,
    /// Pages per MEM_ALLOC call.
    pub max_mem_pages: u32,
}

/// The derived booleans of a record follow its capability flags.
pub open spec fn derived_flags_ok(c: RingCaps) -> bool {
    &&& c.can_io == (c.cap_flags & cap::IO_ACCESS != 0)
    &&& c.can_phys_map == (c.cap_flags & cap::PHYS_MAP != 0)
    &&& c.can_irq == (c.cap_flags & cap::IRQ_CONTROL != 0)
    &&& c.can_raw_disk == (c.cap_flags & cap::RAW_DISK != 0)
}

/// Syscall bit `nr` of a mask.
pub open spec fn mask_allows(mask: u64, nr: u64) -> bool {
    nr >= 64 || mask & (1u64 << nr) != 0
}

impl RingCaps {
    pub fn new(ring: u8, cap_flags: u64, syscall_mask: u64, max_threads: u8, max_mem_pages: u32) -> (r: Self)
        ensures
            r.ring == ring,
            r.cap_flags == cap_flags,
            r.syscall_mask == syscall_mask,
            r.max_threads == max_threads,
            r.max_mem_pages == max_mem_pages,
            derived_flags_ok(r),
    {
        RingCaps {
            ring,
            cap_flags,
            syscall_mask,
            can_io: cap_flags & cap::IO_ACCESS != 0,
            can_phys_map: cap_flags & cap::PHYS_MAP != 0,
            can_irq: cap_flags & cap::IRQ_CONTROL != 0,
            can_raw_disk: cap_flags & cap::RAW_DISK != 0,
            max_threads,
            max_mem_pages,
        }
    }

    /// Syscalls numbered 64 and above are allowed; below 64 the mask decides.
    pub fn allows_syscall(&self, nr: u64) -> (r: bool)
        ensures
            r == mask_allows(self.syscall_mask, nr),
    {
        if nr >= 64 {
            return true;
        }
        self.syscall_mask & (1u64 << nr) != 0
    }

    pub fn has_cap(&self, flag: u64) -> (r: bool)
        ensures
            r == (self.cap_flags & flag != 0),
    {
        self.cap_flags & flag != 0
    }

    pub fn allows_mem_alloc(&self, pages: u32) -> (r: bool)
        ensures
            r == (pages <= self.max_mem_pages),
    {
        pages <= self.max_mem_pages
    }
}

/// Syscalls permitted to ring 1.
pub const RING1_MASK: u64 = (1 << nr::EXIT) | (1 << nr::WRITE) | (1 << nr::READ) | (1 << nr::YIELD) | (1
    << nr::SPAWN) | (1 << nr::SLEEP) | (1 << nr::MEM_ALLOC) | (1 << nr::MEM_FREE) | (1 << nr::IPC_SEND) | (1
    << nr::IPC_RECV) | (1 << nr::IPC_POLL) | (1 << nr::THREAD_ID) | (1 << nr::TIME);

/// Syscalls permitted to ring 3.
pub const RING3_MASK: u64 = (1 << nr::EXIT) | (1 << nr::WRITE) | (1 << nr::READ) | (1 << nr::YIELD) | (1
    << nr::SLEEP) | (1 << nr::MEM_ALLOC) | (1 << nr::MEM_FREE) | (1 << nr::IPC_SEND) | (1 << nr::IPC_RECV)
    | (1 << nr::IPC_POLL) | (1 << nr::THREAD_ID) | (1 << nr::TIME) | (1 << nr::DEBUG_PRINT);

/// The boot-time table, indexed by ring: ring 0 may do everything, ring 1
/// drives devices, ring 2 is reserved and may do nothing, ring 3 is user
/// space.
pub fn default_ring_caps() -> (r: [RingCaps; 4])
    ensures
        forall|i: int| 0 <= i < 4 ==> derived_flags_ok(#[trigger] r@[i]) && r@[i].ring == i,
        r@[0].cap_flags == cap::ALL && r@[0].syscall_mask == u64::MAX && r@[0].max_threads == 255
            && r@[0].max_mem_pages == 4096,
        r@[1].cap_flags == cap::DEVSPACE_DEFAULT && r@[1].syscall_mask == RING1_MASK && r@[1].max_threads == 16
            && r@[1].max_mem_pages == 256,
        r@[2].cap_flags == cap::NONE && r@[2].syscall_mask == 0 && r@[2].max_threads == 0 && r@[2].max_mem_pages
            == 0,
        r@[3].cap_flags == cap::USERSPACE_DEFAULT && r@[3].syscall_mask == RING3_MASK && r@[3].max_threads == 8
            && r@[3].max_mem_pages == 128,
{
    [
        RingCaps::new(0, cap::ALL, u64::MAX, 255, 4096),
        RingCaps::new(1, cap::DEVSPACE_DEFAULT, RING1_MASK, 16, 256),
        RingCaps::new(2, cap::NONE, 0, 0, 0),
        RingCaps::new(3, cap::USERSPACE_DEFAULT, RING3_MASK, 8, 128),
    ]
}

/// The table is fixed at build time; nothing happens at run time.
pub fn init_ring_caps() {
}

/// Recompute the derived booleans of a record from its flags.
fn refresh_derived(c: &mut RingCaps)
    ensures
        derived_flags_ok(*final(c)),
        final(c).cap_flags == old(c).cap_flags,
        final(c).ring == old(c).ring,
        final(c).syscall_mask == old(c).syscall_mask,
        final(c).max_threads == old(c).max_threads,
        final(c).max_mem_pages == old(c).max_mem_pages,
{
    c.can_io = c.cap_flags & cap::IO_ACCESS != 0;
    c.can_phys_map = c.cap_flags & cap::PHYS_MAP != 0;
    c.can_irq = c.cap_flags & cap::IRQ_CONTROL != 0;
    c.can_raw_disk = c.cap_flags & cap::RAW_DISK != 0;
}

/// Add `flag` to the capabilities of `ring` (rings above 3 are ignored).
pub fn ring_grant_cap(table: &mut [RingCaps; 4], ring: u8, flag: u64)
    ensures
        ring >= 4 ==> final(table)@ == old(table)@,
        ring < 4 ==> {
            let o = old(table)@[ring as int];
            let n = final(table)@[ring as int];
            &&& n.cap_flags == o.cap_flags | flag
            &&& derived_flags_ok(n)
            &&& n.ring == o.ring && n.syscall_mask == o.syscall_mask && n.max_threads == o.max_threads
                && n.max_mem_pages == o.max_mem_pages
            &&& forall|i: int| 0 <= i < 4 && i != ring ==> #[trigger] final(table)@[i] == old(table)@[i]
        },
{
    if ring < 4 {
        let mut c = table[ring as usize];
        c.cap_flags = c.cap_flags | flag;
        refresh_derived(&mut c);
        table[ring as usize] = c;
    }
}

/// Remove `flag` from the capabilities of `ring` (rings above 3 are ignored).
pub fn ring_revoke_cap(table: &mut [RingCaps; 4], ring: u8, flag: u64)
    ensures
        ring >= 4 ==> final(table)@ == old(table)@,
        ring < 4 ==> {
            let o = old(table)@[ring as int];
            let n = final(table)@[ring as int];
            &&& n.cap_flags == o.cap_flags & !flag
            &&& derived_flags_ok(n)
            &&& n.ring == o.ring && n.syscall_mask == o.syscall_mask && n.max_threads == o.max_threads
                && n.max_mem_pages == o.max_mem_pages
            &&& forall|i: int| 0 <= i < 4 && i != ring ==> #[trigger] final(table)@[i] == old(table)@[i]
        },
{
    if ring < 4 {
        let mut c = table[ring as usize];
        c.cap_flags = c.cap_flags & !flag;
        refresh_derived(&mut c);
        table[ring as usize] = c;
    }
}

/// Set the per-call page limit of `ring` (rings above 3 are ignored).
pub fn ring_set_max_mem(table: &mut [RingCaps; 4], ring: u8, pages: u32)
    ensures
        ring >= 4 ==> final(table)@ == old(table)@,
        ring < 4 ==> final(table)@ == old(table)@.update(
            ring as int,
            RingCaps { max_mem_pages: pages, ..old(table)@[ring as int] },
        ),
{
    if ring < 4 {
        let mut c = table[ring as usize];
        c.max_mem_pages = pages;
        table[ring as usize] = c;
    }
}

/// A copy of the record of `ring`, if the ring exists.
pub fn ring_caps_of(table: &[RingCaps; 4], ring: u8) -> (r: Option<RingCaps>)
    ensures
        ring < 4 ==> r == Some(table@[ring as int]),
        ring >= 4 ==> r is None,
{
    if ring < 4 {
        Some(table[ring as usize])
    } else {
        None
    }
}

} // verus!
