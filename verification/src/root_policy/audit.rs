//! Ring buffer of recent policy violations.
use vstd::prelude::*;
use vstd::string::StringSliceAdditionalSpecFns;
use crate::libcosinus::fmt::{dec_digits, put_str, put_dec};
use crate::console::{hex16, put_hex};

verus! {

pub const MAX_LOG_ENTRIES: usize = 256;

/// What a refused request ran into.
#[derive(Clone, Copy, PartialEq, Eq, Structural)]
pub enum ViolationKind {
    NoViolation,
    /// Ring-level syscall mask denied.
    SyscallDenied,
    /// The thread is fully revoked.
    ThreadRevoked,
    /// Thread-specific deny list hit.
    ThreadDenied,
    /// Ring capability table denied.
    RingCapDenied,
    /// Tried to spawn a kernel thread outside ring 0.
    KernelSpawnDenied,
    /// I/O port access denied.
    IoDenied,
    /// Physical memory map denied.
    PhysMapDenied,
    /// IRQ control denied.
    IrqDenied,
    /// Memory allocation over the limit.
    MemLimitExceeded,
    /// Policy change without the POLICY_ADMIN capability.
    PolicyAdminDenied,
}

/// The name under which a violation kind is reported.
pub open spec fn kind_name(k: ViolationKind) -> Seq<char> {
    match k {
        ViolationKind::NoViolation => "none"@,
        ViolationKind::SyscallDenied => "syscall_denied"@,
        ViolationKind::ThreadRevoked => "thread_revoked"@,
        ViolationKind::ThreadDenied => "thread_denied"@,
        ViolationKind::RingCapDenied => "ring_cap_denied"@,
        ViolationKind::KernelSpawnDenied => "kernel_spawn_denied"@,
        ViolationKind::IoDenied => "io_denied"@,
        ViolationKind::PhysMapDenied => "phys_map_denied"@,
        ViolationKind::IrqDenied => "irq_denied"@,
        ViolationKind::MemLimitExceeded => "mem_limit_exceeded"@,
        ViolationKind::PolicyAdminDenied => "policy_admin_denied"@,
    }
}

/// The bytes of the name under which a violation kind is reported.
pub open spec fn kind_bytes(k: ViolationKind) -> Seq<u8> {
    match k {
        ViolationKind::NoViolation => "none".spec_bytes(),
        ViolationKind::SyscallDenied => "syscall_denied".spec_bytes(),
        ViolationKind::ThreadRevoked => "thread_revoked".spec_bytes(),
        ViolationKind::ThreadDenied => "thread_denied".spec_bytes(),
        ViolationKind::RingCapDenied => "ring_cap_denied".spec_bytes(),
        ViolationKind::KernelSpawnDenied => "kernel_spawn_denied".spec_bytes(),
        ViolationKind::IoDenied => "io_denied".spec_bytes(),
        ViolationKind::PhysMapDenied => "phys_map_denied".spec_bytes(),
        ViolationKind::IrqDenied => "irq_denied".spec_bytes(),
        ViolationKind::MemLimitExceeded => "mem_limit_exceeded".spec_bytes(),
        ViolationKind::PolicyAdminDenied => "policy_admin_denied".spec_bytes(),
    }
}

impl ViolationKind {
    pub fn as_str(self) -> (r: &'static str)
        ensures
            r@ == kind_name(self),
            r.spec_bytes() == kind_bytes(self),
    {
        match self {
            ViolationKind::NoViolation => "none",
            ViolationKind::SyscallDenied => "syscall_denied",
            ViolationKind::ThreadRevoked => "thread_revoked",
            ViolationKind::ThreadDenied => "thread_denied",
            ViolationKind::RingCapDenied => "ring_cap_denied",
            ViolationKind::KernelSpawnDenied => "kernel_spawn_denied",
            ViolationKind::IoDenied => "io_denied",
            ViolationKind::PhysMapDenied => "phys_map_denied",
            ViolationKind::IrqDenied => "irq_denied",
            ViolationKind::MemLimitExceeded => "mem_limit_exceeded",
            ViolationKind::PolicyAdminDenied => "policy_admin_denied",
        }
    }
}

/// One logged violation.
#[derive(Clone, Copy)]
pub struct LogEntry {
    pub tick: u64,
    pub kind: ViolationKind,
    pub ring: u8,
    pub tid: u32,
    /// Syscall number, port or address, depending on the kind.
    pub detail: u64,
}

impl LogEntry {
    pub open spec fn is_empty_entry(self) -> bool {
        self.tick == 0 && self.kind == ViolationKind::NoViolation && self.ring == 0 && self.tid == 0 && self.detail == 0
    }

    pub fn empty() -> (r: Self)
        ensures
            r.is_empty_entry(),
    {
        LogEntry { tick: 0, kind: ViolationKind::NoViolation, ring: 0, tid: 0, detail: 0 }
    }
}

/// Ring buffer of the last `MAX_LOG_ENTRIES` violations and a saturating
/// count of all of them.
pub struct PolicyLog {
    entries: [LogEntry; MAX_LOG_ENTRIES],
    head: usize,
    total: u32,
}

/// Slot of the `i`-th most recent entry when the next write goes to `head`.
pub open spec fn recent_slot(head: int, i: int) -> int {
    (head + MAX_LOG_ENTRIES - 1 - i) % MAX_LOG_ENTRIES as int
}

/// The entries the dump lists: of the `count` most recent slots, newest
/// first, those that hold a violation.
pub open spec fn recent_entries(entries: Seq<LogEntry>, head: int, count: int) -> Seq<LogEntry>
    decreases count,
{
    if count <= 0 {
        Seq::empty()
    } else {
        let e = entries[recent_slot(head, count - 1)];
        let rest = recent_entries(entries, head, count - 1);
        if e.kind == ViolationKind::NoViolation {
            rest
        } else {
            rest.push(e)
        }
    }
}

/// How a violation reads on the serial line: its kind, ring, thread and
/// detail (in hexadecimal).
pub open spec fn violation_text(e: LogEntry) -> Seq<u8> {
    kind_bytes(e.kind) + " ring=".spec_bytes() + dec_digits(e.ring as nat) + " tid=".spec_bytes() + dec_digits(
        e.tid as nat,
    ) + " detail=".spec_bytes() + hex16(e.detail)
}

/// The serial line written when a violation is logged.
pub open spec fn record_line(e: LogEntry) -> Seq<u8> {
    "[POLICY] ".spec_bytes() + violation_text(e) + "\n".spec_bytes()
}

/// One entry of a dump: its tick in brackets, then the violation.
pub open spec fn dump_line(e: LogEntry) -> Seq<u8> {
    "  [".spec_bytes() + dec_digits(e.tick as nat) + "] ".spec_bytes() + violation_text(e) + "\n".spec_bytes()
}

/// The dump lines of the entries `s`, in order.
pub open spec fn dump_lines(s: Seq<LogEntry>) -> Seq<u8>
    decreases s.len(),
{
    if s.len() == 0 {
        Seq::empty()
    } else {
        dump_lines(s.drop_last()) + dump_line(s.last())
    }
}

/// A whole dump: a header, the listed entries, and the total.
pub open spec fn dump_text_of(listed: Seq<LogEntry>, total: u32) -> Seq<u8> {
    "[POLICY] === recent violations ===\n".spec_bytes() + dump_lines(listed) + "[POLICY] total=".spec_bytes()
        + dec_digits(total as nat) + "\n".spec_bytes()
}

fn put_dump_line(out: &mut Vec<u8>, e: LogEntry)
    ensures
        final(out)@ == old(out)@ + dump_line(e),
{
    put_str(out, "  [");
    put_dec(out, e.tick);
    put_str(out, "] ");
    put_violation(out, e);
    put_str(out, "\n");
    assert(out@ =~= old(out)@ + dump_line(e));
}

fn put_violation(out: &mut Vec<u8>, e: LogEntry)
    ensures
        final(out)@ == old(out)@ + violation_text(e),
{
    put_str(out, e.kind.as_str());
    put_str(out, " ring=");
    put_dec(out, e.ring as u64);
    put_str(out, " tid=");
    put_dec(out, e.tid as u64);
    put_str(out, " detail=");
    put_hex(out, e.detail);
    assert(out@ =~= old(out)@ + violation_text(e));
}

impl PolicyLog {
    pub closed spec fn spec_entries(&self) -> Seq<LogEntry> {
        self.entries@
    }

    pub closed spec fn spec_head(&self) -> int {
        self.head as int
    }

    pub closed spec fn spec_total(&self) -> u32 {
        self.total
    }

    #[verifier::type_invariant]
    spec fn inv(&self) -> bool {
        self.head < MAX_LOG_ENTRIES
    }

    pub fn new() -> (r: Self)
        ensures
            r.spec_head() == 0,
            r.spec_total() == 0,
            forall|i: int| 0 <= i < MAX_LOG_ENTRIES ==> (#[trigger] r.spec_entries()[i]).is_empty_entry(),
    {
        PolicyLog {
            entries: [LogEntry { tick: 0, kind: ViolationKind::NoViolation, ring: 0, tid: 0, detail: 0 }; MAX_LOG_ENTRIES],
            head: 0,
            total: 0,
        }
    }

    /// Log a violation seen at `tick`: it overwrites the oldest slot, and the
    /// total grows unless it is saturated. Returns the line that goes to the
    /// serial port.
    pub fn record(&mut self, kind: ViolationKind, ring: u8, tid: u32, detail: u64, tick: u64) -> (line: Vec<u8>)
        ensures
            line@ == record_line(LogEntry { tick, kind, ring, tid, detail }),
            final(self).spec_entries() == old(self).spec_entries().update(
                old(self).spec_head(),
                LogEntry { tick, kind, ring, tid, detail },
            ),
            final(self).spec_head() == (old(self).spec_head() + 1) % MAX_LOG_ENTRIES as int,
            final(self).spec_total() == if old(self).spec_total() < u32::MAX {
                (old(self).spec_total() + 1) as u32
            } else {
                old(self).spec_total()
            },
    {
        proof {
            use_type_invariant(&*self);
        }
        let h = self.head;
        self.entries[h] = LogEntry { tick, kind, ring, tid, detail };
        self.head = (h + 1) % MAX_LOG_ENTRIES;
        if self.total < u32::MAX {
            self.total = self.total + 1;
        }
        let mut line: Vec<u8> = Vec::new();
        put_str(&mut line, "[POLICY] ");
        put_violation(&mut line, LogEntry { tick, kind, ring, tid, detail });
        put_str(&mut line, "\n");
        assert(line@ =~= record_line(LogEntry { tick, kind, ring, tid, detail }));
        line
    }

    /// The serial line of the most recently logged violation (the one just
    /// before `head`).
    pub fn last_line(&self) -> (r: Vec<u8>)
        ensures
            r@ == record_line(self.spec_entries()[recent_slot(self.spec_head(), 0)]),
    {
        proof {
            use_type_invariant(self);
        }
        let idx = (self.head + MAX_LOG_ENTRIES - 1) % MAX_LOG_ENTRIES;
        let e = self.entries[idx];
        let mut line: Vec<u8> = Vec::new();
        put_str(&mut line, "[POLICY] ");
        put_violation(&mut line, e);
        put_str(&mut line, "\n");
        assert(line@ =~= record_line(e));
        line
    }

    pub fn total_violations(&self) -> (r: u32)
        ensures
            r == self.spec_total(),
    {
        self.total
    }

    /// The entries a dump of the `n` most recent violations lists, newest
    /// first: slots that never held a violation are skipped.
    pub fn dump_recent(&self, n: usize) -> (r: Vec<LogEntry>)
        ensures
            r@ == recent_entries(
                self.spec_entries(),
                self.spec_head(),
                if n <= self.spec_total() && n <= MAX_LOG_ENTRIES {
                    n as int
                } else if self.spec_total() <= MAX_LOG_ENTRIES {
                    self.spec_total() as int
                } else {
                    MAX_LOG_ENTRIES as int
                },
            ),
    {
        proof {
            use_type_invariant(self);
        }
        let t = self.total as usize;
        let c1 = if n < t { n } else { t };
        let count = if c1 < MAX_LOG_ENTRIES { c1 } else { MAX_LOG_ENTRIES };
        let mut out: Vec<LogEntry> = Vec::new();
        let mut i: usize = 0;
        while i < count
            invariant
                0 <= i <= count,
                count <= MAX_LOG_ENTRIES,
                self.head < MAX_LOG_ENTRIES,
                out@ == recent_entries(self.entries@, self.head as int, i as int),
            decreases count - i,
        {
            let idx = (self.head + MAX_LOG_ENTRIES - 1 - i) % MAX_LOG_ENTRIES;
            let e = self.entries[idx];
            if e.kind != ViolationKind::NoViolation {
                out.push(e);
            }
            i = i + 1;
        }
        out
    }

    /// The text of a dump of the `n` most recent violations, as it goes to
    /// the serial port: a header, a line for each entry `dump_recent`
    /// lists, and the total.
    pub fn dump_text(&self, n: usize) -> (r: Vec<u8>)
        ensures
            r@ == dump_text_of(
                recent_entries(
                    self.spec_entries(),
                    self.spec_head(),
                    if n <= self.spec_total() && n <= MAX_LOG_ENTRIES {
                        n as int
                    } else if self.spec_total() <= MAX_LOG_ENTRIES {
                        self.spec_total() as int
                    } else {
                        MAX_LOG_ENTRIES as int
                    },
                ),
                self.spec_total(),
            ),
    {
        let listed = self.dump_recent(n);
        let mut out: Vec<u8> = Vec::new();
        put_str(&mut out, "[POLICY] === recent violations ===\n");
        let ghost head = out@;
        let mut i: usize = 0;
        while i < listed.len()
            invariant
                i <= listed@.len(),
                out@ == head + dump_lines(listed@.subrange(0, i as int)),
            decreases listed@.len() - i,
        {
            let e = listed[i];
            put_dump_line(&mut out, e);
            proof {
                let s = listed@.subrange(0, i + 1);
                assert(s.drop_last() =~= listed@.subrange(0, i as int));
                assert(s.last() == e);
            }
            i = i + 1;
            assert(out@ =~= head + dump_lines(listed@.subrange(0, i as int)));
        }
        assert(listed@.subrange(0, i as int) =~= listed@);
        put_str(&mut out, "[POLICY] total=");
        put_dec(&mut out, self.total as u64);
        put_str(&mut out, "\n");
        assert(out@ =~= dump_text_of(listed@, self.total));
        out
    }

    /// Forget every entry.
    pub fn clear(&mut self)
        ensures
            final(self).spec_head() == 0,
            final(self).spec_total() == 0,
            forall|i: int| 0 <= i < MAX_LOG_ENTRIES ==> (#[trigger] final(self).spec_entries()[i]).is_empty_entry(),
    {
        proof {
            use_type_invariant(&*self);
        }
        let mut i: usize = 0;
        while i < MAX_LOG_ENTRIES
            invariant
                0 <= i <= MAX_LOG_ENTRIES,
                self.head < MAX_LOG_ENTRIES,
                forall|k: int| 0 <= k < i ==> (#[trigger] self.entries@[k]).is_empty_entry(),
            decreases MAX_LOG_ENTRIES - i,
        {
            self.entries[i] = LogEntry::empty();
            i = i + 1;
        }
        self.head = 0;
        self.total = 0;
    }
}

/// Law: right after a violation is recorded, the last line the log reports
/// is the line the recording returned.
pub proof fn law_last_line_after_record(before: PolicyLog, after: PolicyLog, e: LogEntry)
    requires
        0 <= before.spec_head() < MAX_LOG_ENTRIES,
        after.spec_entries() == before.spec_entries().update(before.spec_head(), e),
        after.spec_head() == (before.spec_head() + 1) % MAX_LOG_ENTRIES as int,
        before.spec_entries().len() == MAX_LOG_ENTRIES,
    ensures
        record_line(after.spec_entries()[recent_slot(after.spec_head(), 0)]) == record_line(e),
{
    assert(recent_slot(after.spec_head(), 0) == before.spec_head());
}

} // verus!
