//! x86-64 processor structures the kernel builds: the interrupt frame,
//! the task-state segment, segment and interrupt descriptors, and the timer
//! divisor. Loading them into the processor is the caller's.
use vstd::prelude::*;

verus! {

/// Registers saved on an interrupt: the general registers pushed by the
/// entry stub, then the frame the processor pushes.
#[derive(Copy, Clone)]
pub struct TF {
    pub r15: u64,
    pub r14: u64,
    pub r13: u64,
    pub r12: u64,
    pub r11: u64,
    pub r10: u64,
    pub r9: u64,
    pub r8: u64,
    pub rdi: u64,
    pub rsi: u64,
    pub rdx: u64,
    pub rcx: u64,
    pub rbx: u64,
    pub rbp: u64,
    /// For an exception with an error code, the error code.
    pub rax: u64,
    pub rip: u64,
    pub cs: u64,
    pub rflags: u64,
    pub rsp: u64,
    pub ss: u64,
}

/// The interrupt frame under its longer name.
pub type TrapFrame = TF;

/// Bytes of the task-state segment.
pub const TSS_SIZE: u16 = 104;

/// The 64-bit task-state segment.
#[derive(Copy, Clone)]
pub struct Tss {
    pub _r0: u32,
    /// Stack for entering ring 0 from ring 3.
    pub rsp0: u64,
    pub rsp1: u64,
    pub rsp2: u64,
    pub _r1: u64,
    /// Interrupt stack 1 (double fault).
    pub ist1: u64,
    pub _ist: [u64; 6],
    pub _r2: u64,
    pub _r3: u16,
    /// Offset of the I/O permission map: the segment's size, so none.
    pub iomap: u16,
}

impl Tss {
    /// All stacks zero, no I/O permission map.
    pub fn new() -> (r: Self)
        ensures
            r.rsp0 == 0 && r.rsp1 == 0 && r.rsp2 == 0 && r.ist1 == 0,
            r.iomap == TSS_SIZE,
    {
        Tss { _r0: 0, rsp0: 0, rsp1: 0, rsp2: 0, _r1: 0, ist1: 0, _ist: [0; 6], _r2: 0, _r3: 0, iomap: TSS_SIZE }
    }

    /// Set the ring-0 stack.
    pub fn set_rsp0(&mut self, v: u64)
        ensures
            final(self).rsp0 == v,
            final(self).rsp1 == old(self).rsp1 && final(self).rsp2 == old(self).rsp2,
            final(self).ist1 == old(self).ist1 && final(self).iomap == old(self).iomap,
    {
        self.rsp0 = v;
    }
}

/// A segment descriptor.
#[derive(Copy, Clone, PartialEq, Eq, Structural, Debug)]
pub struct GdtE {
    pub ll: u16,
    pub lb: u16,
    pub mb: u8,
    pub acc: u8,
    pub gr: u8,
    pub hb: u8,
}

impl GdtE {
    pub fn null() -> (r: Self)
        ensures
            r == (GdtE { ll: 0, lb: 0, mb: 0, acc: 0, gr: 0, hb: 0 }),
    {
        GdtE { ll: 0, lb: 0, mb: 0, acc: 0, gr: 0, hb: 0 }
    }

    /// The descriptor of a segment: limit bits 0..16 and 16..20, base bits
    /// 0..16, 16..24 and 24..32, the access byte, and the high nibble of
    /// the granularity byte.
    pub fn seg(base: u64, lim: u64, acc: u8, gr: u8) -> (r: Self)
        ensures
            r == (GdtE {
                ll: (lim & 0xFFFF) as u16,
                lb: (base & 0xFFFF) as u16,
                mb: ((base >> 16u64) & 0xFF) as u8,
                acc,
                gr: (((lim >> 16u64) & 0xF) as u8) | (gr & 0xF0),
                hb: ((base >> 24u64) & 0xFF) as u8,
            }),
    {
        GdtE {
            ll: (lim & 0xFFFF) as u16,
            lb: (base & 0xFFFF) as u16,
            mb: ((base >> 16) & 0xFF) as u8,
            acc,
            gr: (((lim >> 16) & 0xF) as u8) | (gr & 0xF0),
            hb: ((base >> 24) & 0xFF) as u8,
        }
    }
}

/// The six descriptors of the kernel's table: null, kernel code and data,
/// user code and data (privilege 3), and the low half of the task-state
/// segment's; plus the high half, which holds bits 32..64 of its base.
pub fn gdt_entries(tss_base: u64, tss_limit: u64) -> (r: ([GdtE; 6], u64))
    ensures
        r.0@ == seq![
            GdtE { ll: 0, lb: 0, mb: 0, acc: 0, gr: 0, hb: 0 },
            GdtE { ll: 0xFFFF, lb: 0, mb: 0, acc: 0x9A, gr: 0x2F, hb: 0 },
            GdtE { ll: 0xFFFF, lb: 0, mb: 0, acc: 0x92, gr: 0x0F, hb: 0 },
            GdtE { ll: 0xFFFF, lb: 0, mb: 0, acc: 0xFA, gr: 0x2F, hb: 0 },
            GdtE { ll: 0xFFFF, lb: 0, mb: 0, acc: 0xF2, gr: 0x0F, hb: 0 },
            GdtE {
                ll: (tss_limit & 0xFFFF) as u16,
                lb: (tss_base & 0xFFFF) as u16,
                mb: ((tss_base >> 16u64) & 0xFF) as u8,
                acc: 0x89,
                gr: (((tss_limit >> 16u64) & 0xF) as u8) | (0u8 & 0xF0),
                hb: ((tss_base >> 24u64) & 0xFF) as u8,
            },
        ],
        r.1 == tss_base >> 32u64,
{
    let code = GdtE::seg(0, 0xFFFFF, 0x9A, 0x20);
    let data = GdtE::seg(0, 0xFFFFF, 0x92, 0x00);
    let ucode = GdtE::seg(0, 0xFFFFF, 0xFA, 0x20);
    let udata = GdtE::seg(0, 0xFFFFF, 0xF2, 0x00);
    proof {
        assert((0xFFFFFu64 & 0xFFFF) as u16 == 0xFFFF && (0u64 & 0xFFFF) as u16 == 0 && ((0u64 >> 16u64) & 0xFF)
            as u8 == 0 && ((0u64 >> 24u64) & 0xFF) as u8 == 0 && (((0xFFFFFu64 >> 16u64) & 0xF) as u8) | (0x20u8
            & 0xF0) == 0x2F && (((0xFFFFFu64 >> 16u64) & 0xF) as u8) | (0x00u8 & 0xF0) == 0x0F) by (bit_vector);
    }
    let t = GdtE::seg(tss_base, tss_limit, 0x89, 0x00);
    let e = [GdtE::null(), code, data, ucode, udata, t];
    (e, tss_base >> 32)
}

/// An interrupt descriptor.
#[derive(Copy, Clone, PartialEq, Eq, Structural, Debug)]
pub struct IdtE {
    pub lo: u16,
    pub sel: u16,
    pub ist: u8,
    pub attr: u8,
    pub mi: u16,
    pub hi: u32,
    pub _z: u32,
}

impl IdtE {
    pub fn null() -> (r: Self)
        ensures
            r == (IdtE { lo: 0, sel: 0, ist: 0, attr: 0, mi: 0, hi: 0, _z: 0 }),
    {
        IdtE { lo: 0, sel: 0, ist: 0, attr: 0, mi: 0, hi: 0, _z: 0 }
    }

    /// The interrupt descriptor for handler `h` through code segment `sel`, callable from
    /// privilege `dpl`, on interrupt stack `ist`: a present 64-bit
    /// interrupt descriptor (0x8E) with the privilege in bits 5..7.
    pub fn new(h: u64, sel: u16, dpl: u8, ist: u8) -> (r: Self)
        ensures
            r == (IdtE {
                lo: (h & 0xFFFF) as u16,
                mi: ((h >> 16u64) & 0xFFFF) as u16,
                hi: (h >> 32u64) as u32,
                sel,
                ist,
                attr: 0x8E | (dpl << 5u8),
                _z: 0,
            }),
    {
        IdtE {
            lo: (h & 0xFFFF) as u16,
            mi: ((h >> 16) & 0xFFFF) as u16,
            hi: (h >> 32) as u32,
            sel,
            ist,
            attr: 0x8E | (dpl << 5),
            _z: 0,
        }
    }

    /// The handler address the descriptor holds.
    pub open spec fn target(self) -> int {
        self.lo + self.mi * 0x1_0000 + self.hi * 0x1_0000_0000
    }
}

/// Input clock of the programmable interval timer, in Hz.
pub const PIT_HZ: u32 = 1193180;

/// Divisor that makes the timer tick `hz` times a second.
pub fn pit_divisor(hz: u32) -> (r: u16)
    requires
        hz > 0,
    ensures
        r == (PIT_HZ / hz) as u16,
{
    (PIT_HZ / hz) as u16
}

/// Base of the kernel's mapping of all physical memory.
pub const PHYS_OFFSET: u64 = 0xFFFF_8000_0000_0000;

/// The kernel address of physical address `p`.
pub fn phys_to_virt(p: u64) -> (r: u64)
    requires
        p + PHYS_OFFSET <= u64::MAX,
    ensures
        r == p + PHYS_OFFSET,
{
    p + PHYS_OFFSET
}

/// The physical address behind kernel address `v`.
pub fn virt_to_phys(v: u64) -> (r: u64)
    requires
        v >= PHYS_OFFSET,
    ensures
        r == v - PHYS_OFFSET,
{
    v - PHYS_OFFSET
}

/// State of a thread in the boot-time scheduler.
#[derive(Copy, Clone, PartialEq, Eq, Structural, Debug)]
pub enum ThreadState {
    Running,
    Ready,
    Blocked,
    Terminated,
}

} // verus!
