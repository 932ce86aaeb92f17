//! Virtual memory areas: per-process bookkeeping of the regions of a user
//! address space (base, size, permissions, kind), kept sorted by base.
//! Placement of the heap, the stack and anonymous mappings is randomised.
use vstd::prelude::*;
use crate::mm::{PhysAddr, VirtAddr, PAGE_SIZE};
use crate::vmm::{PTE_W, PTE_U, PTE_NX};
use crate::vmm::tables::{TableMem, tables_held, aligned_pool, translate, unmap_run, map_blocked, backed};
use crate::mm::pmm::Pmm;

verus! {

/// Most areas one address space holds.
pub const MAX_VMAS: usize = 128;

pub const VMA_R: u32 = 1;
pub const VMA_W: u32 = 2;
pub const VMA_X: u32 = 4;
pub const VMA_USER: u32 = 8;
/// Pages are allocated on first access.
pub const VMA_DEMAND: u32 = 16;
/// Guard page, never mapped.
pub const VMA_GUARD: u32 = 32;
pub const VMA_STACK: u32 = 64;
pub const VMA_HEAP: u32 = 128;
pub const VMA_SHARED: u32 = 256;
/// The address must not be moved.
pub const VMA_FIXED: u32 = 512;

pub const USER_CODE_BASE: VirtAddr = 0x0000_0000_0040_0000;
pub const USER_HEAP_BASE: VirtAddr = 0x0000_0000_1000_0000;
pub const USER_MMAP_BASE: VirtAddr = 0x0000_0000_4000_0000;
pub const USER_STACK_TOP: VirtAddr = 0x0000_7FFF_FFFF_0000;
pub const USER_STACK_SIZE: VirtAddr = 0x0000_0000_0080_0000;

/// Random bits of the heap offset (in pages).
pub const ASLR_HEAP_BITS: u64 = 8;
/// Random bits of the anonymous-mapping offset (in pages).
pub const ASLR_MMAP_BITS: u64 = 16;
/// Random bits of the stack offset (in pages).
pub const ASLR_STACK_BITS: u64 = 8;

/// Largest end address an area may have.
pub const VMA_LIMIT: u64 = 0xFFFF_0000_0000_0000;

#[derive(Clone, Copy, PartialEq, Eq, Structural)]
pub enum VmaType {
    Unused,
    Anonymous,
    Stack,
    Heap,
    Code,
    Data,
    GuardPage,
}

#[derive(Clone, Copy)]
pub struct Vma {
    pub base: VirtAddr,
    /// Bytes, a multiple of `PAGE_SIZE`.
    pub size: usize,
    pub flags: u32,
    pub typ: VmaType,
    /// Pages already backed by a physical frame.
    pub mapped_pages: usize,
}

impl Vma {
    pub open spec fn spec_end(self) -> int {
        self.base + self.size
    }

    pub open spec fn spec_contains(self, addr: int) -> bool {
        self.base <= addr < self.spec_end()
    }

    pub open spec fn spec_overlaps(self, other_base: int, other_size: int) -> bool {
        self.base < other_base + other_size && other_base < self.spec_end()
    }

    pub fn empty() -> (r: Self)
        ensures
            r == (Vma { base: 0, size: 0, flags: 0, typ: VmaType::Unused, mapped_pages: 0 }),
    {
        Vma { base: 0, size: 0, flags: 0, typ: VmaType::Unused, mapped_pages: 0 }
    }

    pub fn end(&self) -> (r: VirtAddr)
        requires
            self.spec_end() <= u64::MAX,
        ensures
            r == self.spec_end(),
    {
        self.base + self.size as u64
    }

    pub fn contains(&self, addr: VirtAddr) -> (r: bool)
        requires
            self.spec_end() <= u64::MAX,
        ensures
            r == self.spec_contains(addr as int),
    {
        addr >= self.base && addr < self.end()
    }

    pub fn overlaps(&self, other_base: VirtAddr, other_size: usize) -> (r: bool)
        requires
            self.spec_end() <= u64::MAX,
            other_base + other_size <= u64::MAX,
        ensures
            r == self.spec_overlaps(other_base as int, other_size as int),
    {
        self.base < other_base + other_size as u64 && other_base < self.end()
    }

    /// Leaf entry flags for the area: writable and user bits follow the
    /// area's, and anything not executable is marked no-execute.
    pub fn pte_flags(&self) -> (r: u64)
        ensures
            r == (if self.flags & VMA_W != 0 { PTE_W } else { 0 }) | (if self.flags & VMA_USER != 0 {
                PTE_U
            } else {
                0
            }) | (if self.flags & VMA_X == 0 { PTE_NX } else { 0 }),
    {
        let mut f = 0u64;
        if self.flags & VMA_W != 0 {
            f = f | PTE_W;
        }
        if self.flags & VMA_USER != 0 {
            f = f | PTE_U;
        }
        if self.flags & VMA_X == 0 {
            f = f | PTE_NX;
        }
        proof {
            let w = if self.flags & VMA_W != 0 { PTE_W } else { 0u64 };
            let u = if self.flags & VMA_USER != 0 { PTE_U } else { 0u64 };
            let x = if self.flags & VMA_X == 0 { PTE_NX } else { 0u64 };
            assert((0u64 | w) == w && (w | 0u64) == w && ((w | u) | 0u64) == (w | u) && (0u64 | u) == u && (0u64
                | x) == x) by (bit_vector);
        }
        f
    }
}

/// Index of the first area from `i` on that satisfies `p`, or -1.
pub open spec fn first_vma(vs: Seq<Vma>, p: spec_fn(Vma) -> bool, i: int) -> int
    decreases vs.len() - i,
{
    if i < 0 || i >= vs.len() {
        -1
    } else if p(vs[i]) {
        i
    } else {
        first_vma(vs, p, i + 1)
    }
}

proof fn lemma_first_vma(vs: Seq<Vma>, p: spec_fn(Vma) -> bool, i: int)
    requires
        0 <= i,
    ensures
        ({
            let k = first_vma(vs, p, i);
            (k == -1 && forall|j: int| i <= j < vs.len() ==> !p(#[trigger] vs[j])) || (i <= k < vs.len() && p(vs[k])
                && forall|j: int| i <= j < k ==> !p(#[trigger] vs[j]))
        }),
    decreases vs.len() - i,
{
    if i < vs.len() && !p(vs[i]) {
        lemma_first_vma(vs, p, i + 1);
    }
}

/// Position at which `add_vma` settles a new area appended after `vs[..k]`:
/// it moves in front of every trailing area based strictly above it.
pub open spec fn settle_pos(vs: Seq<Vma>, base: int, k: int) -> int
    decreases k,
{
    if k <= 0 {
        0
    } else if vs[k - 1].base > base {
        settle_pos(vs, base, k - 1)
    } else {
        k
    }
}

/// Entry flags made of the writable, user and no-execute bits hold no size
/// bit and no address bits.
proof fn lemma_flag_bits(w: bool, u: bool, x: bool)
    by (bit_vector)
    ensures
        ((if w { 2u64 } else { 0u64 }) | (if u { 4u64 } else { 0u64 }) | (if x { 0x8000_0000_0000_0000u64 } else { 0u64 }))
            & 0x80 == 0,
        ((if w { 2u64 } else { 0u64 }) | (if u { 4u64 } else { 0u64 }) | (if x { 0x8000_0000_0000_0000u64 } else { 0u64 }))
            & 0x000F_FFFF_FFFF_F000 == 0,
{
}

proof fn lemma_settle_pos_range(vs: Seq<Vma>, base: int, k: int)
    requires
        0 <= k,
    ensures
        0 <= settle_pos(vs, base, k) <= k,
    decreases k,
{
    if k > 0 && vs[k - 1].base > base {
        lemma_settle_pos_range(vs, base, k - 1);
    }
}

/// Break that `sbrk(increment)` moves the heap to from `end`: moved by
/// `increment` (not below zero) and rounded up to a page.
pub open spec fn brk_target(end: u64, increment: int) -> int {
    page_up(if increment >= 0 {
        end + increment
    } else if end >= -increment {
        end + increment
    } else {
        0
    })
}

/// Areas after the heap break moved from `old_end` to `new_end` with the
/// heap starting at `hs` (`grew` when pages were added): the first growth
/// records a heap area; otherwise the first area containing `hs` takes the
/// heap's size and counts as fully backed.
pub open spec fn heap_areas(vs: Seq<Vma>, hs: u64, old_end: u64, new_end: u64, grew: bool) -> Seq<Vma> {
    let size = (new_end - hs) as usize;
    let k = first_vma(vs, |v: Vma| v.spec_contains(hs as int), 0);
    if grew && hs == old_end {
        add_spec(vs, Vma {
            base: hs,
            size,
            flags: VMA_R | VMA_W | VMA_USER | VMA_HEAP,
            typ: VmaType::Heap,
            mapped_pages: (size / PAGE_SIZE) as usize,
        })
    } else if k < 0 {
        vs
    } else {
        vs.update(k, Vma { size, mapped_pages: (size / PAGE_SIZE) as usize, ..vs[k] })
    }
}

/// Entry flags a demand-paging fault at `fault_addr` maps a fresh page
/// with: those of the first area holding the address, when it is
/// demand-paged and no guard; `None` otherwise.
pub open spec fn demand_flags(vs: Seq<Vma>, fault_addr: u64) -> Option<u64> {
    let k = first_vma(vs, |v: Vma| v.spec_contains(fault_addr as int), 0);
    if k < 0 {
        None
    } else {
        let v = vs[k];
        if v.typ == VmaType::GuardPage || v.flags & VMA_GUARD != 0 || v.flags & VMA_DEMAND == 0 {
            None
        } else {
            Some(
                (if v.flags & VMA_W != 0 { PTE_W } else { 0 }) | (if v.flags & VMA_USER != 0 {
                    PTE_U
                } else {
                    0
                }) | (if v.flags & VMA_X == 0 { PTE_NX } else { 0 }),
            )
        }
    }
}

/// Base at which `mmap_anon` on `s` places an area of `size` bytes, or 0
/// when it places none.
pub open spec fn anon_base(s: AddressSpace, hint: u64, size: usize, flags: u32, hw: u64) -> int {
    let sz = round_pages(size as int);
    let fixed = hint != 0 && flags & VMA_FIXED != 0;
    let (v, st) = rand_next(s.aslr_state, hw);
    let start = if hint != 0 { hint } else { s.mmap_next };
    let cand = page_down(start + offset_of(v, ASLR_MMAP_BITS));
    let found = if fixed { Some(hint as int) } else { free_range_from(s.areas(), sz, cand) };
    if sz == 0 {
        0
    } else {
        match found {
            None => 0,
            Some(a) => if spec_has_overlap(s.areas(), a, sz) || s.areas().len() >= MAX_VMAS {
                0
            } else {
                a
            },
        }
    }
}

/// An area in use that shares an address with `[base, base + size)`.
pub open spec fn blocks(v: Vma, base: int, size: int) -> bool {
    v.typ != VmaType::Unused && v.spec_overlaps(base, size)
}

pub open spec fn spec_has_overlap(vs: Seq<Vma>, base: int, size: int) -> bool {
    exists|i: int| 0 <= i < vs.len() && blocks(#[trigger] vs[i], base, size)
}

/// `addr` rounded up to a page boundary.
pub open spec fn page_up(addr: int) -> int {
    ((addr + PAGE_SIZE - 1) / PAGE_SIZE as int) * PAGE_SIZE
}

/// Search for `size` free bytes starting at `addr`: past the end of the
/// first area in use that collides, rounded up to a page, until nothing
/// collides or the range would cross the stack top.
pub open spec fn free_range_from(vs: Seq<Vma>, size: int, addr: int) -> Option<int>
    decreases USER_STACK_TOP - addr,
{
    if addr + size > USER_STACK_TOP || size < 0 {
        None
    } else {
        let k = first_vma(vs, collides(addr, size), 0);
        if k < 0 || k >= vs.len() {
            Some(addr)
        } else {
            let na = page_up(vs[k].spec_end());
            if na <= addr || na > USER_STACK_TOP {
                None
            } else {
                free_range_from(vs, size, na)
            }
        }
    }
}

/// The value and next generator state of `aslr_rand` for hardware value `hw`.
pub open spec fn rand_next(state: u64, hw: u64) -> (u64, u64) {
    if hw != 0 {
        (hw, state ^ hw)
    } else {
        (lfsr_step(state), lfsr_step(state))
    }
}

/// Page offset drawn from random value `v` with `bits` random bits.
pub open spec fn offset_of(v: u64, bits: u64) -> int {
    (v & (((1u64 << bits) - 1) as u64)) * PAGE_SIZE
}

/// The list after `add_vma(v)`.
pub open spec fn add_spec(vs: Seq<Vma>, v: Vma) -> Seq<Vma> {
    if vs.len() < MAX_VMAS {
        vs.insert(settle_pos(vs, v.base as int, vs.len() as int), v)
    } else {
        vs
    }
}

/// `size` rounded up to a whole number of pages.
pub open spec fn round_pages(size: int) -> int {
    ((size + PAGE_SIZE - 1) / PAGE_SIZE as int) * PAGE_SIZE
}

/// `addr` rounded down to a page boundary.
pub open spec fn page_down(addr: int) -> int {
    (addr / PAGE_SIZE as int) * PAGE_SIZE
}

/// Guard page placed right below a stack based at `stack_base`.
pub open spec fn guard_vma(stack_base: u64) -> Vma {
    Vma { base: stack_base, size: PAGE_SIZE, flags: VMA_GUARD | VMA_USER, typ: VmaType::GuardPage, mapped_pages: 0 }
}

/// Demand-paged stack area above the guard page.
pub open spec fn stack_vma(stack_base: u64) -> Vma {
    Vma {
        base: (stack_base + PAGE_SIZE) as u64,
        size: (USER_STACK_SIZE - PAGE_SIZE) as usize,
        flags: VMA_R | VMA_W | VMA_USER | VMA_DEMAND | VMA_STACK,
        typ: VmaType::Stack,
        mapped_pages: 0,
    }
}

/// Flags of an anonymous mapping.
pub open spec fn anon_flags(flags: u32, demand: bool) -> u32 {
    flags | VMA_R | VMA_USER | if demand { VMA_DEMAND } else { 0 }
}

proof fn lemma_round_pages(size: usize, t: usize)
    requires
        t == size + 0xfff,
    ensures
        t & !0xfffusize == round_pages(size as int),
        size <= round_pages(size as int) <= size + 0xfff,
        round_pages(size as int) % PAGE_SIZE as int == 0,
{
    assert(t & !0xfffusize == (t / 0x1000) * 0x1000 && (t >= 0xfff ==> t - 0xfff <= (t / 0x1000) * 0x1000 <= t))
        by (bit_vector);
    vstd::arithmetic::div_mod::lemma_mod_multiples_basic((t / 0x1000) as int, 0x1000);
}

proof fn lemma_page_down(a: u64)
    ensures
        a & !0xfffu64 == page_down(a as int),
        a - 0xfff <= page_down(a as int) <= a,
{
    assert(a & !0xfffu64 == (a / 0x1000) * 0x1000 && a - 0xfff <= (a / 0x1000) * 0x1000 <= a) by (bit_vector);
}

/// Collision test of the free-range search.
pub open spec fn collides(addr: int, size: int) -> spec_fn(Vma) -> bool {
    |v: Vma| v.typ != VmaType::Unused && addr < v.spec_end() && addr + size > v.base
}

proof fn lemma_page_up(e: u64)
    requires
        e <= VMA_LIMIT,
    ensures
        ((e + 0xfff) as u64) & !0xfffu64 == page_up(e as int),
        e <= page_up(e as int) <= e + 0xfff,
{
    assert(e <= 0xFFFF_0000_0000_0000u64 ==> ((e + 0xfff) as u64) & !0xfffu64 == ((e + 0xfff) / 0x1000) * 0x1000
        && e <= ((e + 0xfff) / 0x1000) * 0x1000 <= e + 0xfff) by (bit_vector);
}

proof fn lemma_free_range_bounds(vs: Seq<Vma>, size: int, addr: int)
    requires
        0 <= addr,
    ensures
        free_range_from(vs, size, addr) matches Some(a) ==> addr <= a && a + size <= USER_STACK_TOP,
    decreases USER_STACK_TOP - addr,
{
    if !(addr + size > USER_STACK_TOP || size < 0) {
        let k = first_vma(vs, collides(addr, size), 0);
        if 0 <= k < vs.len() {
            let na = page_up(vs[k].spec_end());
            if !(na <= addr || na > USER_STACK_TOP) {
                lemma_free_range_bounds(vs, size, na);
            }
        }
    }
}

/// One step of the 64-bit Galois LFSR (x^64 + x^63 + x^61 + x^60 + 1).
pub open spec fn lfsr_step(s: u64) -> u64 {
    ((s << 1u64) | (((s >> 63u64) ^ (s >> 62u64) ^ (s >> 60u64) ^ (s >> 59u64)) & 1u64)) as u64
}

/// The address space of one process.
pub struct AddressSpace {
    pub p4: PhysAddr,
    pub vmas: [Vma; MAX_VMAS],
    pub vma_count: usize,
    /// Heap start (break base).
    pub heap_start: VirtAddr,
    /// Current break.
    pub heap_end: VirtAddr,
    /// Next address tried for an anonymous mapping.
    pub mmap_next: VirtAddr,
    /// State of the software fallback generator.
    pub aslr_state: u64,
}

impl AddressSpace {
    /// The areas in use, in order.
    pub open spec fn areas(&self) -> Seq<Vma> {
        self.vmas@.subrange(0, self.vma_count as int)
    }

    pub open spec fn spec_mmap_next(&self) -> u64 {
        self.mmap_next
    }

    pub open spec fn spec_aslr_state(&self) -> u64 {
        self.aslr_state
    }

    pub open spec fn wf(&self) -> bool {
        &&& self.vma_count <= MAX_VMAS
        &&& forall|i: int| 0 <= i < self.vma_count ==> (#[trigger] self.vmas@[i]).spec_end() <= VMA_LIMIT
    }

    pub proof fn lemma_wf(&self)
        requires
            self.wf(),
        ensures
            self.areas().len() <= MAX_VMAS,
            forall|i: int| 0 <= i < self.areas().len() ==> (#[trigger] self.areas()[i]).spec_end() <= VMA_LIMIT,
    {
        assert forall|i: int| 0 <= i < self.areas().len() implies (#[trigger] self.areas()[i]).spec_end()
            <= VMA_LIMIT by {
            assert(self.areas()[i] == self.vmas@[i]);
        }
    }

    /// The areas are sorted by base address.
    pub open spec fn sorted(&self) -> bool {
        forall|i: int, j: int| 0 <= i < j < self.areas().len() ==> self.areas()[i].base <= self.areas()[j].base
    }

    pub fn new(p4: PhysAddr) -> (r: Self)
        ensures
            r.wf(),
            r.areas().len() == 0,
            r.p4 == p4,
            r.heap_start == 0,
            r.heap_end == 0,
            r.spec_mmap_next() == USER_MMAP_BASE,
            r.spec_aslr_state() == 0xDEAD_BEEF_CAFE_0001u64,
    {
        let r = AddressSpace {
            p4,
            vmas: [Vma { base: 0, size: 0, flags: 0, typ: VmaType::Unused, mapped_pages: 0 }; MAX_VMAS],
            vma_count: 0,
            heap_start: 0,
            heap_end: 0,
            mmap_next: USER_MMAP_BASE,
            aslr_state: 0xDEAD_BEEF_CAFE_0001,
        };
        proof {
            assert(r.areas() =~= Seq::<Vma>::empty());
        }
        r
    }

    /// Next random value: the hardware value `hw` when it is non-zero (it is
    /// also folded into the state), otherwise one step of the LFSR state.
    pub fn aslr_rand(&mut self, hw: u64) -> (r: u64)
        ensures
            hw != 0 ==> r == hw && final(self).aslr_state == old(self).aslr_state ^ hw,
            hw == 0 ==> r == lfsr_step(old(self).aslr_state) && final(self).aslr_state == r,
            *final(self) == (AddressSpace { aslr_state: final(self).aslr_state, ..*old(self) }),
    {
        if hw == 0 {
            let s = self.aslr_state;
            let bit = ((s >> 63) ^ (s >> 62) ^ (s >> 60) ^ (s >> 59)) & 1;
            self.aslr_state = (s << 1) | bit;
            self.aslr_state
        } else {
            self.aslr_state = self.aslr_state ^ hw;
            hw
        }
    }

    /// A random page-aligned offset below `2^bits` pages.
    pub fn aslr_offset(&mut self, bits: u64, hw: u64) -> (r: u64)
        requires
            bits <= 40,
        ensures
            r == offset_of(rand_next(old(self).aslr_state, hw).0, bits),
            final(self).aslr_state == rand_next(old(self).aslr_state, hw).1,
            r % PAGE_SIZE as u64 == 0,
            r < (1u64 << bits) * PAGE_SIZE,
            *final(self) == (AddressSpace { aslr_state: final(self).aslr_state, ..*old(self) }),
    {
        proof {
            assert(bits <= 40 ==> (1u64 << bits) <= 0x100_0000_0000u64 && (1u64 << bits) >= 1) by (bit_vector);
        }
        let mask = (1u64 << bits) - 1;
        let x = self.aslr_rand(hw);
        let v = x & mask;
        proof {
            assert(x & mask <= mask) by (bit_vector);
            vstd::arithmetic::mul::lemma_mul_inequality(v as int, mask as int, PAGE_SIZE as int);
            vstd::arithmetic::div_mod::lemma_mod_multiples_basic(v as int, PAGE_SIZE as int);
        }
        v * PAGE_SIZE as u64
    }

    /// The area in use containing `addr`, if any.
    pub fn find_vma(&self, addr: VirtAddr) -> (r: Option<&Vma>)
        requires
            self.wf(),
        ensures
            ({
                let k = first_vma(self.areas(), |v: Vma| v.spec_contains(addr as int), 0);
                match r {
                    Some(v) => 0 <= k && *v == self.areas()[k],
                    None => k == -1,
                }
            }),
    {
        let ghost vs = self.areas();
        let ghost p = |v: Vma| v.spec_contains(addr as int);
        proof {
            lemma_first_vma(vs, p, 0);
        }
        let mut i: usize = 0;
        while i < self.vma_count
            invariant
                0 <= i <= self.vma_count,
                self.wf(),
                vs == self.areas(),
                p == (|v: Vma| v.spec_contains(addr as int)),
                forall|j: int| 0 <= j < i ==> !p(#[trigger] vs[j]),
            decreases self.vma_count - i,
        {
            proof {
                assert(vs[i as int] == self.vmas@[i as int]);
            }
            if self.vmas[i].contains(addr) {
                proof {
                    lemma_first_vma(vs, p, 0);
                    let k = first_vma(vs, p, 0);
                    if k < i {
                        assert(p(vs[k]));
                    }
                    if i < k {
                        assert(p(vs[i as int]));
                    }
                }
                return Some(&self.vmas[i]);
            }
            i = i + 1;
        }
        proof {
            lemma_first_vma(vs, p, 0);
            let k = first_vma(vs, p, 0);
            if 0 <= k {
                assert(p(vs[k]));
            }
        }
        None
    }

    /// Slot of the area in use containing `addr`, if any.
    pub fn find_vma_mut(&mut self, addr: VirtAddr) -> (r: Option<usize>)
        requires
            old(self).wf(),
        ensures
            *final(self) == *old(self),
            ({
                let k = first_vma(old(self).areas(), |v: Vma| v.spec_contains(addr as int), 0);
                match r {
                    Some(i) => i == k,
                    None => k == -1,
                }
            }),
    {
        let ghost vs = self.areas();
        let ghost p = |v: Vma| v.spec_contains(addr as int);
        let mut i: usize = 0;
        while i < self.vma_count
            invariant
                0 <= i <= self.vma_count,
                self.wf(),
                *self == *old(self),
                vs == self.areas(),
                p == (|v: Vma| v.spec_contains(addr as int)),
                forall|j: int| 0 <= j < i ==> !p(#[trigger] vs[j]),
            decreases self.vma_count - i,
        {
            proof {
                assert(vs[i as int] == self.vmas@[i as int]);
            }
            if self.vmas[i].contains(addr) {
                proof {
                    lemma_first_vma(vs, p, 0);
                    let k = first_vma(vs, p, 0);
                    if k < i {
                        assert(p(vs[k]));
                    }
                    if i < k {
                        assert(p(vs[i as int]));
                    }
                }
                return Some(i);
            }
            i = i + 1;
        }
        proof {
            lemma_first_vma(vs, p, 0);
            let k = first_vma(vs, p, 0);
            if 0 <= k {
                assert(p(vs[k]));
            }
        }
        None
    }

    /// Whether an area in use shares an address with `[base, base + size)`.
    pub fn has_overlap(&self, base: VirtAddr, size: usize) -> (r: bool)
        requires
            self.wf(),
            base + size <= u64::MAX,
        ensures
            r == spec_has_overlap(self.areas(), base as int, size as int),
    {
        let ghost vs = self.areas();
        let mut i: usize = 0;
        while i < self.vma_count
            invariant
                0 <= i <= self.vma_count,
                self.wf(),
                vs == self.areas(),
                base + size <= u64::MAX,
                forall|j: int| 0 <= j < i ==> !blocks(#[trigger] vs[j], base as int, size as int),
            decreases self.vma_count - i,
        {
            let v = self.vmas[i];
            proof {
                assert(vs[i as int] == v);
            }
            if v.typ != VmaType::Unused && v.overlaps(base, size) {
                return true;
            }
            i = i + 1;
        }
        false
    }

    /// Append `vma` and move it in front of every trailing area based above
    /// it; `false` when all slots are in use.
    pub fn add_vma(&mut self, vma: Vma) -> (r: bool)
        requires
            old(self).wf(),
            vma.spec_end() <= VMA_LIMIT,
        ensures
            final(self).wf(),
            r == (old(self).areas().len() < MAX_VMAS),
            !r ==> final(self).areas() == old(self).areas(),
            r ==> final(self).areas() == old(self).areas().insert(
                settle_pos(old(self).areas(), vma.base as int, old(self).areas().len() as int),
                vma,
            ),
            old(self).sorted() ==> final(self).sorted(),
            final(self).p4 == old(self).p4,
            final(self).heap_start == old(self).heap_start,
            final(self).heap_end == old(self).heap_end,
            final(self).spec_mmap_next() == old(self).spec_mmap_next(),
            final(self).spec_aslr_state() == old(self).spec_aslr_state(),
    {
        if self.vma_count >= MAX_VMAS {
            return false;
        }
        let ghost vs = self.areas();
        let n = self.vma_count + 1;
        self.vmas[n - 1] = vma;
        self.vma_count = n;
        let mut i = n - 1;
        while i > 0 && self.vmas[i].base < self.vmas[i - 1].base
            invariant
                0 <= i < n,
                n == self.vma_count,
                n == vs.len() + 1,
                n <= MAX_VMAS,
                self.vmas@.len() == MAX_VMAS,
                settle_pos(vs, vma.base as int, vs.len() as int) == settle_pos(vs, vma.base as int, i as int),
                self.vmas@[i as int] == vma,
                forall|j: int| 0 <= j < i ==> self.vmas@[j] == vs[j],
                forall|j: int| i < j < n ==> self.vmas@[j] == vs[j - 1],
                forall|j: int| i <= j < vs.len() ==> (#[trigger] vs[j]).base > vma.base,
                forall|j: int| n <= j < MAX_VMAS ==> self.vmas@[j] == old(self).vmas@[j],
                self.p4 == old(self).p4,
                self.heap_start == old(self).heap_start,
                self.heap_end == old(self).heap_end,
                self.mmap_next == old(self).mmap_next,
                self.aslr_state == old(self).aslr_state,
            decreases i,
        {
            let a = self.vmas[i];
            let b = self.vmas[i - 1];
            self.vmas[i] = b;
            self.vmas[i - 1] = a;
            i = i - 1;
        }
        proof {
            let k = settle_pos(vs, vma.base as int, vs.len() as int);
            assert(k == i);
            let s = self.areas();
            assert(s =~= vs.insert(i as int, vma));
            assert forall|j: int| 0 <= j < self.vma_count implies (#[trigger] self.vmas@[j]).spec_end() <= VMA_LIMIT by {
                if j < i {
                    assert(old(self).vmas@[j] == vs[j]);
                } else if j > i {
                    assert(old(self).vmas@[j - 1] == vs[j - 1]);
                }
            }
            if old(self).sorted() {
                assert forall|a: int, b: int| 0 <= a < b < s.len() implies s[a].base <= s[b].base by {
                    if a < i && b > i {
                        assert(vs[a].base <= vs[b - 1].base);
                    } else if a < i && b < i {
                        assert(vs[a].base <= vs[b].base);
                    } else if a > i {
                        assert(vs[a - 1].base <= vs[b - 1].base);
                    } else if a == i {
                        assert(vs[b - 1].base > vma.base);
                    } else {
                        assert(b == i);
                        if i > 0 {
                            assert(vs[i - 1].base <= vma.base);
                            assert(vs[a].base <= vs[i - 1].base);
                        }
                    }
                }
            }
        }
        true
    }

    /// Place heap, anonymous mappings and stack at random offsets, the
    /// random values drawn from `hw_heap`, `hw_stack` and `hw_mmap` in that
    /// order; a guard page and a demand-paged stack area are added below the
    /// stack top.
    pub fn init_aslr(&mut self, hw_heap: u64, hw_stack: u64, hw_mmap: u64)
        requires
            old(self).wf(),
        ensures
            final(self).wf(),
            ({
                let (v1, s1) = rand_next(old(self).aslr_state, hw_heap);
                let (v2, s2) = rand_next(s1, hw_stack);
                let (v3, s3) = rand_next(s2, hw_mmap);
                let stack_base = (USER_STACK_TOP - USER_STACK_SIZE - offset_of(v2, ASLR_STACK_BITS)) as u64;
                &&& final(self).heap_start == USER_HEAP_BASE + offset_of(v1, ASLR_HEAP_BITS)
                &&& final(self).heap_end == final(self).heap_start
                &&& final(self).mmap_next == USER_MMAP_BASE + offset_of(v3, ASLR_MMAP_BITS)
                &&& final(self).aslr_state == s3
                &&& final(self).areas() == add_spec(add_spec(old(self).areas(), guard_vma(stack_base)), stack_vma(stack_base))
            }),
            final(self).p4 == old(self).p4,
    {
        let heap_off = self.aslr_offset(ASLR_HEAP_BITS, hw_heap);
        let stack_off = self.aslr_offset(ASLR_STACK_BITS, hw_stack);
        proof {
            assert((1u64 << 8u64) == 256 && (1u64 << 16u64) == 65536) by (bit_vector);
        }
        self.heap_start = USER_HEAP_BASE + heap_off;
        self.heap_end = self.heap_start;
        let mmap_off = self.aslr_offset(ASLR_MMAP_BITS, hw_mmap);
        self.mmap_next = USER_MMAP_BASE + mmap_off;
        let stack_base = USER_STACK_TOP - USER_STACK_SIZE - stack_off;
        let guard = Vma {
            base: stack_base,
            size: PAGE_SIZE,
            flags: VMA_GUARD | VMA_USER,
            typ: VmaType::GuardPage,
            mapped_pages: 0,
        };
        let ghost a0 = self.areas();
        self.add_vma(guard);
        let ghost a1 = self.areas();
        let stack = Vma {
            base: stack_base + PAGE_SIZE as u64,
            size: USER_STACK_SIZE as usize - PAGE_SIZE,
            flags: VMA_R | VMA_W | VMA_USER | VMA_DEMAND | VMA_STACK,
            typ: VmaType::Stack,
            mapped_pages: 0,
        };
        self.add_vma(stack);
        proof {
            assert(guard == guard_vma(stack_base));
            assert(stack == stack_vma(stack_base));
            assert(a1 == add_spec(a0, guard));
        }
    }

    /// Map `size` bytes (rounded up to pages) of anonymous memory and return
    /// the base, 0 on failure. With `VMA_FIXED` and a non-zero `hint` the
    /// area goes exactly at `hint`; otherwise the search starts at `hint`
    /// (or the next mapping address) plus a random offset drawn from `hw`.
    /// The area is only recorded here; `mmap_anon_backed` also backs its
    /// pages.
    pub fn mmap_anon(&mut self, hint: VirtAddr, size: usize, flags: u32, demand: bool, hw: u64) -> (r: VirtAddr)
        requires
            old(self).wf(),
            size + PAGE_SIZE <= usize::MAX,
            hint != 0 && flags & VMA_FIXED != 0 ==> hint + round_pages(size as int) <= VMA_LIMIT,
            !(hint != 0 && flags & VMA_FIXED != 0) ==> (if hint != 0 {
                hint
            } else {
                old(self).mmap_next
            }) + 0x1000_0000 + round_pages(size as int) <= u64::MAX,
        ensures
            final(self).wf(),
            final(self).p4 == old(self).p4,
            final(self).heap_start == old(self).heap_start,
            final(self).heap_end == old(self).heap_end,
            ({
                let sz = round_pages(size as int);
                let fixed = hint != 0 && flags & VMA_FIXED != 0;
                let (v, st) = rand_next(old(self).aslr_state, hw);
                let start = if hint != 0 { hint } else { old(self).mmap_next };
                let cand = page_down(start + offset_of(v, ASLR_MMAP_BITS));
                let found = if fixed { Some(hint as int) } else { free_range_from(old(self).areas(), sz, cand) };
                let state = if fixed { old(self).aslr_state } else { st };
                if sz == 0 {
                    r == 0 && *final(self) == *old(self)
                } else {
                    match found {
                        None => r == 0 && *final(self) == (AddressSpace { aslr_state: state, ..*old(self) }),
                        Some(a) => if spec_has_overlap(old(self).areas(), a, sz) || old(self).areas().len() >= MAX_VMAS {
                            &&& r == 0
                            &&& final(self).areas() == old(self).areas()
                            &&& final(self).mmap_next == old(self).mmap_next
                            &&& final(self).aslr_state == state
                        } else {
                            &&& r == a
                            &&& final(self).areas() == old(self).areas().insert(
                                settle_pos(old(self).areas(), a, old(self).areas().len() as int),
                                Vma { base: a as u64, size: sz as usize, flags: anon_flags(flags, demand), typ: VmaType::Anonymous, mapped_pages: 0 },
                            )
                            &&& final(self).mmap_next == a + sz + PAGE_SIZE
                            &&& final(self).aslr_state == state
                        },
                    }
                }
            }),
            r != 0 ==> !spec_has_overlap(old(self).areas(), r as int, round_pages(size as int)),
            r == anon_base(*old(self), hint, size, flags, hw),
    {
        let t = size + PAGE_SIZE - 1;
        proof {
            lemma_round_pages(size, t);
        }
        let size = t & !(PAGE_SIZE - 1);
        if size == 0 {
            return 0;
        }
        let base = if hint != 0 && flags & VMA_FIXED != 0 {
            hint
        } else {
            let start = if hint != 0 { hint } else { self.mmap_next };
            let off = self.aslr_offset(ASLR_MMAP_BITS, hw);
            proof {
                assert((1u64 << 16u64) == 65536) by (bit_vector);
                lemma_page_down((start + off) as u64);
            }
            let cand = (start + off) & !(PAGE_SIZE as u64 - 1);
            proof {
                assert(cand == page_down(start + offset_of(rand_next(old(self).aslr_state, hw).0, ASLR_MMAP_BITS)));
                assert(self.areas() == old(self).areas());
            }
            proof {
                lemma_free_range_bounds(self.areas(), size as int, cand as int);
            }
            match self.find_free_range(size, cand) {
                Some(a) => a,
                None => return 0,
            }
        };
        proof {
            let fixed = hint != 0 && flags & VMA_FIXED != 0;
            let (v, st) = rand_next(old(self).aslr_state, hw);
            let start = if hint != 0 { hint } else { old(self).mmap_next };
            let cand = page_down(start + offset_of(v, ASLR_MMAP_BITS));
            let found = if fixed { Some(hint as int) } else { free_range_from(old(self).areas(), size as int, cand) };
            assert(found == Some(base as int));
            assert(self.areas() == old(self).areas());
        }
        if self.has_overlap(base, size) {
            return 0;
        }
        let actual_flags = flags | VMA_R | VMA_USER | if demand { VMA_DEMAND } else { 0 };
        let vma = Vma { base, size, flags: actual_flags, typ: VmaType::Anonymous, mapped_pages: 0 };
        if !self.add_vma(vma) {
            return 0;
        }
        self.mmap_next = base + size as u64 + PAGE_SIZE as u64;
        base
    }

    /// Index of the first area equal to `v`, if any.
    fn area_index(&self, v: Vma) -> (r: Option<usize>)
        requires
            self.wf(),
        ensures
            r matches Some(k) ==> k < self.areas().len() && self.areas()[k as int] == v,
            r is None ==> forall|j: int| 0 <= j < self.areas().len() ==> self.areas()[j] != v,
    {
        let mut i: usize = 0;
        while i < self.vma_count
            invariant
                self.wf(),
                i <= self.vma_count,
                forall|j: int| 0 <= j < i ==> self.areas()[j] != v,
            decreases self.vma_count - i,
        {
            let a = self.vmas[i];
            proof {
                assert(self.areas()[i as int] == self.vmas@[i as int]);
            }
            if a.base == v.base && a.size == v.size && a.flags == v.flags && a.typ == v.typ
                && a.mapped_pages == v.mapped_pages {
                return Some(i);
            }
            i = i + 1;
        }
        None
    }

    /// Map `size` bytes of anonymous memory as `mmap_anon` does and, unless
    /// `demand`, back every page of the new area at once: each page gets a
    /// fresh frame, mapped in the tables `tm` under this space's PML4 with
    /// the area's entry flags, and the area counts all its pages as backed.
    /// Returns the base, or 0 when no area was made or a page could not be
    /// backed (the area then stays recorded, as do the pages mapped so far).
    pub fn mmap_anon_backed(
        &mut self,
        tm: &mut TableMem,
        pmm: &mut Pmm,
        hint: VirtAddr,
        size: usize,
        flags: u32,
        demand: bool,
        hw: u64,
    ) -> (r: VirtAddr)
        requires
            old(self).wf(),
            old(self).p4 != 0,
            old(tm).wf(),
            old(pmm).wf(),
            tables_held(old(tm)@, *old(pmm)),
            aligned_pool(*old(pmm)),
            size + PAGE_SIZE <= usize::MAX,
            hint != 0 && flags & VMA_FIXED != 0 ==> hint + round_pages(size as int) <= VMA_LIMIT,
            !(hint != 0 && flags & VMA_FIXED != 0) ==> (if hint != 0 {
                hint
            } else {
                old(self).mmap_next
            }) + 0x1000_0000 + round_pages(size as int) <= u64::MAX,
        ensures
            final(self).wf(),
            final(self).p4 == old(self).p4,
            final(self).heap_start == old(self).heap_start,
            final(self).heap_end == old(self).heap_end,
            final(tm).wf(),
            final(pmm).wf(),
            tables_held(final(tm)@, *final(pmm)),
            final(pmm).base() == old(pmm).base(),
            final(pmm).size() == old(pmm).size(),
            final(pmm).free_set().subset_of(old(pmm).free_set()),
            ({
                let a = anon_base(*old(self), hint, size, flags, hw);
                let sz = round_pages(size as int);
                let pages = sz / PAGE_SIZE as int;
                &&& r == a || r == 0
                &&& demand || a == 0 ==> r == a && final(tm)@ == old(tm)@ && *final(pmm) == *old(pmm)
                &&& a != 0 ==> {
                    &&& !spec_has_overlap(old(self).areas(), a, sz)
                    &&& final(self).areas().len() == old(self).areas().len() + 1
                    &&& exists|k: int|
                        0 <= k < final(self).areas().len() && #[trigger] final(self).areas()[k] == (Vma {
                            base: a as u64,
                            size: sz as usize,
                            flags: anon_flags(flags, demand),
                            typ: VmaType::Anonymous,
                            mapped_pages: if !demand && r != 0 { pages as usize } else { 0 },
                        })
                }
                &&& a != 0 && !demand ==> exists|n: int|
                    0 <= n <= pages && #[trigger] backed(
                        old(tm)@,
                        final(tm)@,
                        *old(pmm),
                        *final(pmm),
                        old(self).p4,
                        page_down(a),
                        n,
                    ) && (r != 0 <==> n == pages) && (n < pages ==> map_blocked(
                        final(tm)@,
                        *final(pmm),
                        old(self).p4,
                        (page_down(a) + n * PAGE_SIZE) as u64,
                    ))
            }),
    {
        let ghost a0 = self.areas();
        let base = self.mmap_anon(hint, size, flags, demand, hw);
        if base == 0 || demand {
            proof {
                if base != 0 {
                    let p = settle_pos(a0, base as int, a0.len() as int);
                    lemma_settle_pos_range(a0, base as int, a0.len() as int);
                    let sz = round_pages(size as int);
                    assert(self.areas() == a0.insert(p, Vma { base: base, size: sz as usize, flags: anon_flags(flags, demand), typ: VmaType::Anonymous, mapped_pages: 0 }));
                    assert(self.areas().len() == a0.len() + 1);
                    assert(self.areas()[p] == Vma { base: base, size: sz as usize, flags: anon_flags(flags, demand), typ: VmaType::Anonymous, mapped_pages: 0 });
                }
            }
            return base;
        }
        let t = size + PAGE_SIZE - 1;
        proof {
            lemma_round_pages(size, t);
        }
        let sz = t & !(PAGE_SIZE - 1);
        let pages = sz / PAGE_SIZE;
        let dflag: u32 = if demand { VMA_DEMAND } else { 0 };
        let v = Vma { base, size: sz, flags: flags | VMA_R | VMA_USER | dflag, typ: VmaType::Anonymous, mapped_pages: 0 };
        let ghost a1 = self.areas();
        proof {
            let p = settle_pos(a0, base as int, a0.len() as int);
            lemma_settle_pos_range(a0, base as int, a0.len() as int);
            assert(a1[p] == v);
            self.lemma_wf();
            assert(a1[p].spec_end() <= VMA_LIMIT);
        }
        let pf = v.pte_flags();
        let low = base & !(PAGE_SIZE as u64 - 1);
        proof {
            lemma_page_down(base);
            vstd::arithmetic::div_mod::lemma_mod_multiples_basic((base / 0x1000) as int, 0x1000);
            vstd::arithmetic::div_mod::lemma_div_multiples_vanish(pages as int, PAGE_SIZE as int);
        }
        proof {
            lemma_flag_bits(v.flags & VMA_W != 0, v.flags & VMA_USER != 0, v.flags & VMA_X == 0);
        }
        let ghost pmm0 = *pmm;
        let fr = tm.map_fresh(pmm, self.p4, low, pages, pf);
        proof {
            assert(low == page_down(base as int));
            assert(pages == round_pages(size as int) / PAGE_SIZE as int);
            assert(backed(old(tm)@, tm@, *old(pmm), *pmm, self.p4, page_down(base as int), fr@.len() as int));
        }
        if fr.len() < pages {
            proof {
                let p = settle_pos(a0, base as int, a0.len() as int);
                lemma_settle_pos_range(a0, base as int, a0.len() as int);
                assert(self.areas()[p] == v);
            }
            return 0;
        }
        match self.area_index(v) {
            Some(k) => {
                proof {
                    assert(self.areas()[k as int] == self.vmas@[k as int]);
                }
                let mut w = self.vmas[k];
                w.mapped_pages = pages;
                self.vmas[k] = w;
                proof {
                    assert(self.areas() =~= a1.update(k as int, w));
                    assert forall|j: int| 0 <= j < self.vma_count implies (#[trigger] self.vmas@[j]).spec_end() <= VMA_LIMIT by {
                        if j != k {
                            assert(self.vmas@[j] == a1[j]);
                        }
                    }
                    assert(self.areas()[k as int] == w);
                }
                base
            },
            None => {
                proof {
                    let p = settle_pos(a0, base as int, a0.len() as int);
                    lemma_settle_pos_range(a0, base as int, a0.len() as int);
                    assert(a1[p] == v);
                }
                0
            },
        }
    }

    /// Decision of the demand-paging fault handler for `fault_addr`: the
    /// entry flags to map a fresh page with, or `None` when the fault is
    /// genuine (no area, a guard page, or an area that is not demand-paged).
    pub fn demand_fault_flags(&self, fault_addr: VirtAddr) -> (r: Option<u64>)
        requires
            self.wf(),
        ensures
            r == demand_flags(self.areas(), fault_addr),
    {
        match self.find_vma(fault_addr) {
            None => None,
            Some(v) => {
                if v.typ == VmaType::GuardPage {
                    return None;
                }
                let flags = v.pte_flags();
                let is_demand = v.flags & VMA_DEMAND != 0;
                let is_guard = v.flags & VMA_GUARD != 0;
                if is_guard || !is_demand {
                    return None;
                }
                Some(flags)
            },
        }
    }

    /// Count one more backed page in the area containing `fault_addr`.
    pub fn note_demand_mapped(&mut self, fault_addr: VirtAddr)
        requires
            old(self).wf(),
            forall|i: int| 0 <= i < old(self).areas().len() ==> (#[trigger] old(self).areas()[i]).mapped_pages < usize::MAX,
        ensures
            final(self).wf(),
            ({
                let k = first_vma(old(self).areas(), |v: Vma| v.spec_contains(fault_addr as int), 0);
                if k < 0 {
                    final(self).areas() == old(self).areas()
                } else {
                    final(self).areas() == old(self).areas().update(
                        k,
                        Vma { mapped_pages: (old(self).areas()[k].mapped_pages + 1) as usize, ..old(self).areas()[k] },
                    )
                }
            }),
            final(self).p4 == old(self).p4,
            final(self).heap_start == old(self).heap_start,
            final(self).heap_end == old(self).heap_end,
            final(self).mmap_next == old(self).mmap_next,
            final(self).aslr_state == old(self).aslr_state,
    {
        if let Some(i) = self.find_vma_mut(fault_addr) {
            proof {
                lemma_first_vma(self.areas(), |v: Vma| v.spec_contains(fault_addr as int), 0);
                assert(self.areas()[i as int] == self.vmas@[i as int]);
            }
            let mut v = self.vmas[i];
            v.mapped_pages = v.mapped_pages + 1;
            self.vmas[i] = v;
            proof {
                assert(self.areas() =~= old(self).areas().update(i as int, v));
                assert forall|j: int| 0 <= j < self.vma_count implies (#[trigger] self.vmas@[j]).spec_end() <= VMA_LIMIT by {
                    assert(old(self).vmas@[j].spec_end() <= VMA_LIMIT);
                }
            }
        }
    }

    /// Serve a fault on a not-present page at `fault_addr`: when the first
    /// area holding the address is demand-paged (and no guard), back the
    /// page with a fresh frame mapped with the area's entry flags, count it
    /// in the area and return `true`, so that the access is retried;
    /// `false` when the fault is genuine or no frame is left.
    pub fn handle_demand_fault(&mut self, tm: &mut TableMem, pmm: &mut Pmm, fault_addr: VirtAddr) -> (r: bool)
        requires
            old(self).wf(),
            old(self).p4 != 0,
            old(tm).wf(),
            old(pmm).wf(),
            tables_held(old(tm)@, *old(pmm)),
            aligned_pool(*old(pmm)),
            forall|i: int| 0 <= i < old(self).areas().len() ==> (#[trigger] old(self).areas()[i]).mapped_pages < usize::MAX,
        ensures
            final(self).wf(),
            final(self).p4 == old(self).p4,
            final(self).heap_start == old(self).heap_start,
            final(self).heap_end == old(self).heap_end,
            final(self).mmap_next == old(self).mmap_next,
            final(tm).wf(),
            final(pmm).wf(),
            final(pmm).base() == old(pmm).base(),
            final(pmm).size() == old(pmm).size(),
            tables_held(final(tm)@, *final(pmm)),
            final(pmm).free_set().subset_of(old(pmm).free_set()),
            demand_flags(old(self).areas(), fault_addr) is None ==> !r && final(tm)@ == old(tm)@ && *final(pmm)
                == *old(pmm),
            r ==> demand_flags(old(self).areas(), fault_addr) is Some,
            demand_flags(old(self).areas(), fault_addr) is Some && !map_blocked(
                old(tm)@,
                *old(pmm),
                old(self).p4,
                page_down(fault_addr as int) as u64,
            ) ==> r,
            !r ==> final(self).areas() == old(self).areas() && final(tm)@ == old(tm)@ && *final(pmm) == *old(pmm),
            r ==> ({
                let k = first_vma(old(self).areas(), |v: Vma| v.spec_contains(fault_addr as int), 0);
                &&& backed(old(tm)@, final(tm)@, *old(pmm), *final(pmm), old(self).p4, page_down(fault_addr as int), 1)
                &&& final(self).areas() == old(self).areas().update(
                    k,
                    Vma { mapped_pages: (old(self).areas()[k].mapped_pages + 1) as usize, ..old(self).areas()[k] },
                )
            }),
    {
        let f = match self.demand_fault_flags(fault_addr) {
            None => {
                return false;
            },
            Some(f) => f,
        };
        let page = fault_addr & !(PAGE_SIZE as u64 - 1);
        proof {
            let vs = self.areas();
            lemma_first_vma(vs, |v: Vma| v.spec_contains(fault_addr as int), 0);
            self.lemma_wf();
            lemma_page_down(fault_addr);
            vstd::arithmetic::div_mod::lemma_mod_multiples_basic((fault_addr / 0x1000) as int, 0x1000);
            let a = vs[first_vma(vs, |v: Vma| v.spec_contains(fault_addr as int), 0)];
            lemma_flag_bits(a.flags & VMA_W != 0, a.flags & VMA_USER != 0, a.flags & VMA_X == 0);
        }
        let ghost pmm0 = *pmm;
        let fr = tm.map_fresh(pmm, self.p4, page, 1, f);
        if fr.len() < 1 {
            proof {
                assert(page == page_down(fault_addr as int));
                assert(((page + 0 * PAGE_SIZE) as u64) == page);
            }
            return false;
        }
        proof {
            assert(page == page_down(fault_addr as int));
        }
        self.note_demand_mapped(fault_addr);
        true
    }

    /// The first area that `munmap(base, size)` removes: based at `base`
    /// with exactly `size` bytes rounded up to pages.
    pub fn munmap_target(&self, base: VirtAddr, size: usize) -> (r: Option<Vma>)
        requires
            self.wf(),
            size + PAGE_SIZE <= usize::MAX,
        ensures
            ({
                let sz = round_pages(size as int);
                let k = first_vma(self.areas(), |v: Vma| v.base == base && v.size == sz, 0);
                match r {
                    Some(v) => 0 <= k && v == self.areas()[k],
                    None => k == -1,
                }
            }),
    {
        let t = size + PAGE_SIZE - 1;
        proof {
            lemma_round_pages(size, t);
        }
        let sz = t & !(PAGE_SIZE - 1);
        let ghost vs = self.areas();
        let ghost p = |v: Vma| v.base == base && v.size == round_pages(size as int);
        proof {
            assert(sz == round_pages(size as int));
        }
        let mut i: usize = 0;
        while i < self.vma_count
            invariant
                0 <= i <= self.vma_count,
                self.wf(),
                vs == self.areas(),
                p == (|v: Vma| v.base == base && v.size == round_pages(size as int)),
                sz == round_pages(size as int),
                forall|j: int| 0 <= j < i ==> !p(#[trigger] vs[j]),
            decreases self.vma_count - i,
        {
            let v = self.vmas[i];
            proof {
                assert(vs[i as int] == v);
            }
            if v.base == base && v.size == sz {
                proof {
                    lemma_first_vma(vs, p, 0);
                    let k = first_vma(vs, p, 0);
                    if k < i {
                        assert(p(vs[k]));
                    }
                    if i < k {
                        assert(p(vs[i as int]));
                    }
                }
                return Some(v);
            }
            i = i + 1;
        }
        proof {
            lemma_first_vma(vs, p, 0);
            let k = first_vma(vs, p, 0);
            if 0 <= k {
                assert(p(vs[k]));
            }
        }
        None
    }

    /// Break the heap is moved to by `sbrk(increment)`: the current break
    /// moved by `increment` (not below zero) and rounded up to a page.
    pub fn sbrk_target(&self, increment: isize) -> (r: u64)
        requires
            increment != isize::MIN,
            increment >= 0 ==> self.heap_end + increment + PAGE_SIZE <= u64::MAX,
            increment < 0 ==> self.heap_end + PAGE_SIZE <= u64::MAX,
        ensures
            r == brk_target(self.heap_end, increment as int),
    {
        let old_end = self.heap_end;
        let new_end = if increment >= 0 {
            old_end + increment as u64
        } else {
            old_end.saturating_sub((-increment) as u64)
        };
        let t = new_end + PAGE_SIZE as u64 - 1;
        proof {
            assert(t & !0xfffu64 == (t / 0x1000) * 0x1000) by (bit_vector);
        }
        t & !(PAGE_SIZE as u64 - 1)
    }

    /// Pages from `from` on, up to `pages`, before the first page that an
    /// area in use overlaps.
    fn clear_run(&self, from: VirtAddr, pages: usize) -> (r: usize)
        requires
            self.wf(),
            from + (pages + 1) * PAGE_SIZE <= u64::MAX,
        ensures
            r <= pages,
            forall|k: int|
                #![trigger spec_has_overlap(self.areas(), from + k * PAGE_SIZE, PAGE_SIZE as int)]
                0 <= k < r ==> !spec_has_overlap(self.areas(), from + k * PAGE_SIZE, PAGE_SIZE as int),
            r < pages ==> spec_has_overlap(self.areas(), from + r * PAGE_SIZE, PAGE_SIZE as int),
    {
        let mut k: usize = 0;
        while k < pages
            invariant
                self.wf(),
                k <= pages,
                from + (pages + 1) * PAGE_SIZE <= u64::MAX,
                forall|j: int|
                    #![trigger spec_has_overlap(self.areas(), from + j * PAGE_SIZE, PAGE_SIZE as int)]
                    0 <= j < k ==> !spec_has_overlap(self.areas(), from + j * PAGE_SIZE, PAGE_SIZE as int),
            decreases pages - k,
        {
            proof {
                vstd::arithmetic::mul::lemma_mul_inequality(k as int + 1, pages as int + 1, PAGE_SIZE as int);
            }
            let pg = from + (k as u64) * (PAGE_SIZE as u64);
            if self.has_overlap(pg, PAGE_SIZE) {
                return k;
            }
            k = k + 1;
        }
        k
    }

    /// Move the heap break by `increment` bytes and return the old break,
    /// or 0 when the memory runs out. Growing backs the pages from the old
    /// break on with fresh frames, user-writable and not executable, up to
    /// the new break, stopping at the first page an area in use overlaps
    /// or that cannot be backed (see `map_blocked`); the break then ends
    /// after the last page backed. When not even the first page, clear of
    /// areas, can be backed, nothing changes and the result is 0.
    /// Shrinking unmaps the pages from the new break up to the old one (a
    /// page whose frame lies below the frame pool stays mapped). The heap
    /// area follows the break (see `heap_areas`).
    #[verifier::rlimit(40)]
    #[verifier::spinoff_prover]
    pub fn sbrk(&mut self, tm: &mut TableMem, pmm: &mut Pmm, increment: isize) -> (r: u64)
        requires
            old(self).wf(),
            old(self).p4 != 0,
            old(tm).wf(),
            old(pmm).wf(),
            tables_held(old(tm)@, *old(pmm)),
            aligned_pool(*old(pmm)),
            increment != isize::MIN,
            old(self).heap_start <= old(self).heap_end,
            old(self).heap_end + PAGE_SIZE <= VMA_LIMIT,
            increment >= 0 ==> old(self).heap_end + increment + 2 * PAGE_SIZE <= VMA_LIMIT,
            increment < 0 ==> old(self).heap_start <= brk_target(old(self).heap_end, increment as int),
        ensures
            final(self).wf(),
            final(self).p4 == old(self).p4,
            final(self).heap_start == old(self).heap_start,
            final(self).mmap_next == old(self).mmap_next,
            final(tm).wf(),
            final(pmm).wf(),
            final(pmm).base() == old(pmm).base(),
            final(pmm).size() == old(pmm).size(),
            ({
                let old_end = old(self).heap_end;
                let t = brk_target(old_end, increment as int);
                let e = final(self).heap_end;
                let n = (e - old_end) / PAGE_SIZE as int;
                if increment >= 0 && t <= old_end {
                    &&& r == old_end
                    &&& *final(self) == *old(self)
                    &&& final(tm)@ == old(tm)@
                    &&& *final(pmm) == *old(pmm)
                } else if t > old_end {
                    let low = page_down(old_end as int);
                    let first_clear = !spec_has_overlap(old(self).areas(), old_end as int, PAGE_SIZE as int);
                    &&& r == if n == 0 && first_clear { 0 } else { old_end }
                    &&& n == 0 && first_clear ==> *final(self) == *old(self) && final(tm)@ == old(tm)@ && *final(pmm)
                        == *old(pmm)
                    &&& old_end <= e < t + PAGE_SIZE
                    &&& (e - old_end) % PAGE_SIZE as int == 0
                    &&& !(n == 0 && first_clear) ==> final(self).areas() == heap_areas(old(self).areas(), old(self).heap_start, old_end, e, true)
                    &&& tables_held(final(tm)@, *final(pmm))
                    &&& final(pmm).free_set().subset_of(old(pmm).free_set())
                    &&& forall|k: int|
                        #![trigger spec_has_overlap(old(self).areas(), old_end + k * PAGE_SIZE, PAGE_SIZE as int)]
                        0 <= k < n ==> !spec_has_overlap(old(self).areas(), old_end + k * PAGE_SIZE, PAGE_SIZE as int)
                    &&& backed(old(tm)@, final(tm)@, *old(pmm), *final(pmm), old(self).p4, low, n)
                    &&& e < t ==> spec_has_overlap(old(self).areas(), e as int, PAGE_SIZE as int) || map_blocked(
                        final(tm)@,
                        *final(pmm),
                        old(self).p4,
                        (low + n * PAGE_SIZE) as u64,
                    )
                } else {
                    &&& r == old_end
                    &&& e == t
                    &&& final(self).areas() == heap_areas(old(self).areas(), old(self).heap_start, old_end, e, false)
                    &&& final(tm)@ == unmap_run(
                        old(tm)@,
                        old(self).p4,
                        t,
                        ((old_end - t + PAGE_SIZE - 1) / PAGE_SIZE as int) as nat,
                        old(pmm).base(),
                    )
                }
            }),
    {
        let old_end = self.heap_end;
        let new_end = self.sbrk_target(increment);
        proof {
            let x = if increment >= 0 {
                old_end + increment
            } else if old_end >= -increment {
                old_end + increment
            } else {
                0
            };
            lemma_page_up(x as u64);
        }
        if new_end <= old_end && increment >= 0 {
            return old_end;
        }
        let p4 = self.p4;
        if new_end > old_end {
            let total = new_end - old_end;
            let q = (total + (PAGE_SIZE as u64 - 1)) / (PAGE_SIZE as u64);
            proof {
                assert(q * 0x1000 <= total + 0xfff && total <= q * 0x1000) by (nonlinear_arith)
                    requires
                        q == (total + 0xfff) / 0x1000,
                ;
                assert(q <= total / 0x1000 + 1);
                assert(total <= increment + 0xfff);
            }
            let pages = q as usize;
            let ghost a0 = self.areas();
            let c = self.clear_run(old_end, pages);
            let low = old_end & !(PAGE_SIZE as u64 - 1);
            proof {
                lemma_page_down(old_end);
                vstd::arithmetic::div_mod::lemma_mod_multiples_basic((old_end / 0x1000) as int, 0x1000);
                vstd::arithmetic::mul::lemma_mul_inequality(c as int, pages as int, PAGE_SIZE as int);
            }
            let ghost pmm0 = *pmm;
            proof {
                lemma_flag_bits(true, true, true);
            }
            let fr = tm.map_fresh(pmm, p4, low, c, PTE_W | PTE_U | PTE_NX);
            let n = fr.len();
            proof {
                assert(low == page_down(old_end as int));
                assert(backed(old(tm)@, tm@, *old(pmm), *pmm, p4, page_down(old_end as int), n as int));
            }
            if n == 0 && c > 0 {
                proof {
                    assert(!spec_has_overlap(a0, old_end + 0 * PAGE_SIZE, PAGE_SIZE as int));
                }
                return 0;
            }
            proof {
                vstd::arithmetic::mul::lemma_mul_inequality(n as int, c as int, PAGE_SIZE as int);
            }
            let end = old_end + (n as u64) * (PAGE_SIZE as u64);
            proof {
                vstd::arithmetic::div_mod::lemma_div_multiples_vanish(n as int, PAGE_SIZE as int);
                vstd::arithmetic::div_mod::lemma_mod_multiples_basic(n as int, PAGE_SIZE as int);
                assert forall|k: int|
                    #![trigger spec_has_overlap(a0, old_end + k * PAGE_SIZE, PAGE_SIZE as int)]
                    0 <= k < n implies !spec_has_overlap(a0, old_end + k * PAGE_SIZE, PAGE_SIZE as int) by {
                    assert(!spec_has_overlap(self.areas(), old_end + k * PAGE_SIZE, PAGE_SIZE as int));
                }
                if c == 0 {
                    assert(spec_has_overlap(a0, old_end + 0 * PAGE_SIZE, PAGE_SIZE as int));
                }
            }
            self.sbrk_commit(old_end, end, true);
        } else {
            let total = old_end - new_end;
            let q = (total + (PAGE_SIZE as u64 - 1)) / (PAGE_SIZE as u64);
            proof {
                assert(q * 0x1000 <= total + 0xfff) by (nonlinear_arith)
                    requires
                        q == (total + 0xfff) / 0x1000,
                ;
                assert(q <= total / 0x1000 + 1);
            }
            let pages = q as usize;
            tm.unmap_pages(pmm, p4, new_end, pages);
            self.sbrk_commit(old_end, new_end, false);
        }
        old_end
    }

    /// Bookkeeping after the heap break moved from `old_end` to `new_end`
    /// (`grew` when pages were added): the first growth of the heap records
    /// a heap area; otherwise the area containing the heap start is resized
    /// to the heap and counted as fully backed.
    pub fn sbrk_commit(&mut self, old_end: u64, new_end: u64, grew: bool)
        requires
            old(self).wf(),
            old(self).heap_start <= new_end <= VMA_LIMIT,
        ensures
            final(self).wf(),
            final(self).heap_end == new_end,
            final(self).heap_start == old(self).heap_start,
            final(self).p4 == old(self).p4,
            final(self).mmap_next == old(self).mmap_next,
            final(self).areas() == heap_areas(old(self).areas(), old(self).heap_start, old_end, new_end, grew),
    {
        self.heap_end = new_end;
        let size = (self.heap_end - self.heap_start) as usize;
        if grew && self.heap_start == old_end {
            let vma = Vma {
                base: self.heap_start,
                size,
                flags: VMA_R | VMA_W | VMA_USER | VMA_HEAP,
                typ: VmaType::Heap,
                mapped_pages: size / PAGE_SIZE,
            };
            self.add_vma(vma);
        } else {
            let hs = self.heap_start;
            if let Some(i) = self.find_vma_mut(hs) {
                proof {
                    lemma_first_vma(self.areas(), |v: Vma| v.spec_contains(hs as int), 0);
                    assert(self.areas()[i as int] == self.vmas@[i as int]);
                }
                let mut v = self.vmas[i];
                v.size = size;
                v.mapped_pages = size / PAGE_SIZE;
                self.vmas[i] = v;
                proof {
                    assert(self.areas() =~= old(self).areas().update(i as int, v));
                    assert forall|j: int| 0 <= j < self.vma_count implies (#[trigger] self.vmas@[j]).spec_end() <= VMA_LIMIT by {
                        assert(old(self).vmas@[j].spec_end() <= VMA_LIMIT);
                    }
                }
            }
        }
    }

    /// Slot of the first area in use colliding with `[addr, addr + size)`.
    fn first_blocking(&self, addr: VirtAddr, size: usize) -> (r: Option<usize>)
        requires
            self.wf(),
            addr + size <= u64::MAX,
        ensures
            ({
                let k = first_vma(self.areas(), collides(addr as int, size as int), 0);
                match r {
                    Some(i) => i == k && 0 <= k,
                    None => k == -1,
                }
            }),
    {
        let ghost vs = self.areas();
        let ghost p = collides(addr as int, size as int);
        let mut i: usize = 0;
        while i < self.vma_count
            invariant
                0 <= i <= self.vma_count,
                self.wf(),
                vs == self.areas(),
                addr + size <= u64::MAX,
                p == collides(addr as int, size as int),
                forall|j: int| 0 <= j < i ==> !p(#[trigger] vs[j]),
            decreases self.vma_count - i,
        {
            let v = self.vmas[i];
            proof {
                assert(vs[i as int] == v);
            }
            if v.typ != VmaType::Unused && addr < v.end() && addr + size as u64 > v.base {
                proof {
                    lemma_first_vma(vs, p, 0);
                    let k = first_vma(vs, p, 0);
                    if k < i {
                        assert(p(vs[k]));
                    }
                    if i < k {
                        assert(p(vs[i as int]));
                    }
                }
                return Some(i);
            }
            i = i + 1;
        }
        proof {
            lemma_first_vma(vs, p, 0);
            let k = first_vma(vs, p, 0);
            if 0 <= k {
                assert(p(vs[k]));
            }
        }
        None
    }

    /// Find `size` free bytes at or above `hint`, below the stack top.
    pub fn find_free_range(&self, size: usize, hint: VirtAddr) -> (r: Option<VirtAddr>)
        requires
            self.wf(),
            hint + size <= u64::MAX,
        ensures
            match free_range_from(self.areas(), size as int, hint as int) {
                Some(a) => r == Some(a as u64),
                None => r is None,
            },
            r matches Some(a) ==> hint <= a && a + size <= USER_STACK_TOP && !spec_has_overlap(
                self.areas(),
                a as int,
                size as int,
            ),
    {
        let ghost vs = self.areas();
        proof {
            self.lemma_wf();
        }
        let mut addr = hint;
        loop
            invariant
                self.wf(),
                vs == self.areas(),
                hint <= addr,
                addr == hint || (addr <= VMA_LIMIT + 0xfff && size <= USER_STACK_TOP),
                addr + size <= u64::MAX,
                free_range_from(vs, size as int, addr as int) == free_range_from(vs, size as int, hint as int),
                forall|i: int| 0 <= i < vs.len() ==> (#[trigger] vs[i]).spec_end() <= VMA_LIMIT,
            decreases u64::MAX - addr,
        {
            if addr + size as u64 > USER_STACK_TOP {
                return None;
            }
            match self.first_blocking(addr, size) {
                None => {
                    proof {
                        assert forall|i: int| 0 <= i < vs.len() implies !blocks(#[trigger] vs[i], addr as int, size as int) by {
                            lemma_first_vma(vs, collides(addr as int, size as int), 0);
                            assert(!collides(addr as int, size as int)(vs[i]));
                        }
                    }
                    return Some(addr);
                },
                Some(k) => {
                    proof {
                        lemma_first_vma(vs, collides(addr as int, size as int), 0);
                        self.lemma_wf();
                        assert(vs[k as int] == self.vmas@[k as int]);
                    }
                    let e = self.vmas[k].end();
                    proof {
                        lemma_page_up(e);
                    }
                    addr = (e + PAGE_SIZE as u64 - 1) & !(PAGE_SIZE as u64 - 1);
                },
            }
        }
    }

    /// Remove the first area based at `base`; `false` when there is none.
    pub fn remove_vma(&mut self, base: VirtAddr) -> (r: bool)
        requires
            old(self).wf(),
        ensures
            final(self).wf(),
            ({
                let k = first_vma(old(self).areas(), |v: Vma| v.base == base, 0);
                &&& r == (k >= 0)
                &&& k < 0 ==> final(self).areas() == old(self).areas()
                &&& k >= 0 ==> final(self).areas() == old(self).areas().remove(k)
            }),
            old(self).sorted() ==> final(self).sorted(),
            final(self).p4 == old(self).p4,
            final(self).heap_start == old(self).heap_start,
            final(self).heap_end == old(self).heap_end,
            final(self).spec_mmap_next() == old(self).spec_mmap_next(),
            final(self).spec_aslr_state() == old(self).spec_aslr_state(),
    {
        let ghost vs = self.areas();
        let ghost p = |v: Vma| v.base == base;
        proof {
            lemma_first_vma(vs, p, 0);
        }
        let idx = self.position_of_base(base);
        if idx >= self.vma_count {
            return false;
        }
        let n = self.vma_count;
        let ghost old_vmas = self.vmas@;
        let mut i = idx;
        while i + 1 < n
            invariant
                idx <= i < n,
                n == self.vma_count,
                n <= MAX_VMAS,
                self.vmas@.len() == MAX_VMAS,
                forall|j: int| 0 <= j < idx ==> self.vmas@[j] == old_vmas[j],
                forall|j: int| idx <= j < i ==> self.vmas@[j] == old_vmas[j + 1],
                forall|j: int| i <= j < MAX_VMAS ==> self.vmas@[j] == old_vmas[j],
                old_vmas == old(self).vmas@,
                self.p4 == old(self).p4,
                self.heap_start == old(self).heap_start,
                self.heap_end == old(self).heap_end,
                self.mmap_next == old(self).mmap_next,
                self.aslr_state == old(self).aslr_state,
            decreases n - i,
        {
            let nx = self.vmas[i + 1];
            self.vmas[i] = nx;
            i = i + 1;
        }
        self.vma_count = n - 1;
        self.vmas[n - 1] = Vma::empty();
        proof {
            let s = self.areas();
            assert(s =~= vs.remove(idx as int));
            assert forall|j: int| 0 <= j < self.vma_count implies (#[trigger] self.vmas@[j]).spec_end() <= VMA_LIMIT by {
                if j < idx {
                    assert(old_vmas[j] == vs[j]);
                } else {
                    assert(old_vmas[j + 1] == vs[j + 1]);
                }
            }
            if old(self).sorted() {
                assert forall|a: int, b: int| 0 <= a < b < s.len() implies s[a].base <= s[b].base by {
                    let a0 = if a < idx { a } else { a + 1 };
                    let b0 = if b < idx { b } else { b + 1 };
                    assert(s[a] == vs[a0] && s[b] == vs[b0]);
                }
            }
        }
        true
    }

    /// Slot of the first area based at `base`, or the number of areas.
    fn position_of_base(&self, base: VirtAddr) -> (r: usize)
        requires
            self.wf(),
        ensures
            ({
                let k = first_vma(self.areas(), |v: Vma| v.base == base, 0);
                (k >= 0 && r == k) || (k < 0 && r == self.areas().len())
            }),
            r <= self.areas().len(),
    {
        let ghost vs = self.areas();
        let ghost p = |v: Vma| v.base == base;
        let mut i: usize = 0;
        while i < self.vma_count
            invariant
                0 <= i <= self.vma_count,
                self.wf(),
                vs == self.areas(),
                p == (|v: Vma| v.base == base),
                forall|j: int| 0 <= j < i ==> !p(#[trigger] vs[j]),
            decreases self.vma_count - i,
        {
            proof {
                assert(vs[i as int] == self.vmas@[i as int]);
            }
            if self.vmas[i].base == base {
                proof {
                    lemma_first_vma(vs, p, 0);
                    let k = first_vma(vs, p, 0);
                    if k < i {
                        assert(p(vs[k]));
                    }
                    if i < k {
                        assert(p(vs[i as int]));
                    }
                }
                return i;
            }
            i = i + 1;
        }
        proof {
            lemma_first_vma(vs, p, 0);
            let k = first_vma(vs, p, 0);
            if 0 <= k {
                assert(p(vs[k]));
            }
        }
        i
    }
}

/// Law: the heap area follows the break. After the break moves from
/// `old_end` to `new_end`, on the first growth (and with a slot free) a
/// heap area spanning `[heap_start, new_end)` with every page backed is
/// added; otherwise the area holding the heap start, if any, takes the
/// size `new_end - heap_start` with every page counted as backed, whether
/// the break grew or shrank, and every other area stays as it was.
pub proof fn law_heap_area_follows_break(s0: AddressSpace, s1: AddressSpace, old_end: u64, new_end: u64, grew: bool)
    requires
        s0.wf(),
        s0.heap_start <= new_end,
        s1.areas() == heap_areas(s0.areas(), s0.heap_start, old_end, new_end, grew),
    ensures
        ({
            let hs = s0.heap_start;
            let vs = s0.areas();
            let ws = s1.areas();
            let size = (new_end - hs) as usize;
            &&& grew && hs == old_end && vs.len() < MAX_VMAS ==> exists|k: int|
                0 <= k < ws.len() && #[trigger] ws[k].base == hs && ws[k].size == size && ws[k].typ == VmaType::Heap
                    && ws[k].mapped_pages == size / PAGE_SIZE
            &&& !(grew && hs == old_end) && (exists|j: int| 0 <= j < vs.len() && #[trigger] vs[j].spec_contains(hs as int))
                ==> exists|k: int|
                0 <= k < vs.len() && ws.len() == vs.len() && #[trigger] vs[k].spec_contains(hs as int) && ws[k].base
                    == vs[k].base && ws[k].size == size && ws[k].mapped_pages == size / PAGE_SIZE && forall|j: int|
                    0 <= j < vs.len() && j != k ==> ws[j] == vs[j]
        }),
{
    let hs = s0.heap_start;
    let vs = s0.areas();
    let p = |v: Vma| v.spec_contains(hs as int);
    lemma_first_vma(vs, p, 0);
    let k = first_vma(vs, p, 0);
    if grew && hs == old_end && vs.len() < MAX_VMAS {
        let pos = settle_pos(vs, hs as int, vs.len() as int);
        lemma_settle_pos_range(vs, hs as int, vs.len() as int);
        assert(s1.areas()[pos] == Vma {
            base: hs,
            size: (new_end - hs) as usize,
            flags: VMA_R | VMA_W | VMA_USER | VMA_HEAP,
            typ: VmaType::Heap,
            mapped_pages: ((new_end - hs) as usize / PAGE_SIZE) as usize,
        });
    }
    if !(grew && hs == old_end) && (exists|j: int| 0 <= j < vs.len() && #[trigger] vs[j].spec_contains(hs as int)) {
        let j = choose|j: int| 0 <= j < vs.len() && #[trigger] vs[j].spec_contains(hs as int);
        assert(p(vs[j]));
        assert(0 <= k < vs.len());
        assert(vs[k].spec_contains(hs as int));
    }
}

} // verus!
