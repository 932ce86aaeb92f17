//! The kernel heap front end: a small request goes to the slab cache
//! first, and everything else, or what the slab cache cannot serve, to the
//! buddy allocator.
use vstd::prelude::*;
use crate::allocator::buddy::{BuddyAllocator, MAX_BLOCK, BUDDY_HEAP_SIZE, size_order};
use crate::libcosinus::fmt::{dec_digits, put_dec, put_str};
use vstd::string::StringSliceAdditionalSpecFns;

verus! {

/// Where the kernel heap lies by default.
pub const KHEAP_BASE: usize = 0x1000_0000;
pub const KHEAP_SIZE: usize = 0x200_0000;

/// Largest request the slab cache serves.
pub const MAX_SLAB_SIZE: usize = 512;

/// A request of `size` bytes aligned to `align` belongs to the slab cache.
pub open spec fn slab_sized(size: usize, align: usize) -> bool {
    size <= MAX_SLAB_SIZE && align <= size
}

/// Whether a request of `size` bytes aligned to `align` belongs to the
/// slab cache.
pub fn uses_slab(size: usize, align: usize) -> (r: bool)
    ensures
        r == slab_sized(size, align),
{
    size <= MAX_SLAB_SIZE && align <= size
}

/// The heap statistics line: free, used and total memory of the buddy
/// allocator and the memory of the slab cache, in KiB.
pub open spec fn stats_text(free: nat, used: nat, total: nat, slab: nat) -> Seq<u8> {
    "[HEAP] free=".spec_bytes() + dec_digits(free) + "KB  used=".spec_bytes() + dec_digits(used)
        + "KB  total=".spec_bytes() + dec_digits(total) + "KB  slab=".spec_bytes() + dec_digits(slab)
        + "KB\n".spec_bytes()
}

/// Where a released block goes back to.
#[derive(Clone, Copy, PartialEq, Eq, Structural)]
pub enum FreeRoute {
    /// Nothing is released: the heap is not set up, or the pointer is null.
    Ignored,
    /// The block goes back to the slab cache.
    Slab,
    /// The block went back to the buddy allocator.
    Buddy,
}

/// The kernel heap: its buddy allocator and whether it is set up.
pub struct KernelHeap {
    pub buddy: BuddyAllocator,
    pub inited: bool,
}

impl KernelHeap {
    /// A heap that is not set up.
    pub fn new() -> (r: Self)
        ensures
            r.buddy.wf(),
            !r.inited,
            r.buddy.heap_size() == 0,
            r.buddy.free_byte_count() == 0,
    {
        KernelHeap { buddy: BuddyAllocator::new(), inited: false }
    }

    /// Set the heap up over `[base, base + size)`.
    pub fn init(&mut self, base: usize, size: usize)
        requires
            base % MAX_BLOCK == 0,
            size % MAX_BLOCK == 0,
            size <= BUDDY_HEAP_SIZE,
            base + size <= usize::MAX,
        ensures
            final(self).inited,
            final(self).buddy.wf(),
            final(self).buddy.base_addr() == base,
            final(self).buddy.heap_size() == size,
            final(self).buddy.free_byte_count() == size,
    {
        self.buddy.init(base, size);
        self.inited = true;
    }

    /// Set the heap up at its default place.
    pub fn init_default(&mut self)
        ensures
            final(self).inited,
            final(self).buddy.wf(),
            final(self).buddy.base_addr() == KHEAP_BASE,
            final(self).buddy.heap_size() == KHEAP_SIZE,
            final(self).buddy.free_byte_count() == KHEAP_SIZE,
    {
        self.init(KHEAP_BASE, KHEAP_SIZE);
    }

    /// Set the buddy allocator up again over `[base, base + size)`,
    /// forgetting every block handed out.
    pub fn reinit(&mut self, base: usize, size: usize)
        requires
            base % MAX_BLOCK == 0,
            size % MAX_BLOCK == 0,
            size <= BUDDY_HEAP_SIZE,
            base + size <= usize::MAX,
        ensures
            final(self).inited,
            final(self).buddy.wf(),
            final(self).buddy.base_addr() == base,
            final(self).buddy.heap_size() == size,
            final(self).buddy.free_byte_count() == size,
    {
        self.buddy.init(base, size);
        self.inited = true;
    }

    /// Stop serving requests.
    pub fn shutdown(&mut self)
        ensures
            !final(self).inited,
            final(self).buddy == old(self).buddy,
    {
        self.inited = false;
    }

    /// Free memory of the buddy allocator in KiB.
    pub fn free_kb(&self) -> (r: usize)
        ensures
            r == self.buddy.free_byte_count() / 1024,
    {
        self.buddy.free_kb()
    }

    /// Size of the heap in KiB.
    pub fn total_kb(&self) -> (r: usize)
        ensures
            r == self.buddy.heap_size() / 1024,
    {
        self.buddy.total_kb()
    }

    /// Memory of the heap in use in KiB.
    pub fn used_kb(&self) -> (r: usize)
        requires
            self.buddy.wf(),
        ensures
            r == self.buddy.heap_size() / 1024 - self.buddy.free_byte_count() / 1024,
    {
        self.buddy.used_kb()
    }

    /// The statistics line of the heap, with `slab_kb` KiB held by the slab
    /// cache.
    pub fn stats_line(&self, slab_kb: usize) -> (r: Vec<u8>)
        requires
            self.buddy.wf(),
        ensures
            r@ == stats_text(
                (self.buddy.free_byte_count() / 1024) as nat,
                (self.buddy.heap_size() / 1024 - self.buddy.free_byte_count() / 1024) as nat,
                (self.buddy.heap_size() / 1024) as nat,
                slab_kb as nat,
            ),
    {
        let mut out: Vec<u8> = Vec::new();
        put_str(&mut out, "[HEAP] free=");
        put_dec(&mut out, self.free_kb() as u64);
        put_str(&mut out, "KB  used=");
        put_dec(&mut out, self.used_kb() as u64);
        put_str(&mut out, "KB  total=");
        put_dec(&mut out, self.total_kb() as u64);
        put_str(&mut out, "KB  slab=");
        put_dec(&mut out, slab_kb as u64);
        put_str(&mut out, "KB\n");
        out
    }

    /// Serve `size` bytes aligned to `align`. `slab_block` is what the slab
    /// cache hands out for a request that belongs to it (`None` when it has
    /// no room); a request it does not serve goes to the buddy allocator.
    /// Nothing is served before the heap is set up or for zero bytes.
    pub fn do_alloc(&mut self, size: usize, align: usize, slab_block: Option<usize>) -> (r: Option<usize>)
        requires
            old(self).buddy.wf(),
        ensures
            final(self).buddy.wf(),
            final(self).inited == old(self).inited,
            !old(self).inited || size == 0 ==> r is None && *final(self) == *old(self),
            old(self).inited && size > 0 && slab_sized(size, align) && slab_block is Some ==> r == slab_block
                && *final(self) == *old(self),
            old(self).inited && size > 0 && !(slab_sized(size, align) && slab_block is Some) ==> old(
                self,
            ).buddy.alloc_outcome(final(self).buddy, size, align, r),
    {
        if !self.inited || size == 0 {
            return None;
        }
        if uses_slab(size, align) {
            if let Some(p) = slab_block {
                return Some(p);
            }
        }
        self.buddy.alloc_block(size, align)
    }

    /// Release the block at `ptr` of `size` bytes aligned to `align`: a
    /// block that belongs to the slab cache is handed back to it by the
    /// caller; any other goes back to the buddy allocator.
    pub fn do_dealloc(&mut self, ptr: usize, size: usize, align: usize) -> (r: FreeRoute)
        requires
            old(self).buddy.wf(),
            old(self).inited && ptr != 0 && size != 0 && !slab_sized(size, align) ==> old(self).buddy.block_ok(
                size_order(size as int),
                ptr as int,
            ) && old(self).buddy.block_in_use(size_order(size as int), ptr as int),
        ensures
            final(self).buddy.wf(),
            final(self).inited == old(self).inited,
            !old(self).inited || ptr == 0 ==> r == FreeRoute::Ignored && *final(self) == *old(self),
            old(self).inited && ptr != 0 && slab_sized(size, align) ==> r == FreeRoute::Slab && *final(self) == *old(
                self,
            ),
            old(self).inited && ptr != 0 && !slab_sized(size, align) ==> r == FreeRoute::Buddy && (size == 0
                ==> *final(self) == *old(self)) && (size != 0 ==> old(self).buddy.free_effect(
                final(self).buddy,
                size_order(size as int),
                ptr,
            )),
    {
        if !self.inited || ptr == 0 {
            return FreeRoute::Ignored;
        }
        if uses_slab(size, align) {
            return FreeRoute::Slab;
        }
        self.buddy.free(ptr, size);
        FreeRoute::Buddy
    }
}

} // verus!
