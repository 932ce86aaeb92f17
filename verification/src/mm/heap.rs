//! The kernel heap front end: every request is served by the slab
//! allocator for the larger of its size and its alignment, which every
//! size class then satisfies.
use vstd::prelude::*;
use crate::mm::pmm::Pmm;
use crate::mm::slab::{Slab, kmalloc_effect, kfree_effect, can_kfree, class_of, MAX_LARGE};

verus! {

/// The size a request is served by: the larger of size and alignment.
pub open spec fn effective_size(size: usize, align: usize) -> int {
    if size > align {
        size as int
    } else {
        align as int
    }
}

fn effective(size: usize, align: usize) -> (r: usize)
    ensures
        r == effective_size(size, align),
{
    if size > align {
        size
    } else {
        align
    }
}

/// The kernel heap.
pub struct KernelHeap;

impl KernelHeap {
    /// A block for `size` bytes aligned to `align`: what `kmalloc` gives for
    /// the larger of the two.
    pub fn alloc_block(&self, slab: &mut Slab, pmm: &mut Pmm, size: usize, align: usize) -> (r: u64)
        requires
            old(slab).wf(),
            old(pmm).wf(),
            old(slab).can_kmalloc(*old(pmm), effective_size(size, align)),
        ensures
            kmalloc_effect(*old(slab), *final(slab), *old(pmm), *final(pmm), effective_size(size, align), r),
    {
        slab.kmalloc(pmm, effective(size, align))
    }

    /// Give back the block at `ptr` allocated for `size` bytes aligned to
    /// `align`.
    pub fn dealloc(&self, slab: &mut Slab, pmm: &mut Pmm, ptr: u64, size: usize, align: usize)
        requires
            old(slab).wf(),
            old(pmm).wf(),
            can_kfree(*old(slab), ptr, effective_size(size, align)),
        ensures
            kfree_effect(*old(slab), *final(slab), *old(pmm), *final(pmm), ptr, effective_size(size, align)),
    {
        slab.kfree(pmm, ptr, effective(size, align))
    }

    /// Resize the block at `ptr` (allocated for `size` bytes aligned to
    /// `align`) to `new_size` bytes with the same alignment: `krealloc`
    /// between the two effective sizes.
    pub fn realloc(&self, slab: &mut Slab, pmm: &mut Pmm, ptr: u64, size: usize, align: usize, new_size: usize) -> (r: u64)
        requires
            old(slab).wf(),
            old(pmm).wf(),
            ptr == 0 || effective_size(new_size, align) != 0 ==> old(slab).can_kmalloc(
                *old(pmm),
                effective_size(new_size, align),
            ),
            can_kfree(*old(slab), ptr, effective_size(size, align)),
        ensures
            final(slab).wf(),
            final(pmm).wf(),
            ({
                let o = effective_size(size, align);
                let n = effective_size(new_size, align);
                &&& ptr == 0 ==> kmalloc_effect(*old(slab), *final(slab), *old(pmm), *final(pmm), n, r)
                &&& ptr != 0 && n == 0 ==> r == 0 && kfree_effect(*old(slab), *final(slab), *old(pmm), *final(pmm), ptr, o)
                &&& ptr != 0 && n != 0 && o <= MAX_LARGE && n <= MAX_LARGE && class_of(o) == class_of(n) ==> r == ptr
                    && *final(slab) == *old(slab) && *final(pmm) == *old(pmm)
                &&& ptr != 0 && n != 0 && !(o <= MAX_LARGE && n <= MAX_LARGE && class_of(o) == class_of(n))
                    ==> exists|s_mid: Slab, p_mid: Pmm|
                    kmalloc_effect(*old(slab), s_mid, *old(pmm), p_mid, n, r) && (r == 0 ==> *final(slab) == s_mid
                        && *final(pmm) == p_mid) && (r != 0 ==> kfree_effect(s_mid, *final(slab), p_mid, *final(pmm), ptr, o))
            }),
    {
        slab.krealloc(pmm, ptr, effective(size, align), effective(new_size, align))
    }
}

} // verus!
