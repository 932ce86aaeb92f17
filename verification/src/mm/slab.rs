//! Slab allocator for kernel objects: twelve size classes from 8 bytes to
//! 16 KiB, each with a free list of slots carved out of frames taken from
//! the physical memory manager; larger requests take whole frames.
use vstd::prelude::*;
use crate::mm::PAGE_SIZE;
use crate::mm::pmm::Pmm;

verus! {

/// Number of size classes.
pub const N_CLASSES: usize = 12;

/// Largest size served by a class.
pub const MAX_LARGE: usize = 16384;

/// Slot size of class `ci`: 8, 16, ..., 16384 bytes.
pub open spec fn class_size(ci: int) -> int
    decreases ci,
{
    if ci <= 0 {
        8
    } else {
        2 * class_size(ci - 1)
    }
}

/// Frames a class takes at once when it grows.
pub open spec fn class_pages(ci: int) -> int {
    if ci < 6 {
        1
    } else if ci < 8 {
        2
    } else if ci < 10 {
        4
    } else {
        8
    }
}

proof fn lemma_class_sizes()
    ensures
        class_size(0) == 8,
        class_size(1) == 16,
        class_size(2) == 32,
        class_size(3) == 64,
        class_size(4) == 128,
        class_size(5) == 256,
        class_size(6) == 512,
        class_size(7) == 1024,
        class_size(8) == 2048,
        class_size(9) == 4096,
        class_size(10) == 8192,
        class_size(11) == 16384,
{
    reveal_with_fuel(class_size, 12);
}

/// Slot size of class `ci`.
pub fn slab_size(ci: usize) -> (r: usize)
    requires
        ci < N_CLASSES,
    ensures
        r == class_size(ci as int),
{
    proof {
        lemma_class_sizes();
    }
    match ci {
        0 => 8,
        1 => 16,
        2 => 32,
        3 => 64,
        4 => 128,
        5 => 256,
        6 => 512,
        7 => 1024,
        8 => 2048,
        9 => 4096,
        10 => 8192,
        _ => 16384,
    }
}

/// Frames class `ci` takes at once.
pub fn slab_pages(ci: usize) -> (r: usize)
    requires
        ci < N_CLASSES,
    ensures
        r == class_pages(ci as int),
{
    if ci < 6 {
        1
    } else if ci < 8 {
        2
    } else if ci < 10 {
        4
    } else {
        8
    }
}

/// The smallest class whose slots hold `size` bytes; `None` past the
/// largest.
pub fn class_for(size: usize) -> (r: Option<usize>)
    ensures
        r is None <==> size > MAX_LARGE,
        r matches Some(ci) ==> ci < N_CLASSES && size <= class_size(ci as int) && (ci == 0 || size > class_size(
            ci - 1,
        )),
{
    proof {
        lemma_class_sizes();
    }
    let mut ci: usize = 0;
    while ci < N_CLASSES
        invariant
            ci <= N_CLASSES,
            ci > 0 ==> size > class_size(ci - 1),
        decreases N_CLASSES - ci,
    {
        proof {
            lemma_class_sizes();
        }
        if size <= slab_size(ci) {
            return Some(ci);
        }
        ci = ci + 1;
    }
    None
}

/// Frames needed for `size` bytes.
pub fn round_up_pages(size: usize) -> (r: usize)
    requires
        size + PAGE_SIZE <= usize::MAX,
    ensures
        r == (size + PAGE_SIZE - 1) / PAGE_SIZE as int,
{
    (size + PAGE_SIZE - 1) / PAGE_SIZE
}

/// One size class.
pub struct SlabClass {
    pub obj_size: usize,
    pub slab_pages: usize,
    /// Free slots; the last one is handed out next.
    pub free_list: Vec<u64>,
    pub alloc_count: u64,
    pub free_count: u64,
    pub slab_count: u64,
}

impl SlabClass {
    pub fn new(obj_size: usize, slab_pages: usize) -> (r: Self)
        ensures
            r.obj_size == obj_size,
            r.slab_pages == slab_pages,
            r.free_list@ == Seq::<u64>::empty(),
            r.alloc_count == 0,
            r.free_count == 0,
            r.slab_count == 0,
    {
        SlabClass { obj_size, slab_pages, free_list: Vec::new(), alloc_count: 0, free_count: 0, slab_count: 0 }
    }

    /// Take the next free slot; 0 when there is none.
    pub fn pop(&mut self) -> (r: u64)
        requires
            old(self).alloc_count < u64::MAX,
        ensures
            old(self).free_list@.len() == 0 ==> r == 0 && *final(self) == *old(self),
            old(self).free_list@.len() > 0 ==> r == old(self).free_list@.last() && final(self).free_list@ == old(
                self,
            ).free_list@.drop_last() && final(self).alloc_count == old(self).alloc_count + 1,
            final(self).obj_size == old(self).obj_size,
            final(self).slab_pages == old(self).slab_pages,
            final(self).free_count == old(self).free_count,
            final(self).slab_count == old(self).slab_count,
    {
        if self.free_list.len() == 0 {
            return 0;
        }
        match self.free_list.pop() {
            Some(p) => {
                self.alloc_count = self.alloc_count + 1;
                p
            },
            None => 0,
        }
    }

    /// Give a slot back.
    pub fn push(&mut self, ptr: u64)
        requires
            old(self).free_count < u64::MAX,
        ensures
            final(self).free_list@ == old(self).free_list@.push(ptr),
            final(self).free_count == old(self).free_count + 1,
            final(self).obj_size == old(self).obj_size,
            final(self).slab_pages == old(self).slab_pages,
            final(self).alloc_count == old(self).alloc_count,
            final(self).slab_count == old(self).slab_count,
    {
        self.free_list.push(ptr);
        self.free_count = self.free_count + 1;
    }

    /// The slots a grow at `base` adds, in the order they are pushed: from
    /// the highest down to `base` itself.
    pub open spec fn new_slots(&self, base: u64) -> Seq<u64> {
        let slots = (self.slab_pages * PAGE_SIZE) as int / self.obj_size as int;
        Seq::new(slots as nat, |k: int| (base + (slots - 1 - k) * self.obj_size) as u64)
    }

    /// Take `slab_pages` frames and put the slots of `slab_pages` pages from
    /// the first frame on the free list, highest first so that the lowest
    /// is handed out first. Only the first frame backs the slots; the others
    /// are taken but not used. `false` when a frame came back as address 0;
    /// the first frame is then given back.
    pub fn grow(&mut self, pmm: &mut Pmm) -> (r: bool)
        requires
            old(pmm).wf(),
            old(pmm).free_set().len() >= old(self).slab_pages,
            old(self).slab_pages >= 1,
            old(self).obj_size >= 8,
            old(self).slab_pages * PAGE_SIZE <= usize::MAX,
            old(pmm).base() + PAGE_SIZE * old(pmm).limit() + old(self).slab_pages * PAGE_SIZE <= u64::MAX,
            old(self).free_count + old(self).slab_pages * PAGE_SIZE <= u64::MAX,
            old(self).slab_count < u64::MAX,
        ensures
            final(pmm).wf(),
            final(pmm).base() == old(pmm).base(),
            final(pmm).size() == old(pmm).size(),
            final(self).obj_size == old(self).obj_size,
            final(self).slab_pages == old(self).slab_pages,
            final(self).alloc_count == old(self).alloc_count,
            final(self).free_count == old(self).free_count,
            r ==> final(pmm).free_set().len() == old(pmm).free_set().len() - old(self).slab_pages,
            r ==> exists|base: u64|
                #![trigger old(self).new_slots(base)]
                old(pmm).free_set().contains(old(pmm).frame_of(base as int)) && base == old(pmm).addr_of(
                    old(pmm).frame_of(base as int),
                ) && final(self).free_list@ == old(self).free_list@ + old(self).new_slots(base) && final(self).slab_count
                    == old(self).slab_count + 1,
            !r ==> final(self).free_list@ == old(self).free_list@ && final(self).slab_count == old(self).slab_count,
            old(pmm).base() != 0 ==> r,
            !r ==> old(pmm).base() == 0 && old(pmm).free_set().contains(0),
    {
        let pages = self.slab_pages;
        let total = pages * PAGE_SIZE;
        let ghost pmm0 = *pmm;
        proof {
            pmm0.lemma_free_set_finite();
        }
        let base = pmm.mm_alloc_nolock();
        let ghost f0 = pmm.frame_of(base as int);
        proof {
            pmm0.lemma_free_set_finite();
            assert(pmm0.free_set().contains(f0));
            pmm0.lemma_free_frame(f0);
            vstd::set::axiom_set_remove_len(pmm0.free_set(), f0);
            pmm0.lemma_addr_fits();
            assert(base == pmm0.base() + f0 * PAGE_SIZE);
            assert(f0 >= 0);
            assert(f0 * PAGE_SIZE >= 0) by (nonlinear_arith)
                requires
                    f0 >= 0,
            ;
            if base == 0 {
                assert(f0 * PAGE_SIZE == 0);
                assert(f0 == 0) by (nonlinear_arith)
                    requires
                        f0 * PAGE_SIZE == 0,
                        f0 >= 0,
                ;
            }
        }
        if base == 0 {
            return false;
        }
        let mut i: usize = 1;
        while i < pages
            invariant
                pmm.wf(),
                1 <= i <= pages,
                pages == self.slab_pages,
                pmm.base() == pmm0.base(),
                pmm.size() == pmm0.size(),
                pmm.free_set().len() == pmm0.free_set().len() - i,
                pmm0.free_set().len() >= pages,
                pmm0 == *old(pmm),
                *self == *old(self),
                base <= pmm0.base() + PAGE_SIZE * pmm0.limit(),
                pmm.free_set().subset_of(pmm0.free_set()),
                base != 0,
            decreases pages - i,
        {
            let ghost before = *pmm;
            proof {
                before.lemma_free_set_finite();
            }
            let p = pmm.mm_alloc_nolock();
            proof {
                let fi = pmm.frame_of(p as int);
                assert(before.free_set().contains(fi));
                vstd::set::axiom_set_remove_len(before.free_set(), fi);
                before.lemma_free_frame(fi);
                before.lemma_addr_fits();
                assert(p == pmm0.base() + fi * PAGE_SIZE);
                assert(fi * PAGE_SIZE >= 0) by (nonlinear_arith)
                    requires
                        fi >= 0,
                ;
                if p == 0 {
                    assert(fi == 0) by (nonlinear_arith)
                        requires
                            fi * PAGE_SIZE == 0,
                            fi >= 0,
                    ;
                    assert(pmm0.free_set().contains(0));
                }
            }
            if p == 0 {
                pmm.mm_free_phys(base);
                return false;
            }
            i = i + 1;
        }
        let slots = total / self.obj_size;
        let ghost list0 = self.free_list@;
        let ghost obj = self.obj_size as int;
        let mut k: usize = slots;
        proof {
            assert(slots * self.obj_size <= total) by (nonlinear_arith)
                requires
                    slots == total / self.obj_size,
                    self.obj_size >= 8,
            ;
        }
        while k > 0
            invariant
                k <= slots,
                slots == total as int / obj,
                slots * obj <= total,
                total == pages * PAGE_SIZE,
                obj == self.obj_size,
                obj >= 8,
                self.obj_size == old(self).obj_size,
                self.slab_pages == old(self).slab_pages,
                self.alloc_count == old(self).alloc_count,
                self.slab_count == old(self).slab_count,
                self.free_count == old(self).free_count + (slots - k),
                old(self).free_count + total <= u64::MAX,
                base + total <= u64::MAX,
                self.free_list@ == list0 + Seq::new(
                    (slots - k) as nat,
                    |t: int| (base + (slots - 1 - t) * obj) as u64,
                ),
            decreases k,
        {
            k = k - 1;
            proof {
                assert(k * obj + obj <= total) by (nonlinear_arith)
                    requires
                        k < slots,
                        slots * obj <= total,
                        obj >= 8,
                ;
            }
            let ptr = base + k as u64 * self.obj_size as u64;
            if k * self.obj_size + self.obj_size <= total {
                proof {
                    assert(slots <= total) by (nonlinear_arith)
                        requires
                            slots * obj <= total,
                            obj >= 8,
                    ;
                }
                self.push(ptr);
                proof {
                    assert(self.free_list@ =~= list0 + Seq::new(
                        (slots - k) as nat,
                        |t: int| (base + (slots - 1 - t) * obj) as u64,
                    ));
                }
            }
        }
        self.free_count = self.free_count - slots as u64;
        self.slab_count = self.slab_count + 1;
        proof {
            assert(self.free_list@ == list0 + old(self).new_slots(base));
            assert(old(pmm).free_set().contains(old(pmm).frame_of(base as int)));
        }
        true
    }

    /// Take a slot, growing the class first when its list is empty; 0 when
    /// growing failed.
    pub fn alloc_slot(&mut self, pmm: &mut Pmm) -> (r: u64)
        requires
            old(pmm).wf(),
            old(self).free_list@.len() == 0 ==> old(pmm).free_set().len() >= old(self).slab_pages,
            old(self).slab_pages >= 1,
            old(self).obj_size >= 8,
            old(self).obj_size <= old(self).slab_pages * PAGE_SIZE,
            old(self).slab_pages * PAGE_SIZE <= usize::MAX,
            old(pmm).base() + PAGE_SIZE * old(pmm).limit() + old(self).slab_pages * PAGE_SIZE <= u64::MAX,
            old(self).free_count + old(self).slab_pages * PAGE_SIZE <= u64::MAX,
            old(self).slab_count < u64::MAX,
            old(self).alloc_count < u64::MAX,
        ensures
            final(pmm).wf(),
            final(pmm).base() == old(pmm).base(),
            final(pmm).size() == old(pmm).size(),
            final(self).obj_size == old(self).obj_size,
            final(self).slab_pages == old(self).slab_pages,
            final(self).free_count == old(self).free_count,
            old(self).free_list@.len() > 0 ==> r == old(self).free_list@.last() && final(self).free_list@ == old(
                self,
            ).free_list@.drop_last() && final(self).alloc_count == old(self).alloc_count + 1 && *final(pmm)
                == *old(pmm) && final(self).slab_count == old(self).slab_count,
            old(self).free_list@.len() == 0 && r != 0 ==> exists|base: u64|
                #![trigger old(self).new_slots(base)]
                old(pmm).free_set().contains(old(pmm).frame_of(base as int)) && base == old(pmm).addr_of(
                    old(pmm).frame_of(base as int),
                ) && r == base && final(self).free_list@ == old(self).new_slots(base).drop_last()
                    && final(self).slab_count == old(self).slab_count + 1,
    {
        if self.free_list.len() == 0 {
            if !self.grow(pmm) {
                return 0;
            }
            proof {
                let base = choose|base: u64|
                    #![trigger old(self).new_slots(base)]
                    old(pmm).free_set().contains(old(pmm).frame_of(base as int)) && base == old(pmm).addr_of(
                        old(pmm).frame_of(base as int),
                    ) && self.free_list@ == old(self).free_list@ + old(self).new_slots(base) && self.slab_count
                        == old(self).slab_count + 1;
                assert(self.free_list@ =~= old(self).new_slots(base));
                assert(old(self).new_slots(base).len() >= 1) by {
                    assert((self.slab_pages * PAGE_SIZE) as int / self.obj_size as int >= 1) by (nonlinear_arith)
                        requires
                            self.slab_pages >= 1,
                            self.obj_size >= 8,
                            self.obj_size <= self.slab_pages * PAGE_SIZE,
                    ;
                }
            }
        }
        self.pop()
    }
}

/// Index of the smallest class, from `ci` up, whose slots hold `size`.
pub open spec fn class_from(size: int, ci: int) -> int
    decreases N_CLASSES - ci,
{
    if ci >= N_CLASSES || size <= class_size(ci) {
        ci
    } else {
        class_from(size, ci + 1)
    }
}

/// Index of the smallest class whose slots hold `size`.
pub open spec fn class_of(size: int) -> int {
    class_from(size, 0)
}

proof fn lemma_class_of(size: int, ci: int)
    requires
        0 <= size <= MAX_LARGE,
        0 <= ci < N_CLASSES,
        size <= class_size(ci),
        ci == 0 || size > class_size(ci - 1),
    ensures
        class_of(size) == ci,
{
    lemma_class_sizes();
    reveal_with_fuel(class_from, 13);
}

/// What `kmalloc(size)` returning `r` does, from `s0`/`p0` to `s1`/`p1`.
pub open spec fn kmalloc_effect(s0: Slab, s1: Slab, p0: Pmm, p1: Pmm, size: int, r: u64) -> bool {
    &&& s1.wf()
    &&& p1.wf()
    &&& p1.base() == p0.base()
    &&& p1.size() == p0.size()
    &&& size == 0 ==> r == 0 && s1 == s0 && p1 == p0
    &&& 0 < size <= MAX_LARGE ==> {
        let ci = class_of(size);
        let c = s0.classes@[ci];
        &&& forall|k: int| 0 <= k < N_CLASSES && k != ci ==> #[trigger] s1.classes@[k] == s0.classes@[k]
        &&& c.free_list@.len() > 0 ==> r == c.free_list@.last() && s1.classes@[ci].free_list@ == c.free_list@.drop_last()
            && p1 == p0
        &&& c.free_list@.len() == 0 && r != 0 ==> exists|base: u64|
            #![trigger c.new_slots(base)]
            p0.free_set().contains(p0.frame_of(base as int)) && r == base && s1.classes@[ci].free_list@ == c.new_slots(
                base,
            ).drop_last()
    }
    &&& size > MAX_LARGE ==> s1 == s0 && p0.free_set().contains(p0.frame_of(r as int)) && r == p0.addr_of(
        p0.frame_of(r as int),
    ) && p1.free_set().len() == p0.free_set().len() - (size + PAGE_SIZE - 1) / PAGE_SIZE as int
}

/// What `kfree(ptr, size)` does, from `s0`/`p0` to `s1`/`p1`.
pub open spec fn kfree_effect(s0: Slab, s1: Slab, p0: Pmm, p1: Pmm, ptr: u64, size: int) -> bool {
    &&& s1.wf()
    &&& p1.wf()
    &&& p1.base() == p0.base()
    &&& p1.size() == p0.size()
    &&& ptr == 0 || size == 0 ==> s1 == s0 && p1 == p0
    &&& ptr != 0 && 0 < size <= MAX_LARGE ==> {
        let ci = class_of(size);
        &&& p1 == p0
        &&& s1.classes@[ci].free_list@ == s0.classes@[ci].free_list@.push(ptr)
        &&& forall|k: int| 0 <= k < N_CLASSES && k != ci ==> #[trigger] s1.classes@[k] == s0.classes@[k]
    }
    &&& ptr != 0 && size > MAX_LARGE ==> s1 == s0 && forall|k: int|
        #[trigger] p1.free_set().contains(k) <==> (p0.free_set().contains(k) || exists|j: int|
            0 <= j < (size + PAGE_SIZE - 1) / PAGE_SIZE as int && ptr + j * PAGE_SIZE >= p0.base()
                && #[trigger] p0.frame_of(ptr + j * PAGE_SIZE) == k && k < p0.limit())
}

/// What `kfree(ptr, size)` needs so that it cannot fail on a panic.
pub open spec fn can_kfree(s: Slab, ptr: u64, size: int) -> bool {
    &&& ptr != 0 && 0 < size <= MAX_LARGE ==> s.classes@[class_of(size)].free_count < u64::MAX
    &&& ptr != 0 && size > MAX_LARGE ==> size + PAGE_SIZE <= usize::MAX && ptr + ((size + PAGE_SIZE - 1)
        / PAGE_SIZE as int) * PAGE_SIZE <= u64::MAX
}

/// Usage figures of one class.
pub struct SlabStats {
    pub class_size: usize,
    pub alloc_count: u64,
    pub free_count: u64,
    pub slab_count: u64,
    pub live_objects: i64,
}

/// All size classes.
pub struct Slab {
    pub classes: Vec<SlabClass>,
}

impl Slab {
    /// Every class has its slot size and its frame count.
    pub open spec fn wf(&self) -> bool {
        &&& self.classes@.len() == N_CLASSES
        &&& forall|ci: int|
            0 <= ci < N_CLASSES ==> (#[trigger] self.classes@[ci]).obj_size == class_size(ci)
                && self.classes@[ci].slab_pages == class_pages(ci)
    }

    /// A class can take a slot: a frame supply for growing when its list is
    /// empty, and room in its counters and in the address space.
    pub open spec fn can_alloc_in(&self, pmm: Pmm, ci: int) -> bool {
        let c = self.classes@[ci];
        &&& c.free_list@.len() == 0 ==> pmm.free_set().len() >= c.slab_pages
        &&& c.alloc_count < u64::MAX
        &&& c.slab_count < u64::MAX
        &&& c.free_count + c.slab_pages * PAGE_SIZE <= u64::MAX
        &&& pmm.base() + PAGE_SIZE * pmm.limit() + c.slab_pages * PAGE_SIZE <= u64::MAX
    }

    /// What `kmalloc(size)` needs so that it cannot fail on a panic.
    pub open spec fn can_kmalloc(&self, pmm: Pmm, size: int) -> bool {
        &&& 0 < size <= MAX_LARGE ==> self.can_alloc_in(pmm, class_of(size))
        &&& size > MAX_LARGE ==> size + PAGE_SIZE <= usize::MAX && pmm.free_set().len() >= (size + PAGE_SIZE - 1)
            / PAGE_SIZE as int
    }

    pub fn new() -> (r: Self)
        ensures
            r.wf(),
            forall|ci: int| 0 <= ci < N_CLASSES ==> (#[trigger] r.classes@[ci]).free_list@.len() == 0,
    {
        let mut classes: Vec<SlabClass> = Vec::new();
        let mut ci: usize = 0;
        while ci < N_CLASSES
            invariant
                ci <= N_CLASSES,
                classes@.len() == ci,
                forall|k: int|
                    0 <= k < ci ==> (#[trigger] classes@[k]).obj_size == class_size(k) && classes@[k].slab_pages
                        == class_pages(k) && classes@[k].free_list@.len() == 0,
            decreases N_CLASSES - ci,
        {
            classes.push(SlabClass::new(slab_size(ci), slab_pages(ci)));
            ci = ci + 1;
        }
        Slab { classes }
    }

    /// Allocate `size` bytes: a slot of the smallest class that holds it,
    /// or, past the largest class, whole frames (only the first is
    /// returned; the rest are taken along). 0 for a size of zero or when a
    /// class could not grow. The caller zeroes the memory.
    pub fn kmalloc(&mut self, pmm: &mut Pmm, size: usize) -> (r: u64)
        requires
            old(self).wf(),
            old(pmm).wf(),
            old(self).can_kmalloc(*old(pmm), size as int),
        ensures
            kmalloc_effect(*old(self), *final(self), *old(pmm), *final(pmm), size as int, r),
    {
        if size == 0 {
            return 0;
        }
        match class_for(size) {
            Some(ci) => {
                proof {
                    lemma_class_of(size as int, ci as int);
                    lemma_class_sizes();
                }
                let ghost c = self.classes@[ci as int];
                let ghost classes0 = self.classes@;
                let p = self.classes[ci].alloc_slot(pmm);
                proof {
                    assert forall|k: int| 0 <= k < N_CLASSES && k != ci implies #[trigger] self.classes@[k]
                        == classes0[k] by {}
                }
                p
            },
            None => {
                let pages = round_up_pages(size);
                let ghost pmm0 = *pmm;
                proof {
                    pmm0.lemma_free_set_finite();
                }
                let p = pmm.mm_alloc_nolock();
                proof {
                    let f = pmm.frame_of(p as int);
                    assert(pmm0.free_set().contains(f));
                    vstd::set::axiom_set_remove_len(pmm0.free_set(), f);
                }
                let mut k: usize = 1;
                while k < pages
                    invariant
                        pmm.wf(),
                        1 <= k <= pages,
                        pages <= pmm0.free_set().len(),
                        pmm.base() == pmm0.base(),
                        pmm.size() == pmm0.size(),
                        pmm.free_set().len() == pmm0.free_set().len() - k,
                    decreases pages - k,
                {
                    let ghost before = *pmm;
                    proof {
                        before.lemma_free_set_finite();
                    }
                    let q = pmm.mm_alloc_nolock();
                    proof {
                        let f = pmm.frame_of(q as int);
                        assert(before.free_set().contains(f));
                        vstd::set::axiom_set_remove_len(before.free_set(), f);
                    }
                    k = k + 1;
                }
                p
            },
        }
    }

    /// Free `size` bytes at `ptr` from `kmalloc`: a slot goes back on its
    /// class's list; frames go back to the frame manager. A null `ptr` or
    /// a size of zero does nothing.
    pub fn kfree(&mut self, pmm: &mut Pmm, ptr: u64, size: usize)
        requires
            old(self).wf(),
            old(pmm).wf(),
            can_kfree(*old(self), ptr, size as int),
        ensures
            kfree_effect(*old(self), *final(self), *old(pmm), *final(pmm), ptr, size as int),
    {
        if ptr == 0 || size == 0 {
            return;
        }
        match class_for(size) {
            Some(ci) => {
                proof {
                    lemma_class_of(size as int, ci as int);
                }
                let ghost classes0 = self.classes@;
                self.classes[ci].push(ptr);
                proof {
                    assert forall|k: int| 0 <= k < N_CLASSES && k != ci implies #[trigger] self.classes@[k]
                        == classes0[k] by {}
                }
            },
            None => {
                let pages = round_up_pages(size);
                let ghost pmm0 = *pmm;
                let mut i: usize = 0;
                while i < pages
                    invariant
                        pmm.wf(),
                        i <= pages,
                        pages == (size + PAGE_SIZE - 1) / PAGE_SIZE as int,
                        ptr + pages * PAGE_SIZE <= u64::MAX,
                        pmm.base() == pmm0.base(),
                        pmm.size() == pmm0.size(),
                        forall|k: int| #[trigger] pmm.free_set().contains(k) <==> (pmm0.free_set().contains(k) || exists|j: int|
                            0 <= j < i && ptr + j * PAGE_SIZE >= pmm0.base() && #[trigger] pmm0.frame_of(ptr + j * PAGE_SIZE) == k
                                && k < pmm0.limit()),
                    decreases pages - i,
                {
                    let ghost before = *pmm;
                    proof {
                        assert(i * PAGE_SIZE < pages * PAGE_SIZE) by (nonlinear_arith)
                            requires
                                i < pages,
                        ;
                    }
                    let q = ptr + i as u64 * PAGE_SIZE as u64;
                    pmm.mm_free_phys(q);
                    proof {
                        assert forall|k: int| #[trigger] pmm.free_set().contains(k) <==> (pmm0.free_set().contains(k)
                            || exists|j: int|
                            0 <= j < i + 1 && ptr + j * PAGE_SIZE >= pmm0.base() && #[trigger] pmm0.frame_of(ptr + j * PAGE_SIZE)
                                == k && k < pmm0.limit()) by {
                            if pmm.free_set().contains(k) && !before.free_set().contains(k) {
                                assert(pmm0.frame_of(ptr + i * PAGE_SIZE) == k);
                            }
                            if exists|j: int|
                                0 <= j < i + 1 && ptr + j * PAGE_SIZE >= pmm0.base() && #[trigger] pmm0.frame_of(
                                    ptr + j * PAGE_SIZE,
                                ) == k && k < pmm0.limit() {
                                let j = choose|j: int|
                                    0 <= j < i + 1 && ptr + j * PAGE_SIZE >= pmm0.base() && #[trigger] pmm0.frame_of(
                                        ptr + j * PAGE_SIZE,
                                    ) == k && k < pmm0.limit();
                                if j < i {
                                    assert(before.free_set().contains(k));
                                } else {
                                    assert(before.returned_frame(*pmm, k));
                                }
                            }
                        }
                    }
                    i = i + 1;
                }
            },
        }
    }

    /// Resize the block at `ptr` from `old_size` to `new_size` bytes: a null
    /// `ptr` allocates; a new size of zero frees and returns null; sizes of
    /// the same class keep the block; otherwise a new block is allocated
    /// and, unless that failed, the old one freed. The caller copies the
    /// smaller of the two sizes into the new block before reusing the old.
    pub fn krealloc(&mut self, pmm: &mut Pmm, ptr: u64, old_size: usize, new_size: usize) -> (r: u64)
        requires
            old(self).wf(),
            old(pmm).wf(),
            ptr == 0 || new_size != 0 ==> old(self).can_kmalloc(*old(pmm), new_size as int),
            can_kfree(*old(self), ptr, old_size as int),
        ensures
            final(self).wf(),
            final(pmm).wf(),
            ptr == 0 ==> kmalloc_effect(*old(self), *final(self), *old(pmm), *final(pmm), new_size as int, r),
            ptr != 0 && new_size == 0 ==> r == 0 && kfree_effect(
                *old(self),
                *final(self),
                *old(pmm),
                *final(pmm),
                ptr,
                old_size as int,
            ),
            ptr != 0 && new_size != 0 && old_size <= MAX_LARGE && new_size <= MAX_LARGE && class_of(old_size as int)
                == class_of(new_size as int) ==> r == ptr && *final(self) == *old(self) && *final(pmm) == *old(pmm),
            ptr != 0 && new_size != 0 && !(old_size <= MAX_LARGE && new_size <= MAX_LARGE && class_of(old_size as int)
                == class_of(new_size as int)) ==> exists|s_mid: Slab, p_mid: Pmm|
                kmalloc_effect(*old(self), s_mid, *old(pmm), p_mid, new_size as int, r) && (r == 0 ==> *final(self)
                    == s_mid && *final(pmm) == p_mid) && (r != 0 ==> kfree_effect(
                    s_mid,
                    *final(self),
                    p_mid,
                    *final(pmm),
                    ptr,
                    old_size as int,
                )),
    {
        if ptr == 0 {
            return self.kmalloc(pmm, new_size);
        }
        if new_size == 0 {
            self.kfree(pmm, ptr, old_size);
            return 0;
        }
        let oc = class_for(old_size);
        let nc = class_for(new_size);
        proof {
            if let Some(a) = oc {
                lemma_class_of(old_size as int, a as int);
            }
            if let Some(b) = nc {
                lemma_class_of(new_size as int, b as int);
            }
        }
        if let (Some(a), Some(b)) = (oc, nc) {
            if a == b {
                return ptr;
            }
        }
        let new_ptr = self.kmalloc(pmm, new_size);
        let ghost s_mid = *self;
        let ghost p_mid = *pmm;
        if new_ptr == 0 {
            return 0;
        }
        proof {
            if 0 < old_size <= MAX_LARGE {
                let oci = class_of(old_size as int);
                if 0 < new_size <= MAX_LARGE {
                    assert(class_of(new_size as int) != oci);
                    assert(s_mid.classes@[oci] == old(self).classes@[oci]);
                }
            }
        }
        self.kfree(pmm, ptr, old_size);
        proof {
            assert(kmalloc_effect(*old(self), s_mid, *old(pmm), p_mid, new_size as int, new_ptr));
            assert(kfree_effect(s_mid, *self, p_mid, *pmm, ptr, old_size as int));
        }
        new_ptr
    }

    /// Allocate `count` elements of `elem_size` bytes (the product
    /// saturates).
    pub fn kcalloc(&mut self, pmm: &mut Pmm, count: usize, elem_size: usize) -> (r: u64)
        requires
            old(self).wf(),
            old(pmm).wf(),
            old(self).can_kmalloc(*old(pmm), sat_mul(count as int, elem_size as int)),
        ensures
            final(self).wf(),
            final(pmm).wf(),
            sat_mul(count as int, elem_size as int) == 0 ==> r == 0 && *final(self) == *old(self) && *final(pmm)
                == *old(pmm),
            kmalloc_effect(*old(self), *final(self), *old(pmm), *final(pmm), sat_mul(count as int, elem_size as int), r),
    {
        let n = match count.checked_mul(elem_size) {
            Some(v) => v,
            None => usize::MAX,
        };
        self.kmalloc(pmm, n)
    }

    /// Usage figures of class `ci`; `None` past the last class.
    pub fn slab_stats(&self, ci: usize) -> (r: Option<SlabStats>)
        requires
            self.wf(),
            ci < N_CLASSES ==> self.classes@[ci as int].alloc_count <= i64::MAX && self.classes@[ci as int].free_count
                <= i64::MAX,
        ensures
            ci >= N_CLASSES ==> r is None,
            ci < N_CLASSES ==> (r matches Some(st) && {
                let c = self.classes@[ci as int];
                &&& st.class_size == c.obj_size
                &&& st.alloc_count == c.alloc_count
                &&& st.free_count == c.free_count
                &&& st.slab_count == c.slab_count
                &&& st.live_objects == c.alloc_count - c.free_count
            }),
    {
        if ci >= N_CLASSES {
            return None;
        }
        let c = &self.classes[ci];
        Some(
            SlabStats {
                class_size: c.obj_size,
                alloc_count: c.alloc_count,
                free_count: c.free_count,
                slab_count: c.slab_count,
                live_objects: c.alloc_count as i64 - c.free_count as i64,
            },
        )
    }
}

/// `a * b`, or `usize::MAX` when that does not fit.
pub open spec fn sat_mul(a: int, b: int) -> int {
    if a * b > usize::MAX {
        usize::MAX as int
    } else {
        a * b
    }
}

/// Freeing a slot right after it was taken from a non-empty class list
/// puts every free list and the frame manager back as they were.
pub proof fn law_kfree_undoes_kmalloc(s0: Slab, s1: Slab, s2: Slab, p0: Pmm, p1: Pmm, p2: Pmm, size: int, r: u64)
    requires
        s0.wf(),
        0 < size <= MAX_LARGE,
        s0.classes@[class_of(size)].free_list@.len() > 0,
        kmalloc_effect(s0, s1, p0, p1, size, r),
        kfree_effect(s1, s2, p1, p2, r, size),
        r != 0,
    ensures
        forall|ci: int| 0 <= ci < N_CLASSES ==> #[trigger] s2.classes@[ci].free_list@ == s0.classes@[ci].free_list@,
        p2 == p0,
{
    let ci = class_of(size);
    assert(s2.classes@[ci].free_list@ =~= s0.classes@[ci].free_list@);
}

} // verus!
