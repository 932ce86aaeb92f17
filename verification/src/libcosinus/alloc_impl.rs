//! The user-space heap: size classes of 8 to 2048 bytes, each with a free
//! list of slots carved from pages the program maps; larger blocks are
//! mapped and unmapped whole. The decisions live here; the program makes
//! the mapping calls the heap asks for.
use vstd::prelude::*;

verus! {

/// Page size of the user heap.
pub const HEAP_PAGE: usize = 0x1000;

/// Number of size classes.
pub const N_CLASSES: usize = 9;

/// Largest block served from a size class.
pub const MAX_SLAB: usize = 2048;

/// Object size of class `i`: 8 bytes doubled `i` times.
pub open spec fn class_size(i: int) -> int
    decreases i,
{
    if i <= 0 {
        8
    } else {
        2 * class_size(i - 1)
    }
}

/// `2^t` for the class indices.
pub open spec fn pow2_of(t: int) -> int {
    if t == 0 {
        1
    } else if t == 1 {
        2
    } else if t == 2 {
        4
    } else if t == 3 {
        8
    } else if t == 4 {
        16
    } else if t == 5 {
        32
    } else if t == 6 {
        64
    } else if t == 7 {
        128
    } else {
        256
    }
}

proof fn lemma_class_sizes()
    ensures
        forall|t: int| 0 <= t < N_CLASSES ==> #[trigger] class_size(t) == 8 * pow2_of(t),
{
    reveal_with_fuel(class_size, 10);
    assert forall|t: int| 0 <= t < N_CLASSES implies #[trigger] class_size(t) == 8 * pow2_of(t) by {
        reveal_with_fuel(class_size, 10);
    }
}

/// The first class whose objects hold `size` bytes, or `N_CLASSES`.
pub open spec fn class_of(size: int) -> int {
    if size <= 8 {
        0
    } else if size <= 16 {
        1
    } else if size <= 32 {
        2
    } else if size <= 64 {
        3
    } else if size <= 128 {
        4
    } else if size <= 256 {
        5
    } else if size <= 512 {
        6
    } else if size <= 1024 {
        7
    } else if size <= 2048 {
        8
    } else {
        9
    }
}

/// The size a request is served by: the larger of size and alignment.
pub open spec fn effective(size: usize, align: usize) -> int {
    if size > align {
        size as int
    } else {
        align as int
    }
}

/// Whole pages holding `n` bytes.
pub open spec fn pages_for(n: int) -> int {
    (n + HEAP_PAGE - 1) / (HEAP_PAGE as int)
}

/// The slots a fresh page of class `i` adds to its free list, in the order
/// they are pushed: the highest first, so the page's first slot is handed
/// out next.
pub open spec fn page_slots(page: u64, obj: int) -> Seq<u64> {
    Seq::new((HEAP_PAGE as int / obj) as nat, |k: int| (page + (HEAP_PAGE as int / obj - 1 - k) * obj) as u64)
}

/// What an allocation asks of the program.
#[derive(Copy, Clone, PartialEq, Eq, Structural, Debug)]
pub enum HeapAlloc {
    /// A null pointer: nothing was asked for.
    Null,
    /// The block at this address.
    Slot(u64),
    /// Class `class` has no free slot: map a page, hand it to `grow` (a
    /// failed mapping means a null pointer), and allocate again.
    NeedPage { class: usize },
    /// Map `bytes` bytes directly and use them as the block.
    MapPages { bytes: usize },
}

/// What a release asks of the program.
#[derive(Copy, Clone, PartialEq, Eq, Structural, Debug)]
pub enum HeapFree {
    /// Nothing to do.
    Done,
    /// Unmap `bytes` bytes at the block.
    Unmap { bytes: usize },
}

/// The free slots of the size classes.
pub struct UserHeap {
    free: Vec<Vec<u64>>,
}

impl UserHeap {
    /// The free list of class `i`; the slot handed out next is the last.
    pub closed spec fn free_list(&self, i: int) -> Seq<u64> {
        self.free@[i]@
    }

    pub closed spec fn wf(&self) -> bool {
        self.free@.len() == N_CLASSES
    }

    /// A heap with no free slots.
    pub fn new() -> (r: Self)
        ensures
            r.wf(),
            forall|i: int| 0 <= i < N_CLASSES ==> #[trigger] r.free_list(i) == Seq::<u64>::empty(),
    {
        let mut free: Vec<Vec<u64>> = Vec::new();
        let mut i: usize = 0;
        while i < N_CLASSES
            invariant
                i <= N_CLASSES,
                free@.len() == i,
                forall|k: int| 0 <= k < i ==> (#[trigger] free@[k])@ == Seq::<u64>::empty(),
            decreases N_CLASSES - i,
        {
            free.push(Vec::new());
            i = i + 1;
        }
        UserHeap { free }
    }

    /// The class a block of `size` bytes comes from, if any: the first
    /// whose objects hold it.
    pub fn class_for(size: usize) -> (r: Option<usize>)
        ensures
            class_of(size as int) < N_CLASSES ==> r == Some(class_of(size as int) as usize),
            class_of(size as int) == N_CLASSES ==> r is None,
    {
        if size <= 8 {
            Some(0)
        } else if size <= 16 {
            Some(1)
        } else if size <= 32 {
            Some(2)
        } else if size <= 64 {
            Some(3)
        } else if size <= 128 {
            Some(4)
        } else if size <= 256 {
            Some(5)
        } else if size <= 512 {
            Some(6)
        } else if size <= 1024 {
            Some(7)
        } else if size <= 2048 {
            Some(8)
        } else {
            None
        }
    }

    /// Object size of class `i`.
    pub fn object_size(i: usize) -> (r: usize)
        requires
            i < N_CLASSES,
        ensures
            r == class_size(i as int),
            8 <= r <= MAX_SLAB,
    {
        proof {
            lemma_class_sizes();
        }
        let mut c: usize = 8;
        let mut k: usize = 0;
        while k < i
            invariant
                k <= i < N_CLASSES,
                c == class_size(k as int),
                8 <= c <= MAX_SLAB,
                forall|t: int| 0 <= t < N_CLASSES ==> #[trigger] class_size(t) == 8 * pow2_of(t),
            decreases i - k,
        {
            proof {
                lemma_class_sizes();
            }
            c = c * 2;
            k = k + 1;
        }
        c
    }

    /// Allocate `size` bytes aligned to `align`: a null pointer for zero
    /// bytes; a slot of the first class that holds the larger of the two,
    /// the one pushed last, or a page to be mapped for the class; beyond
    /// the classes, whole pages mapped for the block.
    pub fn alloc_block(&mut self, size: usize, align: usize) -> (r: HeapAlloc)
        requires
            old(self).wf(),
            effective(size, align) + HEAP_PAGE <= usize::MAX,
        ensures
            final(self).wf(),
            ({
                let n = effective(size, align);
                let c = class_of(n);
                if n == 0 {
                    r == HeapAlloc::Null && *final(self) == *old(self)
                } else if c < N_CLASSES {
                    if old(self).free_list(c).len() == 0 {
                        r == (HeapAlloc::NeedPage { class: c as usize }) && *final(self) == *old(self)
                    } else {
                        &&& r == HeapAlloc::Slot(old(self).free_list(c).last())
                        &&& final(self).free_list(c) == old(self).free_list(c).drop_last()
                        &&& forall|i: int| 0 <= i < N_CLASSES && i != c ==> #[trigger] final(self).free_list(i) == old(
                            self,
                        ).free_list(i)
                    }
                } else {
                    r == (HeapAlloc::MapPages { bytes: (pages_for(n) * HEAP_PAGE) as usize }) && *final(self) == *old(self)
                }
            }),
    {
        let n = if size > align { size } else { align };
        if n == 0 {
            return HeapAlloc::Null;
        }
        match Self::class_for(n) {
            Some(ci) => {
                if self.free[ci].len() == 0 {
                    return HeapAlloc::NeedPage { class: ci };
                }
                let ghost before = self.free@;
                let mut list = self.free.remove(ci);
                let slot = list.pop().unwrap();
                self.free.insert(ci, list);
                assert(self.free@ =~= before.update(ci as int, list));
                proof {
                    assert forall|i: int| 0 <= i < N_CLASSES && i != ci implies #[trigger] self.free_list(i) == before[i]@ by {}
                }
                HeapAlloc::Slot(slot)
            },
            None => {
                let pages = (n + HEAP_PAGE - 1) / HEAP_PAGE;
                proof {
                    assert(pages * HEAP_PAGE <= n + HEAP_PAGE) by (nonlinear_arith)
                        requires
                            pages == (n + HEAP_PAGE - 1) / (HEAP_PAGE as int),
                            HEAP_PAGE == 4096,
                    ;
                }
                HeapAlloc::MapPages { bytes: pages * HEAP_PAGE }
            },
        }
    }

    /// Carve the freshly mapped page at `page` into slots of class `i`,
    /// pushed from the highest down.
    pub fn grow(&mut self, i: usize, page: u64)
        requires
            old(self).wf(),
            i < N_CLASSES,
            page + HEAP_PAGE <= u64::MAX,
        ensures
            final(self).wf(),
            final(self).free_list(i as int) == old(self).free_list(i as int) + page_slots(page, class_size(i as int)),
            forall|k: int| 0 <= k < N_CLASSES && k != i ==> #[trigger] final(self).free_list(k) == old(self).free_list(k),
    {
        let obj = Self::object_size(i);
        let slots = HEAP_PAGE / obj;
        let ghost before = self.free@;
        let ghost added = page_slots(page, obj as int);
        let mut list = self.free.remove(i);
        let mut j: usize = slots;
        while j > 0
            invariant
                j <= slots,
                slots == HEAP_PAGE / obj,
                obj == class_size(i as int),
                8 <= obj <= 2048,
                page + HEAP_PAGE <= u64::MAX,
                added == page_slots(page, obj as int),
                list@ == before[i as int]@ + added.take((slots - j) as int),
            decreases j,
        {
            j = j - 1;
            proof {
                assert(j * obj < HEAP_PAGE) by (nonlinear_arith)
                    requires
                        j < slots,
                        slots == HEAP_PAGE / obj,
                        obj > 0,
                        HEAP_PAGE == 4096,
                ;
            }
            let a = page + (j * obj) as u64;
            list.push(a);
            proof {
                assert(added[(slots - 1 - j) as int] == a);
                assert(list@ =~= before[i as int]@ + added.take((slots - j) as int));
            }
        }
        self.free.insert(i, list);
        assert(self.free@ =~= before.update(i as int, list));
        proof {
            assert(added.take(slots as int) =~= added);
            assert forall|k: int| 0 <= k < N_CLASSES && k != i implies #[trigger] self.free_list(k) == before[k]@ by {}
        }
    }

    /// Release the block at `ptr` allocated for `size` bytes aligned to
    /// `align`: a class block goes back on its free list; a larger one is
    /// unmapped whole; a null pointer is ignored.
    pub fn dealloc(&mut self, ptr: u64, size: usize, align: usize) -> (r: HeapFree)
        requires
            old(self).wf(),
            effective(size, align) + HEAP_PAGE <= usize::MAX,
        ensures
            final(self).wf(),
            ({
                let n = effective(size, align);
                let c = class_of(n);
                if ptr == 0 {
                    r == HeapFree::Done && *final(self) == *old(self)
                } else if c < N_CLASSES {
                    &&& r == HeapFree::Done
                    &&& final(self).free_list(c) == old(self).free_list(c).push(ptr)
                    &&& forall|i: int| 0 <= i < N_CLASSES && i != c ==> #[trigger] final(self).free_list(i) == old(
                        self,
                    ).free_list(i)
                } else {
                    r == (HeapFree::Unmap { bytes: (pages_for(n) * HEAP_PAGE) as usize }) && *final(self) == *old(self)
                }
            }),
    {
        if ptr == 0 {
            return HeapFree::Done;
        }
        let n = if size > align { size } else { align };
        match Self::class_for(n) {
            Some(ci) => {
                let ghost before = self.free@;
                let mut list = self.free.remove(ci);
                list.push(ptr);
                self.free.insert(ci, list);
                assert(self.free@ =~= before.update(ci as int, list));
                proof {
                    assert forall|i: int| 0 <= i < N_CLASSES && i != ci implies #[trigger] self.free_list(i) == before[i]@ by {}
                }
                HeapFree::Done
            },
            None => {
                let pages = (n + HEAP_PAGE - 1) / HEAP_PAGE;
                proof {
                    assert(pages * HEAP_PAGE <= n + HEAP_PAGE) by (nonlinear_arith)
                        requires
                            pages == (n + HEAP_PAGE - 1) / (HEAP_PAGE as int),
                            HEAP_PAGE == 4096,
                    ;
                }
                HeapFree::Unmap { bytes: pages * HEAP_PAGE }
            },
        }
    }
}

/// Law: releasing a block just allocated from a class makes the next
/// allocation of the same size hand out the same block, the heap as it was.
pub proof fn law_free_then_alloc_same(h0: UserHeap, h1: UserHeap, h2: UserHeap, size: usize, align: usize, a: u64)
    requires
        h0.wf(),
        h1.wf(),
        h2.wf(),
        a != 0,
        class_of(effective(size, align)) < N_CLASSES,
        effective(size, align) > 0,
        h1.free_list(class_of(effective(size, align))) == h0.free_list(class_of(effective(size, align))).push(a),
        forall|i: int| 0 <= i < N_CLASSES && i != class_of(effective(size, align)) ==> #[trigger] h1.free_list(i) == h0.free_list(i),
        h2.free_list(class_of(effective(size, align))) == h1.free_list(class_of(effective(size, align))).drop_last(),
        forall|i: int| 0 <= i < N_CLASSES && i != class_of(effective(size, align)) ==> #[trigger] h2.free_list(i) == h1.free_list(i),
    ensures
        h1.free_list(class_of(effective(size, align))).last() == a,
        forall|i: int| 0 <= i < N_CLASSES ==> #[trigger] h2.free_list(i) == h0.free_list(i),
{
    let c = class_of(effective(size, align));
    assert(h0.free_list(c).push(a).drop_last() =~= h0.free_list(c));
}

} // verus!
