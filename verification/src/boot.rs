//! The standalone boot kernel: its frame allocator (a bitmap whose first
//! 256 frames are kept back and whose search starts at a hint word), the
//! user-pointer checks over its page tables, its thread table with
//! round-robin scheduling, and its three system calls.
use vstd::prelude::*;
use crate::allocator::buddy::{lemma_bit_or, lemma_bit_clear, lemma_bit_test};
use crate::mm::{PhysAddr, PAGE_SIZE};
use crate::mm::pmm::{bit_set, lemma_full_word, zero_words, BM_WORDS, MAX_FRAMES};
use crate::vmm::{PTE_P, PTE_U, PTE_ADDR};
use crate::vmm::tables::{TableMem, ent, present, user, addr, idx4, idx3, idx2, idx1, buf_page, buf_pages, i4, i3, i2, i1};

verus! {

/// Frames below this many are never handed out after start-up.
pub const RESERVED_FRAMES: usize = 256;

/// Every frame from `lo` up to `hi` is in use.
pub open spec fn all_used(bm: Seq<u64>, lo: int, hi: int) -> bool {
    forall|j: int| lo <= j < hi ==> #[trigger] bit_set(bm, j)
}

/// The frame the allocator takes: the first free one from the hint word
/// on, else the first free one before it.
pub open spec fn next_frame(bm: Seq<u64>, hint: int, idx: int) -> bool {
    &&& 0 <= idx < MAX_FRAMES
    &&& !bit_set(bm, idx)
    &&& if idx >= 64 * hint {
        all_used(bm, 64 * hint, idx)
    } else {
        all_used(bm, 64 * hint, MAX_FRAMES as int) && all_used(bm, 0, idx)
    }
}

/// The boot kernel's frame allocator.
pub struct BootFrames {
    bm: Vec<u64>,
    base: PhysAddr,
    size: usize,
    hint: usize,
}

impl BootFrames {
    pub closed spec fn wf(&self) -> bool {
        &&& self.bm@.len() == BM_WORDS
        &&& self.hint < BM_WORDS
    }

    /// Frame `i` is in use.
    pub closed spec fn used(&self, i: int) -> bool {
        bit_set(self.bm@, i)
    }

    /// The bitmap, word by word.
    pub closed spec fn words(&self) -> Seq<u64> {
        self.bm@
    }

    pub closed spec fn base(&self) -> int {
        self.base as int
    }

    pub closed spec fn size(&self) -> int {
        self.size as int
    }

    /// Word where the next search starts.
    pub closed spec fn hint(&self) -> int {
        self.hint as int
    }

    /// Physical address of frame `i`.
    pub open spec fn addr_of(&self, i: int) -> int {
        self.base() + i * PAGE_SIZE
    }

    /// No memory, every frame free, the search at word 0.
    pub fn new() -> (r: Self)
        ensures
            r.wf(),
            r.base() == 0 && r.size() == 0 && r.hint() == 0,
            forall|i: int| !#[trigger] r.used(i),
    {
        BootFrames { bm: zero_words(), base: 0, size: 0, hint: 0 }
    }

    fn set_used(&mut self, i: usize)
        requires
            old(self).wf(),
            i < MAX_FRAMES,
        ensures
            final(self).wf(),
            forall|j: int| #[trigger] final(self).used(j) == (old(self).used(j) || j == i),
            final(self).base == old(self).base && final(self).size == old(self).size && final(self).hint == old(
                self,
            ).hint,
    {
        let w = i / 64;
        let b = (i % 64) as u64;
        let ghost pre = self.bm@;
        let v = self.bm[w] | (1u64 << b);
        self.bm.set(w, v);
        proof {
            assert forall|j: int| #[trigger] bit_set(self.bm@, j) == (bit_set(pre, j) || j == i) by {
                if 0 <= j < 64 * BM_WORDS {
                    lemma_bit_or(pre[w as int], b, (j % 64) as u64);
                }
            }
        }
    }

    /// Frame `i` is free again; the search moves back to its word when that
    /// is lower.
    fn set_free(&mut self, i: usize)
        requires
            old(self).wf(),
            i < MAX_FRAMES,
        ensures
            final(self).wf(),
            forall|j: int| #[trigger] final(self).used(j) == (old(self).used(j) && j != i),
            final(self).hint == if i / 64 < old(self).hint { i / 64 } else { old(self).hint },
            final(self).base == old(self).base && final(self).size == old(self).size,
    {
        let w = i / 64;
        let b = (i % 64) as u64;
        let ghost pre = self.bm@;
        let v = self.bm[w] & !(1u64 << b);
        self.bm.set(w, v);
        proof {
            assert forall|j: int| #[trigger] bit_set(self.bm@, j) == (bit_set(pre, j) && j != i) by {
                if 0 <= j < 64 * BM_WORDS {
                    lemma_bit_clear(pre[w as int], b, (j % 64) as u64);
                }
            }
        }
        if w < self.hint {
            self.hint = w;
        }
    }

    fn is_free(&self, i: usize) -> (r: bool)
        requires
            self.wf(),
            i < MAX_FRAMES,
        ensures
            r == !self.used(i as int),
    {
        proof {
            lemma_bit_test(self.bm@[i as int / 64], (i % 64) as u64);
        }
        (self.bm[i / 64] & (1u64 << (i % 64) as u64)) == 0
    }

    /// Take over `size` bytes of memory at `base`: every frame free but the
    /// first 256 (or all, for less memory), the search at word 4. Returns
    /// the MiB available, for the start-up message.
    pub fn mm_init(&mut self, base: PhysAddr, size: usize) -> (mib: usize)
        ensures
            final(self).wf(),
            final(self).base() == base && final(self).size() == size,
            final(self).hint() == 4,
            forall|j: int| #[trigger] final(self).used(j) == (0 <= j < RESERVED_FRAMES && j < (size / PAGE_SIZE) as int),
            mib == size / PAGE_SIZE * PAGE_SIZE / 1024 / 1024,
    {
        self.bm = zero_words();
        self.base = base;
        self.size = size;
        self.hint = 4;
        let frames = size / PAGE_SIZE;
        let n = if frames < RESERVED_FRAMES { frames } else { RESERVED_FRAMES };
        let mut i: usize = 0;
        while i < n
            invariant
                self.wf(),
                i <= n,
                n <= RESERVED_FRAMES,
                n == if frames < RESERVED_FRAMES { frames } else { RESERVED_FRAMES },
                frames == size / PAGE_SIZE,
                self.base == base && self.size == size && self.hint == 4,
                forall|j: int| #[trigger] self.used(j) == (0 <= j < i),
            decreases n - i,
        {
            self.set_used(i);
            i = i + 1;
        }
        proof {
            assert forall|j: int| #[trigger] self.used(j) == (0 <= j < RESERVED_FRAMES && j < (size / PAGE_SIZE) as int) by {
                assert(self.used(j) == (0 <= j < n));
            }
        }
        frames * PAGE_SIZE / 1024 / 1024
    }

    /// First free frame among words `lo` to `hi`, if any.
    fn scan(&self, lo: usize, hi: usize) -> (r: Option<usize>)
        requires
            self.wf(),
            lo <= hi <= BM_WORDS,
        ensures
            r matches Some(idx) ==> 64 * lo <= idx < 64 * hi && !self.used(idx as int) && all_used(
                self.words(),
                64 * lo,
                idx as int,
            ),
            r is None ==> all_used(self.words(), 64 * lo, 64 * hi),
    {
        let mut w = lo;
        while w < hi
            invariant
                self.wf(),
                lo <= w <= hi <= BM_WORDS,
                all_used(self.bm@, 64 * lo, 64 * w),
            decreases hi - w,
        {
            if self.bm[w] == !0u64 {
                proof {
                    assert forall|j: int| 64 * lo <= j < 64 * (w + 1) implies #[trigger] bit_set(self.bm@, j) by {
                        if j >= 64 * w {
                            lemma_full_word((j % 64) as u64);
                        }
                    }
                }
                w = w + 1;
                continue;
            }
            let mut bit: usize = 0;
            while bit < 64
                invariant
                    self.wf(),
                    lo <= w < hi <= BM_WORDS,
                    bit <= 64,
                    all_used(self.bm@, 64 * lo, 64 * w + bit),
                decreases 64 - bit,
            {
                let idx = w * 64 + bit;
                if self.is_free(idx) {
                    return Some(idx);
                }
                bit = bit + 1;
            }
            w = w + 1;
        }
        None
    }

    /// Take a frame: the first free one from the hint word on, else the
    /// first free one before it; the search then starts at its word.
    /// Memory must not be exhausted (the kernel panics then).
    pub fn mm_alloc_frame(&mut self) -> (r: PhysAddr)
        requires
            old(self).wf(),
            exists|i: int| 0 <= i < MAX_FRAMES && !old(self).used(i),
            old(self).base() + MAX_FRAMES * PAGE_SIZE <= u64::MAX,
        ensures
            final(self).wf(),
            ({
                let idx = (r - old(self).base()) / PAGE_SIZE as int;
                &&& r == old(self).addr_of(idx)
                &&& next_frame(old(self).words(), old(self).hint(), idx)
                &&& forall|j: int| #[trigger] final(self).used(j) == (old(self).used(j) || j == idx)
                &&& final(self).hint() == idx / 64
            }),
            final(self).base() == old(self).base() && final(self).size() == old(self).size(),
    {
        let first = self.scan(self.hint, BM_WORDS);
        let found = match first {
            Some(i) => i,
            None => {
                let second = self.scan(0, self.hint);
                match second {
                    Some(i) => i,
                    None => {
                        proof {
                            let i = choose|i: int| 0 <= i < MAX_FRAMES && !self.used(i);
                            if i < 64 * self.hint {
                                assert(bit_set(self.bm@, i));
                            } else {
                                assert(bit_set(self.bm@, i));
                            }
                        }
                        0
                    },
                }
            },
        };
        assert(next_frame(self.bm@, self.hint as int, found as int));
        let ghost pre = *self;
        self.hint = found / 64;
        self.set_used(found);
        let r = self.base + (found as u64) * (PAGE_SIZE as u64);
        proof {
            assert(r - pre.base() == found * PAGE_SIZE);
            assert(forall|j: int| #[trigger] self.used(j) == (pre.used(j) || j == found));
            assert(self.hint() == found / 64);
            assert(found * PAGE_SIZE <= MAX_FRAMES * PAGE_SIZE) by (nonlinear_arith)
                requires
                    found < MAX_FRAMES,
            ;
            assert((found * PAGE_SIZE) / PAGE_SIZE as int == found) by (nonlinear_arith);
            assert(pre.addr_of(found as int) == pre.base + found * PAGE_SIZE);
            assert((r - pre.base()) / PAGE_SIZE as int == found);
            assert(next_frame(pre.words(), pre.hint(), found as int));
        }
        r
    }

    /// Give back the frame at `phys`; addresses below the base or past the
    /// frames the bitmap tracks are ignored.
    pub fn mm_free_frame(&mut self, phys: PhysAddr)
        requires
            old(self).wf(),
        ensures
            final(self).wf(),
            final(self).base() == old(self).base() && final(self).size() == old(self).size(),
            phys < old(self).base() || (phys - old(self).base()) / PAGE_SIZE as int >= MAX_FRAMES ==> *final(self)
                == *old(self),
            phys >= old(self).base() && ((phys - old(self).base()) / PAGE_SIZE as int) < MAX_FRAMES ==> {
                let i = (phys - old(self).base()) / PAGE_SIZE as int;
                &&& forall|j: int| #[trigger] final(self).used(j) == (old(self).used(j) && j != i)
                &&& final(self).hint() == if i / 64 < old(self).hint() { i / 64 } else { old(self).hint() }
            },
    {
        if phys < self.base {
            return;
        }
        let idx = (phys - self.base) / (PAGE_SIZE as u64);
        if idx >= MAX_FRAMES as u64 {
            return;
        }
        self.set_free(idx as usize);
    }
}

/// Whether user code may touch `v` under `p4` as the boot kernel checks
/// it: every entry of the four-level walk is present and user-accessible
/// (a size bit is not looked at).
pub open spec fn boot_user_ok(m: Map<u64, Seq<u64>>, p4: u64, v: u64) -> bool {
    let e4 = ent(m, p4, idx4(v));
    let e3 = ent(m, addr(e4), idx3(v));
    let e2 = ent(m, addr(e3), idx2(v));
    let e1 = ent(m, addr(e2), idx1(v));
    p4 != 0 && present(e4) && user(e4) && present(e3) && user(e3) && present(e2) && user(e2) && present(e1) && user(e1)
}

/// Whether user code may touch the page of `v` under `p4`.
pub fn is_user_page_valid(t: &TableMem, p4: PhysAddr, v: u64) -> (r: bool)
    requires
        t.wf(),
    ensures
        r == boot_user_ok(t@, p4, v),
{
    if p4 == 0 {
        return false;
    }
    let e4 = t.entry(p4, i4(v));
    if e4 & PTE_P == 0 || e4 & PTE_U == 0 {
        return false;
    }
    let e3 = t.entry(e4 & PTE_ADDR, i3(v));
    if e3 & PTE_P == 0 || e3 & PTE_U == 0 {
        return false;
    }
    let e2 = t.entry(e3 & PTE_ADDR, i2(v));
    if e2 & PTE_P == 0 || e2 & PTE_U == 0 {
        return false;
    }
    let e1 = t.entry(e2 & PTE_ADDR, i1(v));
    e1 & PTE_P != 0 && e1 & PTE_U != 0
}

/// Whether user code may touch every page of the `len` bytes at `ptr`; an
/// empty buffer always passes.
pub fn validate_user_buf(t: &TableMem, p4: PhysAddr, ptr: u64, len: usize) -> (r: bool)
    requires
        t.wf(),
        ptr + len <= 0xFFFF_FFFF_FFFF_F000u64,
    ensures
        r == (len == 0 || forall|k: int|
            0 <= k < buf_pages(ptr, len as u64) ==> #[trigger] boot_user_ok(t@, p4, buf_page(ptr, k))),
{
    if len == 0 {
        return true;
    }
    let first = ptr - ptr % (PAGE_SIZE as u64);
    let end = ptr + len as u64;
    let mut page = first;
    let ghost n = buf_pages(ptr, len as u64);
    proof {
        assert(first as int % PAGE_SIZE as int == 0);
    }
    while page < end
        invariant
            t.wf(),
            len > 0,
            first == ptr - ptr as int % PAGE_SIZE as int,
            end == ptr + len,
            end <= 0xFFFF_FFFF_FFFF_F000u64,
            first <= page,
            page <= end + PAGE_SIZE,
            (page - first) % PAGE_SIZE as int == 0,
            n == buf_pages(ptr, len as u64),
            n == (end - first + PAGE_SIZE - 1) / PAGE_SIZE as int,
            forall|k: int|
                0 <= k < (page - first) / PAGE_SIZE as int ==> #[trigger] boot_user_ok(t@, p4, buf_page(ptr, k)),
        decreases end + PAGE_SIZE - page,
    {
        if !is_user_page_valid(t, p4, page) {
            proof {
                let k = (page - first) / PAGE_SIZE as int;
                assert(first + k * PAGE_SIZE == page);
                assert(buf_page(ptr, k) == page);
                assert(k < n);
            }
            return false;
        }
        let ghost k0 = (page - first) / PAGE_SIZE as int;
        page = page + PAGE_SIZE as u64;
        proof {
            assert((page - first) / PAGE_SIZE as int == k0 + 1);
            assert(first + k0 * PAGE_SIZE == page - PAGE_SIZE);
            assert(buf_page(ptr, k0) == page - PAGE_SIZE);
        }
    }
    proof {
        assert((page - first) / PAGE_SIZE as int >= n);
    }
    true
}

} // verus!
