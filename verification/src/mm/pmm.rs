//! Physical memory manager: one bit per 4 KiB frame (set = in use), a hint
//! word where the next search starts, a count of free frames, and the
//! reference count of every frame for copy-on-write sharing.
use vstd::prelude::*;
use vstd::set_lib::{set_int_range, lemma_int_range, lemma_len_subset};
use crate::allocator::buddy::{lemma_bit_or, lemma_bit_clear, lemma_bit_test};
use crate::mm::{PhysAddr, PAGE_SIZE};

verus! {

/// Size of a huge page: 512 frames.
pub const HUGE_SIZE: usize = 0x20_0000;

/// Frames the bitmap can track (256 MiB).
pub const MAX_FRAMES: usize = 0x10000;

/// Words of the frame bitmap (`MAX_FRAMES / 64`).
pub const BM_WORDS: usize = 1024;

/// Frame `i` is marked in use in the bitmap.
pub open spec fn bit_set(bm: Seq<u64>, i: int) -> bool {
    0 <= i < 64 * bm.len() && (bm[i / 64] >> ((i % 64) as u64)) & 1u64 == 1u64
}

/// Frames below `limit` that the bitmap marks free.
pub open spec fn free_frames_in(bm: Seq<u64>, limit: int) -> Set<int> {
    Set::new(|i: int| 0 <= i < limit && !bit_set(bm, i))
}

/// A reference count one higher, staying at the maximum.
pub open spec fn inc_count(c: u16) -> u16 {
    if c == u16::MAX {
        u16::MAX
    } else {
        (c + 1) as u16
    }
}

/// A reference count one lower, wrapping from 0 to the maximum.
pub open spec fn dec_count(c: u16) -> u16 {
    if c == 0 {
        u16::MAX
    } else {
        (c - 1) as u16
    }
}

pub open spec fn min_int(a: int, b: int) -> int {
    if a < b {
        a
    } else {
        b
    }
}

pub(crate) proof fn lemma_full_word(c: u64)
    requires
        c < 64,
    ensures
        (!0u64 >> c) & 1u64 == 1u64,
        (0u64 >> c) & 1u64 == 0u64,
{
    assert((!0u64 >> c) & 1u64 == 1u64 && (0u64 >> c) & 1u64 == 0u64) by (bit_vector)
        requires
            c < 64,
    ;
}

/// The physical memory manager.
pub struct Pmm {
    mem_base: PhysAddr,
    mem_size: usize,
    frame_bm: Vec<u64>,
    hint: usize,
    free_frames: usize,
    refs: Vec<u16>,
}

/// `q` is `p` after one owner of the frame at `phys` went away, as
/// `frame_dec` does it.
pub open spec fn dec_step(p: Pmm, q: Pmm, phys: u64) -> bool {
    let i = p.frame_of(phys as int);
    let c = p.refcount(i);
    &&& q.wf()
    &&& q.base() == p.base()
    &&& q.size() == p.size()
    &&& i >= MAX_FRAMES || c == u16::MAX ==> q == p
    &&& i < MAX_FRAMES && c != u16::MAX ==> {
        &&& forall|k: int| 0 <= k < MAX_FRAMES ==> #[trigger] q.refcount(k) == if k == i {
            dec_count(c)
        } else {
            p.refcount(k)
        }
        &&& c != 1 ==> q.free_set() == p.free_set() && q.free_count() == p.free_count()
        &&& c == 1 && i < p.limit() ==> q.free_set() == p.free_set().insert(i)
        &&& c == 1 && i >= p.limit() ==> q.free_set() == p.free_set()
    }
}

impl Pmm {
    /// Physical address of frame 0.
    pub closed spec fn base(&self) -> int {
        self.mem_base as int
    }

    /// Bytes of memory handed to `mm_init`.
    pub closed spec fn size(&self) -> int {
        self.mem_size as int
    }

    /// Frames in that memory.
    pub open spec fn total(&self) -> int {
        self.size() / PAGE_SIZE as int
    }

    /// Frames that can be handed out: the memory's, at most `MAX_FRAMES`.
    pub open spec fn limit(&self) -> int {
        min_int(self.total(), MAX_FRAMES as int)
    }

    /// Frame `i` is marked in use.
    pub closed spec fn used(&self, i: int) -> bool {
        bit_set(self.frame_bm@, i)
    }

    /// The frames that can be handed out and are free.
    pub closed spec fn free_set(&self) -> Set<int> {
        free_frames_in(self.frame_bm@, self.limit())
    }

    /// The free-frame counter.
    pub closed spec fn free_count(&self) -> int {
        self.free_frames as int
    }

    /// Bitmap word where the next search starts.
    pub closed spec fn hint_word(&self) -> int {
        self.hint as int
    }

    /// Reference count of frame `i`.
    pub closed spec fn refcount(&self, i: int) -> u16 {
        self.refs@[i]
    }

    /// Frame index of physical address `p` (as `fi` computes it).
    pub open spec fn frame_of(&self, p: int) -> int {
        ((p - self.base()) / PAGE_SIZE as int) as usize as int
    }

    /// Everything but the reference counts is the same in `self` and `other`.
    pub closed spec fn same_frames(&self, other: Self) -> bool {
        &&& self.mem_base == other.mem_base
        &&& self.mem_size == other.mem_size
        &&& self.frame_bm == other.frame_bm
        &&& self.hint == other.hint
        &&& self.free_frames == other.free_frames
    }

    /// Frame `i` was free in `self` and is handed out in `next` with a
    /// reference count of 1.
    pub open spec fn took_frame(self, next: Self, i: int) -> bool {
        &&& next.base() == self.base()
        &&& next.size() == self.size()
        &&& self.free_set().contains(i)
        &&& next.free_set() == self.free_set().remove(i)
        &&& next.free_count() == self.free_count() - 1
        &&& next.refcount(i) == 1
    }

    /// Frame `i` is free again in `next`; the counter rose if it was in use.
    pub open spec fn returned_frame(self, next: Self, i: int) -> bool {
        &&& next.base() == self.base()
        &&& next.size() == self.size()
        &&& next.free_set() == self.free_set().insert(i)
        &&& next.free_count() == self.free_count() + (if self.used(i) { 1int } else { 0int })
    }

    /// Physical address of frame `i`.
    pub open spec fn addr_of(&self, i: int) -> int {
        self.base() + i * PAGE_SIZE
    }

    /// Well-formedness: the tables have their sizes, every frame that can
    /// be handed out has an address, and the counter holds the free frames
    /// plus the frames past `MAX_FRAMES`, which are never handed out.
    pub closed spec fn wf(&self) -> bool {
        &&& self.frame_bm@.len() == BM_WORDS
        &&& self.refs@.len() == MAX_FRAMES
        &&& self.hint <= BM_WORDS
        &&& self.mem_base + PAGE_SIZE * self.limit() <= u64::MAX
        &&& self.free_frames == self.free_set().len() + (self.total() - self.limit())
    }

    pub(crate) proof fn lemma_free_set_finite(&self)
        ensures
            self.free_set().finite(),
            self.free_set().len() <= self.limit(),
            self.limit() <= MAX_FRAMES,
            self.limit() <= self.total(),
    {
        if self.limit() >= 0 {
            lemma_int_range(0, self.limit());
            assert(self.free_set().subset_of(set_int_range(0, self.limit())));
            lemma_len_subset(self.free_set(), set_int_range(0, self.limit()));
        } else {
            assert(self.free_set() =~= Set::empty());
        }
    }

    /// A free frame is one that can be handed out and is not in use.
    pub proof fn lemma_free_frame(&self, i: int)
        requires
            self.free_set().contains(i),
        ensures
            0 <= i < self.limit(),
            !self.used(i),
    {
    }

    /// Managers that differ only in reference counts hand out the same
    /// frames at the same addresses.
    pub proof fn lemma_same_frames(&self, other: Self)
        requires
            self.same_frames(other),
        ensures
            self.free_set() == other.free_set(),
            self.base() == other.base(),
            self.size() == other.size(),
    {
    }

    /// Every frame that can be handed out has an address that fits in 64 bits.
    pub proof fn lemma_addr_fits(&self)
        requires
            self.wf(),
        ensures
            self.base() >= 0,
            self.addr_of(self.limit()) <= u64::MAX,
    {
        assert(PAGE_SIZE * self.limit() == self.limit() * PAGE_SIZE) by (nonlinear_arith);
    }

    /// An empty manager with no memory.
    pub fn new() -> (r: Self)
        ensures
            r.wf(),
            r.size() == 0,
            r.free_set() == Set::<int>::empty(),
            r.free_count() == 0,
    {
        let r = Pmm { mem_base: 0, mem_size: 0, frame_bm: zero_words(), hint: 0, free_frames: 0, refs: zero_refs() };
        proof {
            assert(r.free_set() =~= Set::<int>::empty());
        }
        r
    }

    /// Frame index of `p`.
    fn fi(&self, p: PhysAddr) -> (r: usize)
        requires
            self.mem_base <= p,
        ensures
            r == self.frame_of(p as int),
    {
        ((p - self.mem_base) / PAGE_SIZE as u64) as usize
    }

    /// Physical address of frame `i`.
    fn fp(&self, i: usize) -> (r: PhysAddr)
        requires
            self.wf(),
            i < self.limit(),
        ensures
            r == self.addr_of(i as int),
    {
        self.mem_base + i as u64 * PAGE_SIZE as u64
    }

    fn is_free(&self, i: usize) -> (r: bool)
        requires
            self.wf(),
            i < MAX_FRAMES,
        ensures
            r == !self.used(i as int),
    {
        proof {
            lemma_bit_test(self.frame_bm@[i as int / 64], (i % 64) as u64);
        }
        (self.frame_bm[i / 64] & (1u64 << (i % 64) as u64)) == 0
    }

    /// Mark frame `i` in use; the counter drops when it was free.
    fn mark_used(&mut self, i: usize)
        requires
            old(self).wf(),
            i < old(self).limit(),
        ensures
            final(self).wf(),
            forall|j: int| #[trigger] final(self).used(j) == (old(self).used(j) || j == i),
            final(self).free_set() == old(self).free_set().remove(i as int),
            final(self).free_frames == old(self).free_frames - (if old(self).used(i as int) { 0int } else { 1int }),
            final(self).mem_base == old(self).mem_base,
            final(self).mem_size == old(self).mem_size,
            final(self).hint == old(self).hint,
            final(self).refs == old(self).refs,
    {
        let ghost pre = *self;
        proof {
            pre.lemma_free_set_finite();
        }
        if self.is_free(i) {
            proof {
                assert(pre.free_set().contains(i as int));
                vstd::set::axiom_set_remove_len(pre.free_set(), i as int);
            }
            self.free_frames = self.free_frames - 1;
            let w = i / 64;
            let b = (i % 64) as u64;
            let v = self.frame_bm[w] | (1u64 << b);
            self.frame_bm.set(w, v);
            proof {
                assert forall|j: int| #[trigger] bit_set(self.frame_bm@, j) == (bit_set(pre.frame_bm@, j) || j == i) by {
                    if 0 <= j < 64 * BM_WORDS {
                        lemma_bit_or(pre.frame_bm@[w as int], b, (j % 64) as u64);
                    }
                }
                assert(self.free_set() =~= pre.free_set().remove(i as int));
            }
        } else {
            proof {
                assert(self.free_set() =~= pre.free_set().remove(i as int));
            }
        }
    }

    /// Mark frame `i` free; the counter rises when it was in use, and the
    /// hint moves back to its word when that is lower.
    fn mark_free(&mut self, i: usize)
        requires
            old(self).wf(),
            i < old(self).limit(),
        ensures
            final(self).wf(),
            forall|j: int| #[trigger] final(self).used(j) == (old(self).used(j) && j != i),
            final(self).free_set() == old(self).free_set().insert(i as int),
            final(self).free_frames == old(self).free_frames + (if old(self).used(i as int) { 1int } else { 0int }),
            old(self).used(i as int) ==> final(self).hint == (if i / 64 < old(self).hint { i / 64 } else { old(self).hint }),
            !old(self).used(i as int) ==> final(self).hint == old(self).hint,
            final(self).mem_base == old(self).mem_base,
            final(self).mem_size == old(self).mem_size,
            final(self).refs == old(self).refs,
    {
        let ghost pre = *self;
        proof {
            pre.lemma_free_set_finite();
        }
        if !self.is_free(i) {
            proof {
                assert(!pre.free_set().contains(i as int));
                vstd::set::axiom_set_insert_len(pre.free_set(), i as int);
                lemma_int_range(0, pre.limit());
                assert(pre.free_set().insert(i as int).subset_of(set_int_range(0, pre.limit())));
                lemma_len_subset(pre.free_set().insert(i as int), set_int_range(0, pre.limit()));
            }
            self.free_frames = self.free_frames + 1;
            if i / 64 < self.hint {
                self.hint = i / 64;
            }
            let w = i / 64;
            let b = (i % 64) as u64;
            let v = self.frame_bm[w] & !(1u64 << b);
            self.frame_bm.set(w, v);
            proof {
                assert forall|j: int| #[trigger] bit_set(self.frame_bm@, j) == (bit_set(pre.frame_bm@, j) && j != i) by {
                    if 0 <= j < 64 * BM_WORDS {
                        lemma_bit_clear(pre.frame_bm@[w as int], b, (j % 64) as u64);
                    }
                }
                assert(self.free_set() =~= pre.free_set().insert(i as int));
            }
        } else {
            proof {
                assert(self.free_set() =~= pre.free_set().insert(i as int));
            }
        }
    }
}

impl Pmm {
    /// Take over `size` bytes of memory from physical address `base`: every
    /// frame is free but frame 0, which is kept back so that no frame has
    /// address 0 relative to the base; the frames that can be handed out
    /// get a reference count of 1.
    pub fn mm_init(&mut self, base: PhysAddr, size: usize)
        requires
            old(self).wf(),
            base + size <= u64::MAX,
        ensures
            final(self).wf(),
            final(self).base() == base,
            final(self).size() == size,
            forall|j: int| #[trigger] final(self).used(j) == (j == 0),
            final(self).free_set() == set_int_range(1, final(self).limit()),
            final(self).free_count() == if size / PAGE_SIZE >= 1 { size / PAGE_SIZE - 1 } else { 0 },
            final(self).hint_word() == 0,
            forall|i: int| 1 <= i < final(self).limit() ==> #[trigger] final(self).refcount(i) == 1,
            forall|i: int|
                0 <= i < MAX_FRAMES && !(1 <= i < final(self).limit()) ==> #[trigger] final(self).refcount(i)
                    == old(self).refcount(i),
    {
        self.mem_base = base;
        self.mem_size = size;
        let total = size / PAGE_SIZE;
        self.free_frames = if total >= 1 { total - 1 } else { 0 };
        self.hint = 0;
        let n = if total < MAX_FRAMES { total } else { MAX_FRAMES };
        self.frame_bm = zero_words();
        let ghost zero = self.frame_bm@;
        let v = self.frame_bm[0] | 1u64;
        self.frame_bm.set(0, v);
        proof {
            assert forall|j: int| #[trigger] bit_set(self.frame_bm@, j) == (j == 0) by {
                if 0 <= j < 64 * BM_WORDS {
                    lemma_bit_or(zero[j / 64], 0u64, (j % 64) as u64);
                    assert(1u64 << 0u64 == 1u64) by (bit_vector);
                    lemma_full_word((j % 64) as u64);
                }
            }
            assert(n == self.limit());
            assert(self.free_set() =~= set_int_range(1, n as int));
            if n >= 1 {
                lemma_int_range(1, n as int);
            } else {
                assert(set_int_range(1, n as int) =~= Set::empty());
            }
            assert(PAGE_SIZE * n <= size) by (nonlinear_arith)
                requires
                    n <= total,
                    total == size / PAGE_SIZE,
            ;
        }
        let ghost refs0 = self.refs@;
        let mut i: usize = 1;
        while i < n
            invariant
                1 <= i,
                n == self.limit(),
                self.wf(),
                self.mem_base == base,
                self.mem_size == size,
                self.hint == 0,
                self.free_frames == (if total >= 1 { total - 1 } else { 0 }),
                forall|j: int| #[trigger] bit_set(self.frame_bm@, j) == (j == 0),
                self.free_set() == set_int_range(1, n as int),
                self.refs@.len() == MAX_FRAMES,
                forall|j: int| 1 <= j < i && j < n ==> #[trigger] self.refs@[j] == 1,
                forall|j: int| 0 <= j < MAX_FRAMES && !(1 <= j < i && j < n) ==> #[trigger] self.refs@[j] == refs0[j],
            decreases n - i,
        {
            let p = self.fp(i);
            proof {
                assert(p - base == i * PAGE_SIZE);
                vstd::arithmetic::div_mod::lemma_div_multiples_vanish(i as int, PAGE_SIZE as int);
                assert(PAGE_SIZE * i == i * PAGE_SIZE) by (nonlinear_arith);
            }
            let ghost before = self.refs@;
            self.frame_init(p);
            proof {
                assert forall|j: int| 0 <= j < MAX_FRAMES implies #[trigger] self.refs@[j] == (if j == i {
                    1
                } else {
                    before[j]
                }) by {
                    assert(self.refcount(j) == self.refs@[j]);
                }
            }
            i = i + 1;
        }
    }

    /// Least free frame in the words `s..e`, scanning words and then bits in
    /// order (a word with every bit set is skipped).
    fn scan(&self, s: usize, e: usize) -> (r: Option<usize>)
        requires
            self.wf(),
            s <= e <= BM_WORDS,
        ensures
            r matches Some(i) ==> 64 * s <= i < 64 * e && self.free_set().contains(i as int) && forall|j: int|
                64 * s <= j < i ==> !#[trigger] self.free_set().contains(j),
            r is None ==> forall|j: int| 64 * s <= j < 64 * e ==> !#[trigger] self.free_set().contains(j),
    {
        let mut w = s;
        while w < e
            invariant
                self.wf(),
                s <= w <= e <= BM_WORDS,
                forall|j: int| 64 * s <= j < 64 * w ==> !#[trigger] self.free_set().contains(j),
            decreases e - w,
        {
            if self.frame_bm[w] == !0u64 {
                proof {
                    assert forall|j: int| 64 * s <= j < 64 * (w + 1) implies !#[trigger] self.free_set().contains(j) by {
                        if j >= 64 * w {
                            lemma_full_word((j % 64) as u64);
                            assert(self.used(j));
                        }
                    }
                }
            } else {
                let mut bit: usize = 0;
                while bit < 64
                    invariant
                        self.wf(),
                        s <= w < e <= BM_WORDS,
                        bit <= 64,
                        forall|j: int| 64 * s <= j < 64 * w + bit ==> !#[trigger] self.free_set().contains(j),
                    decreases 64 - bit,
                {
                    let idx = w * 64 + bit;
                    if idx < MAX_FRAMES && idx < self.mem_size / PAGE_SIZE {
                        if self.is_free(idx) {
                            assert(self.free_set().contains(idx as int));
                            return Some(idx);
                        }
                    }
                    bit = bit + 1;
                }
            }
            w = w + 1;
        }
        None
    }

    /// Whether a frame can be handed out.
    pub fn has_free_frame(&self) -> (r: bool)
        requires
            self.wf(),
        ensures
            r == (self.free_set().len() > 0),
    {
        let found = self.scan(0, BM_WORDS);
        proof {
            self.lemma_free_set_finite();
            match found {
                Some(i) => {
                    assert(self.free_set().contains(i as int));
                },
                None => {
                    assert(self.free_set() =~= Set::empty());
                },
            }
        }
        found.is_some()
    }

    /// Hand out a frame: the least free one from the hint word on, else the
    /// least free one before it. The frame is marked in use, the hint moves
    /// to its word and its reference count becomes 1.
    pub fn mm_alloc_nolock(&mut self) -> (r: PhysAddr)
        requires
            old(self).wf(),
            old(self).free_set().len() > 0,
        ensures
            final(self).wf(),
            final(self).base() == old(self).base(),
            final(self).size() == old(self).size(),
            ({
                let i = final(self).frame_of(r as int);
                let h = 64 * old(self).hint_word();
                &&& r == old(self).addr_of(i)
                &&& old(self).free_set().contains(i)
                &&& (i >= h && forall|j: int| h <= j < i ==> !#[trigger] old(self).free_set().contains(j)) || (i < h
                    && (forall|j: int| h <= j ==> !#[trigger] old(self).free_set().contains(j)) && forall|j: int|
                    0 <= j < i ==> !#[trigger] old(self).free_set().contains(j))
                &&& final(self).free_set() == old(self).free_set().remove(i)
                &&& final(self).free_count() == old(self).free_count() - 1
                &&& final(self).hint_word() == i / 64
                &&& final(self).refcount(i) == 1
                &&& forall|k: int| 0 <= k < MAX_FRAMES && k != i ==> #[trigger] final(self).refcount(k) == old(self).refcount(k)
            }),
    {
        let ghost pre = *self;
        let h = self.hint;
        let first = self.scan(h, BM_WORDS);
        let idx = match first {
            Some(i) => i,
            None => {
                let second = self.scan(0, h);
                match second {
                    Some(i) => i,
                    None => {
                        proof {
                            pre.lemma_free_set_finite();
                            assert forall|j: int| !pre.free_set().contains(j) by {
                                if 0 <= j < 64 * BM_WORDS {
                                    if j < 64 * h {
                                    } else {
                                    }
                                }
                            }
                            assert(pre.free_set() =~= Set::empty());
                        }
                        0
                    },
                }
            },
        };
        proof {
            assert(pre.free_set().contains(idx as int));
        }
        self.hint = idx / 64;
        proof {
            assert(self.free_set() == pre.free_set());
        }
        self.mark_used(idx);
        let phys = self.fp(idx);
        proof {
            assert(phys - pre.mem_base == idx * PAGE_SIZE);
            vstd::arithmetic::div_mod::lemma_div_multiples_vanish(idx as int, PAGE_SIZE as int);
            assert(PAGE_SIZE * idx == idx * PAGE_SIZE) by (nonlinear_arith);
        }
        self.frame_init(phys);
        phys
    }

    /// `mm_alloc_nolock` under the memory lock (the lock is the caller's).
    pub fn mm_alloc(&mut self) -> (r: PhysAddr)
        requires
            old(self).wf(),
            old(self).free_set().len() > 0,
        ensures
            final(self).wf(),
            final(self).base() == old(self).base(),
            final(self).size() == old(self).size(),
            ({
                let i = final(self).frame_of(r as int);
                &&& r == old(self).addr_of(i)
                &&& old(self).took_frame(*final(self), i)
                &&& forall|k: int| 0 <= k < MAX_FRAMES && k != i ==> #[trigger] final(self).refcount(k) == old(self).refcount(k)
            }),
    {
        self.mm_alloc_nolock()
    }

    /// Set the reference count of the frame at `phys` to 1; addresses past
    /// the table are ignored.
    pub fn frame_init(&mut self, phys: PhysAddr)
        requires
            old(self).wf(),
            old(self).base() <= phys,
        ensures
            final(self).wf(),
            final(self).same_frames(*old(self)),
            final(self).base() == old(self).base(),
            final(self).size() == old(self).size(),
            old(self).frame_of(phys as int) < MAX_FRAMES ==> forall|k: int|
                0 <= k < MAX_FRAMES ==> #[trigger] final(self).refcount(k) == if k == old(self).frame_of(phys as int) {
                    1
                } else {
                    old(self).refcount(k)
                },
            old(self).frame_of(phys as int) >= MAX_FRAMES ==> forall|k: int|
                0 <= k < MAX_FRAMES ==> #[trigger] final(self).refcount(k) == old(self).refcount(k),
    {
        let i = self.fi(phys);
        if i >= MAX_FRAMES {
            return;
        }
        self.refs.set(i, 1);
    }
}

impl Pmm {
    /// The eight bitmap words of the 512 frames from `i` are all zero.
    pub closed spec fn huge_clear(&self, i: int) -> bool {
        forall|w: int| i / 64 <= w < i / 64 + 8 ==> #[trigger] self.frame_bm@[w] == 0
    }

    /// A huge page can start at frame `i`: a multiple of 512 past the first
    /// 512 frames, inside the frames that can be handed out.
    pub open spec fn huge_slot(&self, i: int) -> bool {
        i % 512 == 0 && i >= 512 && i + 512 <= self.limit()
    }

    fn words_clear(&self, w0: usize) -> (r: bool)
        requires
            self.wf(),
            w0 + 8 <= BM_WORDS,
        ensures
            r == forall|w: int| w0 <= w < w0 + 8 ==> #[trigger] self.frame_bm@[w] == 0,
    {
        let mut k: usize = 0;
        while k < 8
            invariant
                self.wf(),
                w0 + 8 <= BM_WORDS,
                k <= 8,
                forall|w: int| w0 <= w < w0 + k ==> #[trigger] self.frame_bm@[w] == 0,
            decreases 8 - k,
        {
            if self.frame_bm[w0 + k] != 0 {
                return false;
            }
            k = k + 1;
        }
        true
    }

    /// Hand out a huge page: the first 512 frames, aligned to 512 and past
    /// the first 512, whose bitmap words are all clear. They are marked in
    /// use with a reference count of 1. Returns 0 when there is none.
    pub fn mm_alloc_huge(&mut self) -> (r: PhysAddr)
        requires
            old(self).wf(),
        ensures
            final(self).wf(),
            final(self).base() == old(self).base(),
            final(self).size() == old(self).size(),
            r == 0 <==> forall|i: int| #[trigger] old(self).huge_slot(i) ==> !old(self).huge_clear(i),
            r == 0 ==> *final(self) == *old(self),
            r != 0 ==> exists|i: int|
                #[trigger] old(self).huge_slot(i) && old(self).huge_clear(i) && r == old(self).addr_of(i) && (forall|i2: int|
                    #[trigger] old(self).huge_slot(i2) && i2 < i ==> !old(self).huge_clear(i2))
                    && final(self).free_set() == old(self).free_set().difference(set_int_range(i, i + 512))
                    && final(self).free_count() == old(self).free_count() - 512 && (forall|k: int|
                    0 <= k < MAX_FRAMES ==> #[trigger] final(self).refcount(k) == if i <= k < i + 512 {
                        1
                    } else {
                        old(self).refcount(k)
                    }),
    {
        let ghost pre = *self;
        let total = self.mem_size / PAGE_SIZE;
        let lim = if total < MAX_FRAMES { total } else { MAX_FRAMES };
        let mut i: usize = 512;
        while i + 512 <= lim
            invariant
                *self == pre,
                pre == *old(self),
                self.wf(),
                lim == self.limit(),
                lim <= MAX_FRAMES,
                i <= lim + 512,
                i % 512 == 0,
                i >= 512,
                forall|i2: int| #[trigger] self.huge_slot(i2) && i2 < i ==> !self.huge_clear(i2),
            decreases lim - i,
        {
            if self.words_clear(i / 64) {
                proof {
                    assert forall|j: int| i <= j < i + 512 implies #[trigger] pre.free_set().contains(j) by {
                        assert(self.frame_bm@[j / 64] == 0);
                        lemma_full_word((j % 64) as u64);
                    }
                    pre.lemma_free_set_finite();
                }
                let mut j: usize = 0;
                while j < 512
                    invariant
                        self.wf(),
                        j <= 512,
                        i + 512 <= self.limit(),
                        self.mem_base == pre.mem_base,
                        self.mem_size == pre.mem_size,
                        pre == *old(self),
                        forall|q: int| i <= q < i + 512 ==> #[trigger] pre.free_set().contains(q),
                        self.free_set() == pre.free_set().difference(set_int_range(i as int, i + j)),
                        self.free_count() == pre.free_count() - j,
                        forall|k: int| 0 <= k < MAX_FRAMES ==> #[trigger] self.refcount(k) == if i <= k < i + j {
                            1
                        } else {
                            pre.refcount(k)
                        },
                    decreases 512 - j,
                {
                    let ghost before = *self;
                    proof {
                        assert(!before.used((i + j) as int)) by {
                            assert(pre.free_set().contains((i + j) as int));
                            assert(!before.free_set().contains((i + j) as int) ==> set_int_range(i as int, i + j).contains((i + j) as int));
                        }
                    }
                    self.mark_used(i + j);
                    let p = self.fp(i + j);
                    proof {
                        assert(p - pre.mem_base == (i + j) * PAGE_SIZE);
                        vstd::arithmetic::div_mod::lemma_div_multiples_vanish((i + j) as int, PAGE_SIZE as int);
                        assert(PAGE_SIZE * (i + j) == (i + j) * PAGE_SIZE) by (nonlinear_arith);
                        assert(self.frame_of(p as int) == (i + j) as int);
                    }
                    self.frame_init(p);
                    proof {
                        assert(self.free_set() =~= pre.free_set().difference(set_int_range(i as int, i + j + 1)));
                        assert forall|k: int| 0 <= k < MAX_FRAMES implies #[trigger] self.refcount(k) == if i <= k < i + j + 1 {
                            1
                        } else {
                            pre.refcount(k)
                        } by {
                            assert(before.refcount(k) == if i <= k < i + j { 1 } else { pre.refcount(k) });
                        }
                    }
                    j = j + 1;
                }
                let r = self.fp(i);
                proof {
                    assert(pre.huge_slot(i as int) && pre.huge_clear(i as int));
                }
                return r;
            }
            i = i + 512;
        }
        proof {
            assert forall|i2: int| #[trigger] pre.huge_slot(i2) implies !pre.huge_clear(i2) by {
                assert(i2 < i);
            }
        }
        0
    }

    /// Return the frame at `p` to the free frames; addresses below the base
    /// or past the frames that can be handed out are ignored.
    pub fn mm_free_nolock(&mut self, p: PhysAddr)
        requires
            old(self).wf(),
        ensures
            final(self).wf(),
            final(self).base() == old(self).base(),
            final(self).size() == old(self).size(),
            p < old(self).base() || old(self).frame_of(p as int) >= old(self).limit() ==> *final(self) == *old(self),
            p >= old(self).base() && old(self).frame_of(p as int) < old(self).limit() ==> {
                let i = old(self).frame_of(p as int);
                &&& final(self).free_set() == old(self).free_set().insert(i)
                &&& final(self).free_count() == old(self).free_count() + (if old(self).used(i) { 1int } else { 0int })
                &&& final(self).hint_word() == if old(self).used(i) && i / 64 < old(self).hint_word() {
                    i / 64
                } else {
                    old(self).hint_word()
                }
                &&& forall|k: int| #[trigger] final(self).refcount(k) == old(self).refcount(k)
            },
    {
        if p < self.mem_base {
            return;
        }
        let i = self.fi(p);
        if i >= MAX_FRAMES || i >= self.mem_size / PAGE_SIZE {
            return;
        }
        self.mark_free(i);
    }

    /// `mm_free_nolock` under the memory lock (the lock is the caller's).
    pub fn mm_free_phys(&mut self, p: PhysAddr)
        requires
            old(self).wf(),
        ensures
            final(self).wf(),
            final(self).base() == old(self).base(),
            final(self).size() == old(self).size(),
            p < old(self).base() || old(self).frame_of(p as int) >= old(self).limit() ==> *final(self) == *old(self),
            p >= old(self).base() && old(self).frame_of(p as int) < old(self).limit() ==> {
                let i = old(self).frame_of(p as int);
                &&& old(self).returned_frame(*final(self), i)
                &&& forall|k: int| #[trigger] final(self).refcount(k) == old(self).refcount(k)
            },
    {
        self.mm_free_nolock(p);
    }

    /// Return the 512 frames of the huge page at `p`; an address not
    /// aligned to 2 MiB is ignored.
    pub fn mm_free_huge(&mut self, p: PhysAddr)
        requires
            old(self).wf(),
            p + HUGE_SIZE <= u64::MAX,
        ensures
            final(self).wf(),
            final(self).base() == old(self).base(),
            final(self).size() == old(self).size(),
            p % HUGE_SIZE as u64 != 0 ==> *final(self) == *old(self),
            p % HUGE_SIZE as u64 == 0 ==> forall|k: int| #[trigger] final(self).free_set().contains(k) <==> (old(self).free_set().contains(k)
                || exists|j: int|
                0 <= j < 512 && p + j * PAGE_SIZE >= old(self).base() && #[trigger] old(self).frame_of(p + j * PAGE_SIZE) == k
                    && k < old(self).limit()),
    {
        if p % HUGE_SIZE as u64 != 0 {
            return;
        }
        let ghost pre = *self;
        let mut j: u64 = 0;
        while j < 512
            invariant
                self.wf(),
                j <= 512,
                p + HUGE_SIZE <= u64::MAX,
                self.mem_base == pre.mem_base,
                self.mem_size == pre.mem_size,
                forall|k: int| #[trigger] self.free_set().contains(k) <==> (pre.free_set().contains(k) || exists|jj: int|
                    0 <= jj < j && p + jj * PAGE_SIZE >= pre.base() && #[trigger] pre.frame_of(p + jj * PAGE_SIZE) == k && k
                        < pre.limit()),
            decreases 512 - j,
        {
            let ghost before = *self;
            let q = p + j * PAGE_SIZE as u64;
            self.mm_free_nolock(q);
            proof {
                assert forall|k: int| #[trigger] self.free_set().contains(k) <==> (pre.free_set().contains(k) || exists|jj: int|
                    0 <= jj < j + 1 && p + jj * PAGE_SIZE >= pre.base() && #[trigger] pre.frame_of(p + jj * PAGE_SIZE) == k
                        && k < pre.limit()) by {
                    if self.free_set().contains(k) && !before.free_set().contains(k) {
                        assert(pre.frame_of(p + j * PAGE_SIZE) == k);
                    }
                    if exists|jj: int|
                        0 <= jj < j + 1 && p + jj * PAGE_SIZE >= pre.base() && #[trigger] pre.frame_of(p + jj * PAGE_SIZE) == k
                            && k < pre.limit() {
                        let jj = choose|jj: int|
                            0 <= jj < j + 1 && p + jj * PAGE_SIZE >= pre.base() && #[trigger] pre.frame_of(p + jj * PAGE_SIZE) == k
                                && k < pre.limit();
                        if jj < j {
                            assert(before.free_set().contains(k));
                        }
                    }
                }
            }
            j = j + 1;
        }
    }

    /// Free memory in KiB (the counter's frames).
    pub fn mm_free_kb(&self) -> (r: usize)
        requires
            self.wf(),
        ensures
            r == self.free_count() * PAGE_SIZE / 1024,
    {
        proof {
            self.lemma_free_set_finite();
            assert(self.free_frames * PAGE_SIZE <= self.mem_size) by (nonlinear_arith)
                requires
                    self.free_frames <= self.mem_size / PAGE_SIZE,
            ;
        }
        self.free_frames * PAGE_SIZE / 1024
    }

    /// Memory in use in KiB: the frames of the memory less the counter.
    pub fn mm_used_kb(&self) -> (r: usize)
        requires
            self.wf(),
        ensures
            r == (self.total() - self.free_count()) * PAGE_SIZE / 1024,
    {
        let total = self.mem_size / PAGE_SIZE;
        proof {
            self.lemma_free_set_finite();
            assert((total - self.free_frames) * PAGE_SIZE <= self.mem_size) by (nonlinear_arith)
                requires
                    self.free_frames <= total,
                    total == self.mem_size / PAGE_SIZE,
            ;
        }
        let used = if total > self.free_frames { total - self.free_frames } else { 0 };
        used * PAGE_SIZE / 1024
    }

    /// Memory in KiB, in whole frames.
    pub fn mm_total_kb(&self) -> (r: usize)
        ensures
            r == self.total() * PAGE_SIZE / 1024,
    {
        proof {
            assert((self.mem_size / PAGE_SIZE) * PAGE_SIZE <= self.mem_size) by (nonlinear_arith);
        }
        (self.mem_size / PAGE_SIZE) * PAGE_SIZE / 1024
    }

    /// Free frames that can be handed out (those past `MAX_FRAMES` left
    /// out).
    pub fn usable_free(&self) -> (r: usize)
        requires
            self.wf(),
        ensures
            r == self.free_set().len(),
    {
        proof {
            self.lemma_free_set_finite();
        }
        let total = self.mem_size / PAGE_SIZE;
        let lim = if total < MAX_FRAMES { total } else { MAX_FRAMES };
        self.free_frames - (total - lim)
    }

    /// Physical address of frame 0.
    pub fn base_addr(&self) -> (r: PhysAddr)
        ensures
            r == self.base(),
    {
        self.mem_base
    }

    /// The free-frame counter.
    pub fn mm_free_pages(&self) -> (r: usize)
        ensures
            r == self.free_count(),
    {
        self.free_frames
    }

    // ── Reference counts ────────────────────────────────────────────────────

    /// Reference count of the frame at `phys` (0 past the table).
    pub fn frame_ref(&self, phys: PhysAddr) -> (r: u16)
        requires
            self.wf(),
            self.base() <= phys,
        ensures
            r == if self.frame_of(phys as int) < MAX_FRAMES { self.refcount(self.frame_of(phys as int)) } else { 0 },
    {
        let i = self.fi(phys);
        if i >= MAX_FRAMES {
            return 0;
        }
        self.refs[i]
    }

    /// One more owner of the frame at `phys`; a count at its maximum stays
    /// there.
    pub fn frame_inc(&mut self, phys: PhysAddr)
        requires
            old(self).wf(),
            old(self).base() <= phys,
        ensures
            final(self).wf(),
            final(self).same_frames(*old(self)),
            ({
                let i = old(self).frame_of(phys as int);
                forall|k: int| 0 <= k < MAX_FRAMES ==> #[trigger] final(self).refcount(k) == if k == i {
                    inc_count(old(self).refcount(k))
                } else {
                    old(self).refcount(k)
                }
            }),
    {
        let i = self.fi(phys);
        if i >= MAX_FRAMES {
            return;
        }
        let prev = self.refs[i];
        let next = if prev == u16::MAX { u16::MAX } else { prev + 1 };
        self.refs.set(i, next);
    }

    /// One owner fewer of the frame at `phys`. A count at its maximum is
    /// pinned and left alone; otherwise it drops (from 0 it wraps to the
    /// maximum), and when it drops from 1 the frame is freed and `true`
    /// returned.
    pub fn frame_dec(&mut self, phys: PhysAddr) -> (r: bool)
        requires
            old(self).wf(),
            old(self).base() <= phys,
        ensures
            final(self).wf(),
            final(self).base() == old(self).base(),
            final(self).size() == old(self).size(),
            ({
                let i = old(self).frame_of(phys as int);
                let c = old(self).refcount(i);
                &&& i >= MAX_FRAMES || c == u16::MAX ==> !r && *final(self) == *old(self)
                &&& i < MAX_FRAMES && c != u16::MAX ==> {
                    &&& r == (c == 1)
                    &&& forall|k: int| 0 <= k < MAX_FRAMES ==> #[trigger] final(self).refcount(k) == if k == i {
                        dec_count(c)
                    } else {
                        old(self).refcount(k)
                    }
                    &&& c != 1 ==> final(self).free_set() == old(self).free_set() && final(self).free_count()
                        == old(self).free_count()
                    &&& c == 1 && i < old(self).limit() ==> final(self).free_set() == old(self).free_set().insert(i)
                    &&& c == 1 && i >= old(self).limit() ==> final(self).free_set() == old(self).free_set()
                }
            }),
            dec_step(*old(self), *final(self), phys),
    {
        let i = self.fi(phys);
        if i >= MAX_FRAMES {
            return false;
        }
        let cur = self.refs[i];
        if cur == u16::MAX {
            return false;
        }
        let prev = self.refs[i];
        let next = if prev == 0 { u16::MAX } else { prev - 1 };
        self.refs.set(i, next);
        if prev == 1 {
            self.mm_free_phys(phys);
            return true;
        }
        false
    }

    /// The frame at `phys` has more than one owner.
    pub fn frame_shared(&self, phys: PhysAddr) -> (r: bool)
        requires
            self.wf(),
            self.base() <= phys,
        ensures
            r == (self.frame_of(phys as int) < MAX_FRAMES && self.refcount(self.frame_of(phys as int)) > 1),
    {
        self.frame_ref(phys) > 1
    }

    /// Copy-on-write bookkeeping: take a fresh frame (count 1) for the
    /// private copy and drop one owner of `old_phys`; the caller copies the
    /// page contents. Returns the new frame.
    pub fn frame_cow_copy(&mut self, old_phys: PhysAddr) -> (r: PhysAddr)
        requires
            old(self).wf(),
            old(self).free_set().len() > 0,
            old(self).base() <= old_phys,
        ensures
            final(self).wf(),
            final(self).base() == old(self).base(),
            r == 0 ==> old(self).base() == 0,
            r != 0 ==> {
                let n = old(self).frame_of(r as int);
                let o = old(self).frame_of(old_phys as int);
                &&& r == old(self).addr_of(n)
                &&& old(self).free_set().contains(n)
                &&& o != n ==> final(self).refcount(n) == 1
                &&& o != n && o < MAX_FRAMES ==> final(self).refcount(o) == if old(self).refcount(o) == u16::MAX {
                    u16::MAX
                } else {
                    dec_count(old(self).refcount(o))
                }
                &&& o != n && o < MAX_FRAMES && old(self).refcount(o) > 1 ==> final(self).free_set() == old(
                    self,
                ).free_set().remove(n)
                &&& forall|k: int|
                    0 <= k < MAX_FRAMES && k != n && k != o ==> #[trigger] final(self).refcount(k) == old(self).refcount(k)
            },
    {
        let ghost pre = *self;
        let new_phys = self.mm_alloc();
        if new_phys == 0 {
            return 0;
        }
        let ghost n = self.frame_of(new_phys as int);
        proof {
            assert(new_phys - pre.mem_base == n * PAGE_SIZE);
            vstd::arithmetic::div_mod::lemma_div_multiples_vanish(n, PAGE_SIZE as int);
            assert(PAGE_SIZE * n == n * PAGE_SIZE) by (nonlinear_arith);
            assert(pre.frame_of(new_phys as int) == n);
        }
        let ghost mid = *self;
        self.frame_init(new_phys);
        let ghost mid2 = *self;
        let _ = self.frame_dec(old_phys);
        proof {
            let o = pre.frame_of(old_phys as int);
            mid2.lemma_same_frames(mid);
            assert(mid2.refcount(n) == 1);
            assert forall|k: int|
                0 <= k < MAX_FRAMES && k != n && k != o implies #[trigger] self.refcount(k) == pre.refcount(k) by {
                assert(mid.refcount(k) == pre.refcount(k));
                assert(mid2.refcount(k) == mid.refcount(k));
            }
            if o != n && o < MAX_FRAMES {
                assert(mid.refcount(o) == pre.refcount(o));
                assert(mid2.refcount(o) == pre.refcount(o));
            }
        }
        new_phys
    }

    /// A frame already owned alone is written in place.
    pub fn frame_cow_inplace(&self, phys: PhysAddr) -> (r: PhysAddr)
        ensures
            r == phys,
    {
        phys
    }
}

pub(crate) fn zero_words() -> (r: Vec<u64>)
    ensures
        r@.len() == BM_WORDS,
        forall|w: int| 0 <= w < BM_WORDS ==> #[trigger] r@[w] == 0,
        forall|i: int| !#[trigger] bit_set(r@, i),
{
    let mut r: Vec<u64> = Vec::new();
    let mut k: usize = 0;
    while k < BM_WORDS
        invariant
            k <= BM_WORDS,
            r@.len() == k,
            forall|w: int| 0 <= w < k ==> #[trigger] r@[w] == 0,
        decreases BM_WORDS - k,
    {
        r.push(0);
        k = k + 1;
    }
    proof {
        assert forall|i: int| !#[trigger] bit_set(r@, i) by {
            if 0 <= i < 64 * BM_WORDS {
                lemma_full_word((i % 64) as u64);
            }
        }
    }
    r
}

fn zero_refs() -> (r: Vec<u16>)
    ensures
        r@.len() == MAX_FRAMES,
        forall|i: int| 0 <= i < MAX_FRAMES ==> #[trigger] r@[i] == 0,
{
    let mut r: Vec<u16> = Vec::new();
    let mut k: usize = 0;
    while k < MAX_FRAMES
        invariant
            k <= MAX_FRAMES,
            r@.len() == k,
            forall|i: int| 0 <= i < k ==> #[trigger] r@[i] == 0,
        decreases MAX_FRAMES - k,
    {
        r.push(0);
        k = k + 1;
    }
    r
}

// ── Laws ─────────────────────────────────────────────────────────────────────

/// The address of a frame that can be handed out lies at or above the base
/// and maps back to the frame.
pub proof fn law_frame_address_roundtrip(s: Pmm, i: int)
    requires
        s.wf(),
        0 <= i < s.limit(),
    ensures
        s.addr_of(i) >= s.base(),
        s.frame_of(s.addr_of(i)) == i,
{
    vstd::arithmetic::div_mod::lemma_div_multiples_vanish(i, PAGE_SIZE as int);
    assert(i * PAGE_SIZE == PAGE_SIZE * i) by (nonlinear_arith);
    s.lemma_free_set_finite();
}

/// Freeing the frame just handed out gives back the free frames and the
/// counter from before.
pub proof fn law_free_undoes_alloc(s0: Pmm, s1: Pmm, s2: Pmm, i: int)
    requires
        s0.wf(),
        s0.took_frame(s1, i),
        s1.returned_frame(s2, i),
    ensures
        s2.free_set() == s0.free_set(),
        s2.free_count() == s0.free_count(),
{
    assert(!s1.free_set().contains(i));
    assert(s1.used(i));
    assert(s2.free_set() =~= s0.free_set());
}

/// One more owner and then one fewer leaves a reference count below the
/// top two values unchanged; the drop frees the frame exactly when the
/// count was 0.
pub proof fn law_refcount_inc_dec(c: u16)
    requires
        c < u16::MAX - 1,
    ensures
        inc_count(c) != u16::MAX,
        dec_count(inc_count(c)) == c,
        (inc_count(c) == 1) == (c == 0),
{
}

} // verus!
