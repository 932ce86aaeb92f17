//! Buddy allocator for the kernel heap: blocks of 4 KiB to 2 MiB, one free
//! list per order and a bitmap with one bit per 4 KiB page (set = free).
//!
//! A block of order `o` spans `2^o` pages and starts at a page index (relative
//! to the heap base) that is a multiple of `2^o`. Allocation takes the first
//! free block of a large enough order and splits it; freeing merges a block
//! with its buddy (the other half of the block one order up) for as long as
//! that buddy is entirely free.
use vstd::prelude::*;
use vstd::arithmetic::power2::{pow2, lemma_pow2_unfold, lemma_pow2_adds, lemma2_to64};
use vstd::set_lib::{set_int_range, lemma_int_range, lemma_len_subset};

verus! {

pub const PAGE_SIZE: usize = 0x1000;

/// Orders `0..MAX_ORDER`; order 9 is 2 MiB.
pub const MAX_ORDER: usize = 10;

/// Size of a block of the largest order (`PAGE_SIZE << (MAX_ORDER - 1)`).
pub const MAX_BLOCK: usize = 0x20_0000;

/// Largest heap the allocator manages (32 MiB).
pub const BUDDY_HEAP_SIZE: usize = 0x200_0000;

/// Pages of order 0 in the largest heap.
pub const N_PAGES: usize = 8192;

/// Words of the page bitmap (`N_PAGES / 64 + 1`).
pub const BITMAP_WORDS: usize = 129;

// ── Block arithmetic ─────────────────────────────────────────────────────────

/// Pages in a block of order `o`.
pub open spec fn np(o: int) -> int
    decreases o,
{
    if o <= 0 {
        1
    } else {
        2 * np(o - 1)
    }
}

/// Bytes in a block of order `o`.
pub open spec fn block_bytes(o: int) -> int {
    PAGE_SIZE * np(o)
}

/// Start page of the buddy of the block of order `o` at page `s`.
pub open spec fn buddy_page(s: int, o: int) -> int {
    if (s / np(o)) % 2 == 0 {
        s + np(o)
    } else {
        s - np(o)
    }
}

/// Page `p` lies in the block of order `o` starting at page `s`.
pub open spec fn in_block(s: int, o: int, p: int) -> bool {
    s <= p < s + np(o)
}

proof fn lemma_np_pos(o: int)
    ensures
        np(o) >= 1,
    decreases o,
{
    if o > 0 {
        lemma_np_pos(o - 1);
    }
}

proof fn lemma_np_values()
    ensures
        np(0) == 1,
        np(1) == 2,
        np(2) == 4,
        np(3) == 8,
        np(4) == 16,
        np(5) == 32,
        np(6) == 64,
        np(7) == 128,
        np(8) == 256,
        np(9) == 512,
        np(10) == 1024,
{
    reveal_with_fuel(np, 11);
}

proof fn lemma_np_pow2(o: int)
    requires
        o >= 0,
    ensures
        np(o) == pow2(o as nat),
    decreases o,
{
    if o > 0 {
        lemma_np_pow2(o - 1);
        lemma_pow2_unfold(o as nat);
    } else {
        lemma2_to64();
    }
}

/// `np(o2)` is `np(o1)` times `np(o2 - o1)`.
proof fn lemma_np_split(o1: int, o2: int)
    requires
        0 <= o1 <= o2,
    ensures
        np(o2) == np(o1) * np(o2 - o1),
    decreases o2,
{
    if o2 > o1 {
        lemma_np_split(o1, o2 - 1);
        assert(np(o2) == 2 * np(o2 - 1));
        assert(np(o2 - o1) == 2 * np(o2 - 1 - o1));
        assert(np(o1) * np(o2 - o1) == 2 * (np(o1) * np(o2 - 1 - o1))) by (nonlinear_arith)
            requires
                np(o2 - o1) == 2 * np(o2 - 1 - o1),
        ;
    }
}

/// A multiple of a larger block size is a multiple of a smaller one.
proof fn lemma_aligned_weaken(s: int, o1: int, o2: int)
    requires
        0 <= o1 <= o2,
        s % np(o2) == 0,
    ensures
        s % np(o1) == 0,
{
    lemma_np_split(o1, o2);
    lemma_np_pos(o1);
    lemma_np_pos(o2);
    lemma_np_pos(o2 - o1);
    let q = s / np(o2);
    vstd::arithmetic::div_mod::lemma_fundamental_div_mod(s, np(o2));
    assert(s == np(o1) * (np(o2 - o1) * q)) by (nonlinear_arith)
        requires
            s == np(o2) * q + 0,
            np(o2) == np(o1) * np(o2 - o1),
    ;
    vstd::arithmetic::div_mod::lemma_mod_multiples_basic(np(o2 - o1) * q, np(o1));
    assert((np(o2 - o1) * q) * np(o1) == np(o1) * (np(o2 - o1) * q)) by (nonlinear_arith);
}

/// Two multiples of `m`: the smaller one plus `m` is at most the larger.
proof fn lemma_multiple_step(a: int, b: int, m: int)
    requires
        m > 0,
        a % m == 0,
        b % m == 0,
        a < b,
    ensures
        a + m <= b,
{
    vstd::arithmetic::div_mod::lemma_fundamental_div_mod(a, m);
    vstd::arithmetic::div_mod::lemma_fundamental_div_mod(b, m);
    let qa = a / m;
    let qb = b / m;
    assert(a + m <= b) by (nonlinear_arith)
        requires
            m > 0,
            a == m * qa + 0,
            b == m * qb + 0,
            a < b,
    ;
}

/// Aligned blocks are nested or disjoint: a smaller (or equal) block that
/// starts inside a larger one ends inside it, and one that starts before it
/// ends before it.
proof fn lemma_nested(s1: int, o1: int, s2: int, o2: int)
    requires
        0 <= o1 <= o2,
        s1 % np(o1) == 0,
        s2 % np(o2) == 0,
    ensures
        s2 <= s1 < s2 + np(o2) ==> s1 + np(o1) <= s2 + np(o2),
        s1 < s2 ==> s1 + np(o1) <= s2,
{
    lemma_np_pos(o1);
    lemma_np_pos(o2);
    lemma_aligned_weaken(s2, o1, o2);
    lemma_np_split(o1, o2);
    assert((s2 + np(o2)) % np(o1) == 0) by {
        vstd::arithmetic::div_mod::lemma_mod_multiples_basic(np(o2 - o1), np(o1));
        assert(np(o2 - o1) * np(o1) == np(o2)) by (nonlinear_arith)
            requires
                np(o2) == np(o1) * np(o2 - o1),
        ;
        vstd::arithmetic::div_mod::lemma_add_mod_noop(s2, np(o2), np(o1));
        assert(s2 % np(o1) == 0);
        assert(np(o2) % np(o1) == 0);
        assert((0int + 0int) % np(o1) == 0) by (nonlinear_arith)
            requires
                np(o1) > 0,
        ;
    }
    if s2 <= s1 < s2 + np(o2) {
        lemma_multiple_step(s1, s2 + np(o2), np(o1));
    }
    if s1 < s2 {
        lemma_multiple_step(s1, s2, np(o1));
    }
}

/// The buddy of an aligned block is aligned, and the two together form the
/// aligned block one order up that starts at the lower of them.
proof fn lemma_buddy(s: int, o: int)
    requires
        0 <= o,
        s >= 0,
        s % np(o) == 0,
    ensures
        buddy_page(s, o) >= 0,
        buddy_page(s, o) % np(o) == 0,
        buddy_page(s, o) != s,
        buddy_page(buddy_page(s, o), o) == s,
        ({
            let lo = if s < buddy_page(s, o) { s } else { buddy_page(s, o) };
            &&& lo % np(o + 1) == 0
            &&& lo == s || lo + np(o) == s
            &&& forall|p: int| in_block(lo, o + 1, p) <==> (in_block(s, o, p) || in_block(buddy_page(s, o), o, p))
        }),
{
    lemma_np_pos(o);
    let n = np(o);
    assert(np(o + 1) == 2 * n);
    vstd::arithmetic::div_mod::lemma_fundamental_div_mod(s, n);
    let k = s / n;
    assert(s == n * k);
    assert(k >= 0) by (nonlinear_arith)
        requires
            s == n * k,
            s >= 0,
            n > 0,
    ;
    if k % 2 == 0 {
        let j = k / 2;
        assert(k == 2 * j);
        let b = s + n;
        assert(b == n * (k + 1)) by (nonlinear_arith)
            requires
                s == n * k,
                b == s + n,
        ;
        assert(b / n == k + 1) by {
            vstd::arithmetic::div_mod::lemma_div_multiples_vanish(k + 1, n);
            assert(n * (k + 1) == (k + 1) * n) by (nonlinear_arith);
        }
        vstd::arithmetic::div_mod::lemma_mod_multiples_basic(k + 1, n);
        assert((k + 1) * n == n * (k + 1)) by (nonlinear_arith);
        assert(s == (2 * n) * j) by (nonlinear_arith)
            requires
                s == n * k,
                k == 2 * j,
        ;
        vstd::arithmetic::div_mod::lemma_mod_multiples_basic(j, 2 * n);
        assert(j * (2 * n) == (2 * n) * j) by (nonlinear_arith);
    } else {
        let j = k / 2;
        assert(k == 2 * j + 1);
        let b = s - n;
        assert(b == n * (k - 1)) by (nonlinear_arith)
            requires
                s == n * k,
                b == s - n,
        ;
        assert(b / n == k - 1) by {
            vstd::arithmetic::div_mod::lemma_div_multiples_vanish(k - 1, n);
            assert(n * (k - 1) == (k - 1) * n) by (nonlinear_arith);
        }
        vstd::arithmetic::div_mod::lemma_mod_multiples_basic(k - 1, n);
        assert((k - 1) * n == n * (k - 1)) by (nonlinear_arith);
        assert(b == (2 * n) * j) by (nonlinear_arith)
            requires
                b == n * (k - 1),
                k == 2 * j + 1,
        ;
        assert(b >= 0) by (nonlinear_arith)
            requires
                b == (2 * n) * j,
                n > 0,
                j >= 0,
        ;
        vstd::arithmetic::div_mod::lemma_mod_multiples_basic(j, 2 * n);
        assert(j * (2 * n) == (2 * n) * j) by (nonlinear_arith);
    }
}

proof fn lemma_np_mono(o1: int, o2: int)
    requires
        0 <= o1 <= o2,
    ensures
        np(o1) <= np(o2),
    decreases o2,
{
    if o2 > o1 {
        lemma_np_mono(o1, o2 - 1);
        lemma_np_pos(o2 - 1);
    }
}

/// The upper half of an aligned block of order `c + 1` has the lower half
/// as its buddy.
proof fn lemma_upper_half(s: int, c: int)
    requires
        0 <= c,
        s >= 0,
        s % np(c + 1) == 0,
    ensures
        (s + np(c)) % np(c) == 0,
        s % np(c) == 0,
        buddy_page(s + np(c), c) == s,
{
    lemma_np_pos(c);
    let n = np(c);
    assert(np(c + 1) == 2 * n);
    vstd::arithmetic::div_mod::lemma_fundamental_div_mod(s, 2 * n);
    let k = s / (2 * n);
    assert(s == (2 * n) * k);
    assert(s + n == n * (2 * k + 1)) by (nonlinear_arith)
        requires
            s == (2 * n) * k,
    ;
    assert(s == n * (2 * k)) by (nonlinear_arith)
        requires
            s == (2 * n) * k,
    ;
    vstd::arithmetic::div_mod::lemma_div_multiples_vanish(2 * k + 1, n);
    vstd::arithmetic::div_mod::lemma_mod_multiples_basic(2 * k + 1, n);
    vstd::arithmetic::div_mod::lemma_mod_multiples_basic(2 * k, n);
    assert(n * (2 * k + 1) == (2 * k + 1) * n) by (nonlinear_arith);
    assert(n * (2 * k) == (2 * k) * n) by (nonlinear_arith);
}

/// Flipping bit `k` of `d` adds `2^k` when the bit is clear and subtracts
/// it when set.
proof fn lemma_xor_bit(d: usize, k: usize)
    requires
        k < 32,
    ensures
        (d >> k) & 1usize == 0 ==> d ^ (1usize << k) == d + (1usize << k),
        (d >> k) & 1usize != 0 ==> d >= (1usize << k) && d ^ (1usize << k) == d - (1usize << k),
        (d >> k) & 1usize == (d >> k) % 2,
{
    assert((d >> k) & 1usize == 0 ==> d ^ (1usize << k) == d + (1usize << k))
        by (bit_vector)
        requires
            k < 32,
    ;
    assert((d >> k) & 1usize != 0 ==> d >= (1usize << k) && d ^ (1usize << k) == d - (1usize << k)) by (bit_vector)
        requires
            k < 32,
    ;
    let x = d >> k;
    assert(x & 1usize == x % 2) by (bit_vector);
}

/// Two aligned blocks sharing a page: the smaller lies inside the larger.
proof fn lemma_overlap_nested(s1: int, o1: int, s2: int, o2: int, x: int)
    requires
        0 <= o1 <= o2,
        s1 % np(o1) == 0,
        s2 % np(o2) == 0,
        in_block(s1, o1, x),
        in_block(s2, o2, x),
    ensures
        s2 <= s1,
        s1 + np(o1) <= s2 + np(o2),
        forall|p: int| in_block(s1, o1, p) ==> in_block(s2, o2, p),
{
    lemma_nested(s1, o1, s2, o2);
}

/// The block of order `o + 1` that holds an aligned block of order `o` and
/// its buddy.
pub open spec fn parent_page(s: int, o: int) -> int {
    if s < buddy_page(s, o) {
        s
    } else {
        buddy_page(s, o)
    }
}

/// The pages of the block of order `o` at page `s`.
pub open spec fn block_pages(s: int, o: int) -> Set<int> {
    set_int_range(s, s + np(o))
}

/// Order of the smallest block, from order `o` up, that holds `size` bytes;
/// the largest order when none does.
pub open spec fn order_from(size: int, o: int) -> int
    decreases MAX_ORDER - 1 - o,
{
    if o >= MAX_ORDER - 1 || block_bytes(o) >= size {
        o
    } else {
        order_from(size, o + 1)
    }
}

/// Order of the smallest block that holds `size` bytes, capped at the
/// largest order.
pub open spec fn size_order(size: int) -> int {
    order_from(size, 0)
}

// ── Page bitmap ──────────────────────────────────────────────────────────────

/// Page `p` is marked free in the bitmap.
pub open spec fn page_bit(bm: Seq<u64>, p: int) -> bool {
    0 <= p < 64 * bm.len() && (bm[p / 64] >> ((p % 64) as u64)) & 1u64 == 1u64
}

/// The pages marked free.
pub open spec fn marked_pages(bm: Seq<u64>) -> Set<int> {
    Set::new(|p: int| page_bit(bm, p))
}

pub(crate) proof fn lemma_bit_or(x: u64, b: u64, c: u64)
    requires
        b < 64,
        c < 64,
    ensures
        ((x | (1u64 << b)) >> c) & 1u64 == if b == c { 1u64 } else { (x >> c) & 1u64 },
{
    assert(((x | (1u64 << b)) >> c) & 1u64 == if b == c { 1u64 } else { (x >> c) & 1u64 }) by (bit_vector)
        requires
            b < 64,
            c < 64,
    ;
}

pub(crate) proof fn lemma_bit_clear(x: u64, b: u64, c: u64)
    requires
        b < 64,
        c < 64,
    ensures
        ((x & !(1u64 << b)) >> c) & 1u64 == if b == c { 0u64 } else { (x >> c) & 1u64 },
{
    assert(((x & !(1u64 << b)) >> c) & 1u64 == if b == c { 0u64 } else { (x >> c) & 1u64 }) by (bit_vector)
        requires
            b < 64,
            c < 64,
    ;
}

pub(crate) proof fn lemma_bit_test(x: u64, b: u64)
    requires
        b < 64,
    ensures
        (x & (1u64 << b) == 0) == ((x >> b) & 1u64 != 1u64),
{
    assert((x & (1u64 << b) == 0) == ((x >> b) & 1u64 != 1u64)) by (bit_vector)
        requires
            b < 64,
    ;
}

proof fn lemma_marked_finite(bm: Seq<u64>)
    ensures
        marked_pages(bm).finite(),
        marked_pages(bm).subset_of(set_int_range(0, (64 * bm.len()) as int)),
{
    lemma_int_range(0, (64 * bm.len()) as int);
    lemma_len_subset(marked_pages(bm), set_int_range(0, (64 * bm.len()) as int));
}

/// Index of the first occurrence of `a` in `l`.
fn position_in(l: &Vec<usize>, a: usize) -> (j: usize)
    requires
        l@.contains(a),
    ensures
        j < l@.len(),
        l@[j as int] == a,
{
    let mut j: usize = 0;
    while j < l.len()
        invariant
            j <= l@.len(),
            l@.contains(a),
            forall|k: int| 0 <= k < j ==> l@[k] != a,
        decreases l@.len() - j,
    {
        if l[j] == a {
            return j;
        }
        j = j + 1;
    }
    let ghost k = choose|k: int| 0 <= k < l@.len() && l@[k] == a;
    assert(l@[k] == a);
    0
}

fn empty_lists() -> (r: Vec<Vec<usize>>)
    ensures
        r@.len() == MAX_ORDER,
        forall|o: int| 0 <= o < MAX_ORDER ==> #[trigger] r@[o]@.len() == 0,
{
    let mut r: Vec<Vec<usize>> = Vec::new();
    let mut i: usize = 0;
    while i < MAX_ORDER
        invariant
            i <= MAX_ORDER,
            r@.len() == i,
            forall|o: int| 0 <= o < i ==> #[trigger] r@[o]@.len() == 0,
        decreases MAX_ORDER - i,
    {
        r.push(Vec::new());
        i = i + 1;
    }
    r
}

fn zero_bitmap() -> (r: Vec<u64>)
    ensures
        r@.len() == BITMAP_WORDS,
        forall|w: int| 0 <= w < BITMAP_WORDS ==> #[trigger] r@[w] == 0,
{
    let mut r: Vec<u64> = Vec::new();
    let mut i: usize = 0;
    while i < BITMAP_WORDS
        invariant
            i <= BITMAP_WORDS,
            r@.len() == i,
            forall|w: int| 0 <= w < i ==> #[trigger] r@[w] == 0,
        decreases BITMAP_WORDS - i,
    {
        r.push(0);
        i = i + 1;
    }
    r
}

// ── The allocator ────────────────────────────────────────────────────────────

/// Buddy allocator over the heap `[base, base + size)`.
pub struct BuddyAllocator {
    base: usize,
    size: usize,
    /// Start addresses of the free blocks, one list per order.
    free_lists: Vec<Vec<usize>>,
    /// One bit per page of order 0: set when the page is free.
    bitmap: Vec<u64>,
    /// Bytes in free blocks.
    free_bytes: usize,
}

impl BuddyAllocator {
    pub closed spec fn base_addr(&self) -> int {
        self.base as int
    }

    pub closed spec fn heap_size(&self) -> int {
        self.size as int
    }

    /// Bytes in free blocks.
    pub closed spec fn free_byte_count(&self) -> int {
        self.free_bytes as int
    }

    /// Free list of order `o`: the block handed out next is the last one.
    pub closed spec fn free_list(&self, o: int) -> Seq<usize> {
        self.free_lists@[o]@
    }

    /// Page index (from the heap base) of address `a`.
    pub closed spec fn page_of(&self, a: int) -> int {
        (a - self.base) / (PAGE_SIZE as int)
    }

    /// Pages in the heap.
    pub closed spec fn heap_pages(&self) -> int {
        (self.size as int) / (PAGE_SIZE as int)
    }

    /// The pages (by index from the base) that are free.
    pub closed spec fn free_pages(&self) -> Set<int> {
        marked_pages(self.bitmap@)
    }

    /// `a` is the start of a block of order `o` inside the heap.
    pub closed spec fn block_ok(&self, o: int, a: int) -> bool {
        &&& 0 <= o < MAX_ORDER
        &&& self.base <= a
        &&& (a - self.base) % (PAGE_SIZE as int) == 0
        &&& self.page_of(a) % np(o) == 0
        &&& self.page_of(a) + np(o) <= self.heap_pages()
    }

    /// Every page of the block of order `o` at `a` is in use.
    pub closed spec fn block_in_use(&self, o: int, a: int) -> bool {
        forall|p: int| in_block(self.page_of(a), o, p) ==> !self.free_pages().contains(p)
    }

    spec fn valid_ix(&self, o: int, j: int) -> bool {
        0 <= o < MAX_ORDER && 0 <= j < self.free_lists@[o]@.len()
    }

    /// Start page of the `j`-th free block of order `o`.
    spec fn entry(&self, o: int, j: int) -> int {
        self.page_of(self.free_lists@[o]@[j] as int)
    }

    spec fn covered(&self, p: int) -> bool {
        exists|o: int, j: int| #[trigger] self.valid_ix(o, j) && in_block(self.entry(o, j), o, p)
    }

    spec fn wf_core(&self) -> bool {
        &&& self.free_lists@.len() == MAX_ORDER
        &&& self.bitmap@.len() == BITMAP_WORDS
        &&& self.size % MAX_BLOCK == 0
        &&& self.size <= BUDDY_HEAP_SIZE
        &&& self.base + self.size <= usize::MAX
        &&& forall|o: int, j: int| #[trigger] self.valid_ix(o, j) ==> self.block_ok(o, self.free_lists@[o]@[j] as int)
        &&& forall|p: int| #[trigger] page_bit(self.bitmap@, p) <==> self.covered(p)
        &&& forall|o1: int, j1: int, o2: int, j2: int|
            #![trigger self.valid_ix(o1, j1), self.valid_ix(o2, j2)]
            self.valid_ix(o1, j1) && self.valid_ix(o2, j2) && (o1 != o2 || j1 != j2) ==> self.entry(o1, j1) + np(o1)
                <= self.entry(o2, j2) || self.entry(o2, j2) + np(o2) <= self.entry(o1, j1)
        &&& self.free_bytes == PAGE_SIZE * marked_pages(self.bitmap@).len()
    }

    /// No free block has an entirely free buddy: free buddies are always
    /// merged.
    spec fn maximal(&self) -> bool {
        forall|o: int, j: int|
            #[trigger] self.valid_ix(o, j) && o < MAX_ORDER - 1 ==> exists|p: int|
                in_block(buddy_page(self.entry(o, j), o), o, p) && !page_bit(self.bitmap@, p)
    }

    /// Well-formedness: the free lists hold aligned, disjoint blocks inside
    /// the heap, the bitmap marks exactly their pages, free buddies are
    /// merged, and `free_bytes` counts the free pages.
    pub closed spec fn wf(&self) -> bool {
        self.wf_core() && self.maximal()
    }

    proof fn lemma_free_pages_in_heap(&self)
        requires
            self.wf_core(),
        ensures
            forall|p: int| self.free_pages().contains(p) ==> 0 <= p < self.heap_pages(),
            self.free_pages().finite(),
            self.free_pages().len() <= self.heap_pages(),
            self.heap_pages() <= N_PAGES,
            self.free_bytes <= self.size,
    {
        assert forall|p: int| self.free_pages().contains(p) implies 0 <= p < self.heap_pages() by {
            assert(page_bit(self.bitmap@, p));
            let (o, j) = choose|o: int, j: int| #[trigger] self.valid_ix(o, j) && in_block(self.entry(o, j), o, p);
            assert(self.block_ok(o, self.free_lists@[o]@[j] as int));
        }
        lemma_int_range(0, self.heap_pages());
        assert(self.free_pages().subset_of(set_int_range(0, self.heap_pages())));
        lemma_len_subset(self.free_pages(), set_int_range(0, self.heap_pages()));
        assert(self.size == PAGE_SIZE * self.heap_pages());
    }

    /// Moving `k` pages up from a page-aligned address moves its page index
    /// by `k`.
    proof fn lemma_page_of_offset(&self, a: int, k: int)
        requires
            self.base <= a,
            (a - self.base) % (PAGE_SIZE as int) == 0,
            k >= 0,
        ensures
            a - self.base == PAGE_SIZE * self.page_of(a),
            self.page_of(a + PAGE_SIZE * k) == self.page_of(a) + k,
            (a + PAGE_SIZE * k - self.base) % (PAGE_SIZE as int) == 0,
    {
        let d = a - self.base;
        vstd::arithmetic::div_mod::lemma_fundamental_div_mod(d, PAGE_SIZE as int);
        let q = d / (PAGE_SIZE as int);
        assert(d + PAGE_SIZE * k == (q + k) * PAGE_SIZE) by (nonlinear_arith)
            requires
                d == PAGE_SIZE * q + 0,
        ;
        vstd::arithmetic::div_mod::lemma_div_multiples_vanish(q + k, PAGE_SIZE as int);
        vstd::arithmetic::div_mod::lemma_mod_multiples_basic(q + k, PAGE_SIZE as int);
        assert(PAGE_SIZE * (q + k) == (q + k) * PAGE_SIZE) by (nonlinear_arith);
    }

    /// Bytes in a block of order `order`.
    fn block_size(order: usize) -> (r: usize)
        requires
            order < MAX_ORDER,
        ensures
            r == block_bytes(order as int),
    {
        proof {
            lemma_np_pow2(order as int);
            lemma_np_values();
            lemma2_to64();
            assert(PAGE_SIZE * pow2(order as nat) <= usize::MAX) by {
                assert(pow2(order as nat) <= 512) by {
                    if order == 0 {} else if order == 1 {} else if order == 2 {} else if order == 3 {}
                    else if order == 4 {} else if order == 5 {} else if order == 6 {} else if order == 7 {}
                    else if order == 8 {} else {}
                }
            }
            vstd::bits::lemma_usize_shl_is_mul(PAGE_SIZE, order);
        }
        PAGE_SIZE << order
    }

    /// Page index of `addr` from the heap base.
    fn page_idx(&self, addr: usize) -> (r: usize)
        requires
            self.base <= addr,
        ensures
            r == self.page_of(addr as int),
    {
        (addr - self.base) / PAGE_SIZE
    }

    /// Put the block of order `order` at `addr` on its free list and mark its
    /// pages free.
    fn free_push(&mut self, addr: usize, order: usize)
        requires
            old(self).wf_core(),
            old(self).block_ok(order as int, addr as int),
            old(self).block_in_use(order as int, addr as int),
        ensures
            final(self).wf_core(),
            final(self).base == old(self).base,
            final(self).size == old(self).size,
            final(self).free_lists@[order as int]@ == old(self).free_lists@[order as int]@.push(addr),
            forall|o: int| 0 <= o < MAX_ORDER && o != order ==> #[trigger] final(self).free_lists@[o]@ == old(self).free_lists@[o]@,
            forall|p: int| #[trigger] page_bit(final(self).bitmap@, p) == (page_bit(old(self).bitmap@, p) || in_block(
                old(self).page_of(addr as int), order as int, p)),
            final(self).free_bytes == old(self).free_bytes + block_bytes(order as int),
    {
        let ghost s = self.page_of(addr as int);
        let ghost old_self = *self;
        let ghost n0 = self.free_lists@[order as int]@.len();
        let ghost blk = set_int_range(s, s + np(order as int));
        proof {
            self.lemma_free_pages_in_heap();
            lemma_np_values();
            lemma_np_pos(order as int);
            lemma_int_range(s, s + np(order as int));
            lemma_int_range(0, self.heap_pages());
            assert(marked_pages(old_self.bitmap@).disjoint(blk));
            vstd::set_lib::lemma_set_disjoint_lens(marked_pages(old_self.bitmap@), blk);
            assert((marked_pages(old_self.bitmap@) + blk).subset_of(set_int_range(0, self.heap_pages())));
            lemma_len_subset(marked_pages(old_self.bitmap@) + blk, set_int_range(0, self.heap_pages()));
            assert(self.free_bytes + block_bytes(order as int) <= self.size) by (nonlinear_arith)
                requires
                    self.free_bytes == PAGE_SIZE * marked_pages(old_self.bitmap@).len(),
                    marked_pages(old_self.bitmap@).len() + np(order as int) <= self.heap_pages(),
                    block_bytes(order as int) == PAGE_SIZE * np(order as int),
                    PAGE_SIZE * self.heap_pages() <= self.size,
            ;
        }
        let bs = Self::block_size(order);
        self.free_bytes = self.free_bytes + bs;
        self.free_lists[order].push(addr);
        self.bitmap_set_free(addr, order);
        proof {
            lemma_np_pos(order as int);
            assert forall|o: int, j: int| #[trigger] self.valid_ix(o, j) implies (old_self.valid_ix(o, j) && self.free_lists@[o]@[j] == old_self.free_lists@[o]@[j] && self.entry(o, j) == old_self.entry(o, j)) || (o == order && j == n0 && self.entry(o, j) == s) by {
                if o != order {
                    assert(self.free_lists@[o] == old_self.free_lists@[o]);
                }
            }
            assert forall|o: int, j: int| #[trigger] old_self.valid_ix(o, j) implies self.valid_ix(o, j) && self.free_lists@[o]@[j] == old_self.free_lists@[o]@[j] && self.entry(o, j) == old_self.entry(o, j) by {
                if o != order {
                    assert(self.free_lists@[o] == old_self.free_lists@[o]);
                }
            }
            assert(self.valid_ix(order as int, n0 as int) && self.entry(order as int, n0 as int) == s);
            assert forall|o: int, j: int| #[trigger] self.valid_ix(o, j) implies self.block_ok(o, self.free_lists@[o]@[j] as int) by {
                if old_self.valid_ix(o, j) && self.free_lists@[o]@[j] == old_self.free_lists@[o]@[j] {
                    assert(old_self.block_ok(o, old_self.free_lists@[o]@[j] as int));
                }
            }
            assert forall|p: int| #[trigger] page_bit(self.bitmap@, p) <==> self.covered(p) by {
                if page_bit(self.bitmap@, p) {
                    if page_bit(old_self.bitmap@, p) {
                        assert(old_self.covered(p));
                        let (o, j) = choose|o: int, j: int| #[trigger] old_self.valid_ix(o, j) && in_block(old_self.entry(o, j), o, p);
                        assert(self.valid_ix(o, j));
                    } else {
                        assert(self.valid_ix(order as int, n0 as int));
                    }
                }
                if self.covered(p) {
                    let (o, j) = choose|o: int, j: int| #[trigger] self.valid_ix(o, j) && in_block(self.entry(o, j), o, p);
                    if !(o == order && j == n0) {
                        assert(old_self.valid_ix(o, j));
                        assert(old_self.covered(p));
                    }
                }
            }
            assert forall|o1: int, j1: int, o2: int, j2: int|
                self.valid_ix(o1, j1) && self.valid_ix(o2, j2) && (o1 != o2 || j1 != j2) implies self.entry(o1, j1) + np(o1)
                    <= self.entry(o2, j2) || self.entry(o2, j2) + np(o2) <= self.entry(o1, j1) by {
                let new1 = o1 == order && j1 == n0;
                let new2 = o2 == order && j2 == n0;
                if !new1 && !new2 {
                    assert(old_self.valid_ix(o1, j1) && old_self.valid_ix(o2, j2));
                    assert(old_self.entry(o1, j1) + np(o1) <= old_self.entry(o2, j2) || old_self.entry(o2, j2) + np(o2)
                        <= old_self.entry(o1, j1));
                    assert(self.entry(o1, j1) == old_self.entry(o1, j1));
                    assert(self.entry(o2, j2) == old_self.entry(o2, j2));
                } else if new1 {
                    assert(old_self.valid_ix(o2, j2));
                    let e = self.entry(o2, j2);
                    lemma_np_pos(o2);
                    if !(s + np(order as int) <= e || e + np(o2) <= s) {
                        let p = if s < e { e } else { s };
                        assert(in_block(old_self.entry(o2, j2), o2, p));
                        assert(old_self.covered(p));
                        assert(page_bit(old_self.bitmap@, p));
                        assert(in_block(s, order as int, p));
                        assert(!old_self.free_pages().contains(p));
                        assert(false);
                    }
                } else {
                    assert(old_self.valid_ix(o1, j1));
                    let e = self.entry(o1, j1);
                    lemma_np_pos(o1);
                    if !(s + np(order as int) <= e || e + np(o1) <= s) {
                        let p = if s < e { e } else { s };
                        assert(in_block(old_self.entry(o1, j1), o1, p));
                        assert(old_self.covered(p));
                        assert(page_bit(old_self.bitmap@, p));
                        assert(in_block(s, order as int, p));
                        assert(!old_self.free_pages().contains(p));
                        assert(false);
                    }
                }
            }
            assert(marked_pages(self.bitmap@) =~= marked_pages(old_self.bitmap@) + blk);
            assert(self.free_bytes == PAGE_SIZE * marked_pages(self.bitmap@).len()) by (nonlinear_arith)
                requires
                    self.free_bytes == old_self.free_bytes + block_bytes(order as int),
                    old_self.free_bytes == PAGE_SIZE * marked_pages(old_self.bitmap@).len(),
                    marked_pages(self.bitmap@).len() == marked_pages(old_self.bitmap@).len() + np(order as int),
                    block_bytes(order as int) == PAGE_SIZE * np(order as int),
            ;
        }
    }

    /// Take the `j`-th block off the free list of order `order` and mark its
    /// pages in use.
    fn take_entry(&mut self, order: usize, j: usize) -> (addr: usize)
        requires
            old(self).wf_core(),
            order < MAX_ORDER,
            j < old(self).free_lists@[order as int]@.len(),
        ensures
            final(self).wf_core(),
            final(self).base == old(self).base,
            final(self).size == old(self).size,
            addr == old(self).free_lists@[order as int]@[j as int],
            old(self).block_ok(order as int, addr as int),
            forall|p: int| in_block(old(self).page_of(addr as int), order as int, p) ==> #[trigger] page_bit(old(self).bitmap@, p),
            final(self).free_lists@[order as int]@ == old(self).free_lists@[order as int]@.remove(j as int),
            forall|o: int| 0 <= o < MAX_ORDER && o != order ==> #[trigger] final(self).free_lists@[o]@ == old(self).free_lists@[o]@,
            forall|p: int| #[trigger] page_bit(final(self).bitmap@, p) == (page_bit(old(self).bitmap@, p) && !in_block(
                old(self).page_of(addr as int), order as int, p)),
            final(self).free_bytes == old(self).free_bytes - block_bytes(order as int),
    {
        let ghost old_self = *self;
        let ghost a = self.free_lists@[order as int]@[j as int];
        let ghost s = self.page_of(a as int);
        let ghost blk = set_int_range(s, s + np(order as int));
        proof {
            assert(self.valid_ix(order as int, j as int));
            assert(self.block_ok(order as int, a as int));
            self.lemma_free_pages_in_heap();
            lemma_np_values();
            lemma_np_pos(order as int);
            assert forall|p: int| in_block(s, order as int, p) implies #[trigger] page_bit(old_self.bitmap@, p) by {
                assert(self.valid_ix(order as int, j as int));
                assert(self.covered(p));
            }
            lemma_int_range(s, s + np(order as int));
            lemma_marked_finite(old_self.bitmap@);
            assert(blk.subset_of(marked_pages(old_self.bitmap@)));
            lemma_len_subset(blk, marked_pages(old_self.bitmap@));
            assert(self.free_bytes >= block_bytes(order as int)) by (nonlinear_arith)
                requires
                    self.free_bytes == PAGE_SIZE * marked_pages(old_self.bitmap@).len(),
                    np(order as int) <= marked_pages(old_self.bitmap@).len(),
                    block_bytes(order as int) == PAGE_SIZE * np(order as int),
            ;
        }
        let bs = Self::block_size(order);
        self.free_bytes = self.free_bytes - bs;
        let addr = self.free_lists[order].remove(j);
        self.bitmap_set_used(addr, order);
        proof {
            let oi = order as int;
            let ji = j as int;
            assert forall|o: int, k: int| #[trigger] self.valid_ix(o, k) implies old_self.valid_ix(
                o,
                if o == oi && k >= ji { k + 1 } else { k },
            ) && self.free_lists@[o]@[k] == old_self.free_lists@[o]@[if o == oi && k >= ji { k + 1 } else { k }]
                && !(o == oi && (if o == oi && k >= ji { k + 1 } else { k }) == ji) by {
                if o != oi {
                    assert(self.free_lists@[o] == old_self.free_lists@[o]);
                }
            }
            assert forall|o: int, k: int| #[trigger] old_self.valid_ix(o, k) && !(o == oi && k == ji) implies self.valid_ix(
                o,
                if o == oi && k > ji { k - 1 } else { k },
            ) && self.free_lists@[o]@[if o == oi && k > ji { k - 1 } else { k }] == old_self.free_lists@[o]@[k] by {
                if o != oi {
                    assert(self.free_lists@[o] == old_self.free_lists@[o]);
                }
            }
            assert forall|o: int, k: int| #[trigger] self.valid_ix(o, k) implies self.block_ok(o, self.free_lists@[o]@[k] as int) by {
                let k0 = if o == oi && k >= ji { k + 1 } else { k };
                assert(old_self.valid_ix(o, k0));
                assert(old_self.block_ok(o, old_self.free_lists@[o]@[k0] as int));
            }
            assert forall|p: int| #[trigger] page_bit(self.bitmap@, p) <==> self.covered(p) by {
                if page_bit(self.bitmap@, p) {
                    assert(old_self.covered(p));
                    let (o, k) = choose|o: int, k: int| #[trigger] old_self.valid_ix(o, k) && in_block(old_self.entry(o, k), o, p);
                    assert(!(o == oi && k == ji));
                    let k1 = if o == oi && k > ji { k - 1 } else { k };
                    assert(self.valid_ix(o, k1));
                    assert(self.entry(o, k1) == old_self.entry(o, k));
                }
                if self.covered(p) {
                    let (o, k) = choose|o: int, k: int| #[trigger] self.valid_ix(o, k) && in_block(self.entry(o, k), o, p);
                    let k0 = if o == oi && k >= ji { k + 1 } else { k };
                    assert(old_self.valid_ix(o, k0));
                    assert(old_self.entry(o, k0) == self.entry(o, k));
                    assert(old_self.covered(p));
                    if in_block(s, oi, p) {
                        assert(old_self.valid_ix(oi, ji));
                        assert(old_self.entry(oi, ji) == s);
                        lemma_np_pos(o);
                        assert(old_self.entry(o, k0) + np(o) <= old_self.entry(oi, ji) || old_self.entry(oi, ji) + np(oi)
                            <= old_self.entry(o, k0));
                        assert(false);
                    }
                }
            }
            assert forall|o1: int, j1: int, o2: int, j2: int|
                self.valid_ix(o1, j1) && self.valid_ix(o2, j2) && (o1 != o2 || j1 != j2) implies self.entry(o1, j1) + np(o1)
                    <= self.entry(o2, j2) || self.entry(o2, j2) + np(o2) <= self.entry(o1, j1) by {
                let k1 = if o1 == oi && j1 >= ji { j1 + 1 } else { j1 };
                let k2 = if o2 == oi && j2 >= ji { j2 + 1 } else { j2 };
                assert(old_self.valid_ix(o1, k1) && old_self.valid_ix(o2, k2));
                assert(self.entry(o1, j1) == old_self.entry(o1, k1));
                assert(self.entry(o2, j2) == old_self.entry(o2, k2));
            }
            assert(marked_pages(self.bitmap@) =~= marked_pages(old_self.bitmap@).difference(blk));
            assert(marked_pages(old_self.bitmap@) =~= marked_pages(self.bitmap@) + blk);
            lemma_marked_finite(self.bitmap@);
            assert(marked_pages(self.bitmap@).disjoint(blk));
            vstd::set_lib::lemma_set_disjoint_lens(marked_pages(self.bitmap@), blk);
            assert(self.free_bytes == PAGE_SIZE * marked_pages(self.bitmap@).len()) by (nonlinear_arith)
                requires
                    self.free_bytes == old_self.free_bytes - block_bytes(order as int),
                    old_self.free_bytes == PAGE_SIZE * marked_pages(old_self.bitmap@).len(),
                    marked_pages(old_self.bitmap@).len() == marked_pages(self.bitmap@).len() + np(order as int),
                    block_bytes(order as int) == PAGE_SIZE * np(order as int),
            ;
        }
        addr
    }

    /// Take the block handed out next off the free list of order `order`;
    /// `None` when the list is empty.
    fn free_pop(&mut self, order: usize) -> (r: Option<usize>)
        requires
            old(self).wf_core(),
            order < MAX_ORDER,
        ensures
            old(self).free_lists@[order as int]@.len() == 0 ==> r is None && *final(self) == *old(self),
            old(self).free_lists@[order as int]@.len() > 0 ==> {
                let a = old(self).free_lists@[order as int]@.last();
                &&& r == Some(a)
                &&& final(self).wf_core()
                &&& final(self).base == old(self).base
                &&& final(self).size == old(self).size
                &&& old(self).block_ok(order as int, a as int)
                &&& forall|p: int| in_block(old(self).page_of(a as int), order as int, p) ==> #[trigger] page_bit(old(self).bitmap@, p)
                &&& final(self).free_lists@[order as int]@ == old(self).free_lists@[order as int]@.drop_last()
                &&& forall|o: int| 0 <= o < MAX_ORDER && o != order ==> #[trigger] final(self).free_lists@[o]@ == old(self).free_lists@[o]@
                &&& forall|p: int| #[trigger] page_bit(final(self).bitmap@, p) == (page_bit(old(self).bitmap@, p) && !in_block(
                    old(self).page_of(a as int), order as int, p))
                &&& final(self).free_bytes == old(self).free_bytes - block_bytes(order as int)
            },
    {
        let n = self.free_lists[order].len();
        if n == 0 {
            return None;
        }
        let ghost l = self.free_lists@[order as int]@;
        let addr = self.take_entry(order, n - 1);
        assert(l.remove(n - 1) =~= l.drop_last());
        Some(addr)
    }

    /// Take the block at `addr` off the free list of order `order`.
    fn free_remove(&mut self, addr: usize, order: usize)
        requires
            old(self).wf_core(),
            order < MAX_ORDER,
            old(self).free_lists@[order as int]@.contains(addr),
        ensures
            final(self).wf_core(),
            final(self).base == old(self).base,
            final(self).size == old(self).size,
            exists|j: int| 0 <= j < old(self).free_lists@[order as int]@.len() && old(self).free_lists@[order as int]@[j] == addr
                && final(self).free_lists@[order as int]@ == old(self).free_lists@[order as int]@.remove(j),
            forall|o: int| 0 <= o < MAX_ORDER && o != order ==> #[trigger] final(self).free_lists@[o]@ == old(self).free_lists@[o]@,
            forall|p: int| #[trigger] page_bit(final(self).bitmap@, p) == (page_bit(old(self).bitmap@, p) && !in_block(
                old(self).page_of(addr as int), order as int, p)),
            final(self).free_bytes == old(self).free_bytes - block_bytes(order as int),
    {
        let j = position_in(&self.free_lists[order], addr);
        let _ = self.take_entry(order, j);
    }

    /// The heap is a whole number of largest blocks.
    proof fn lemma_heap_aligned(&self)
        requires
            self.size % MAX_BLOCK == 0,
        ensures
            PAGE_SIZE * self.heap_pages() == self.size,
            forall|o: int| 0 <= o < MAX_ORDER ==> self.heap_pages() % #[trigger] np(o) == 0,
    {
        lemma_np_values();
        let m = (self.size / MAX_BLOCK) as int;
        vstd::arithmetic::div_mod::lemma_fundamental_div_mod(self.size as int, MAX_BLOCK as int);
        assert(self.size == PAGE_SIZE * (512 * m)) by (nonlinear_arith)
            requires
                self.size == MAX_BLOCK * m + 0,
        ;
        vstd::arithmetic::div_mod::lemma_div_multiples_vanish(512 * m, PAGE_SIZE as int);
        assert(PAGE_SIZE * (512 * m) == (512 * m) * PAGE_SIZE) by (nonlinear_arith);
        vstd::arithmetic::div_mod::lemma_mod_multiples_basic(m, 512);
        assert(m * 512 == 512 * m) by (nonlinear_arith);
        assert forall|o: int| 0 <= o < MAX_ORDER implies self.heap_pages() % #[trigger] np(o) == 0 by {
            lemma_aligned_weaken(self.heap_pages(), o, 9);
        }
    }

    /// Address of the buddy of the block of order `order` at `addr`.
    fn buddy_of(&self, addr: usize, order: usize) -> (r: usize)
        requires
            order < MAX_ORDER - 1,
            self.block_ok(order as int, addr as int),
            self.size % MAX_BLOCK == 0,
            self.base + self.size <= usize::MAX,
        ensures
            self.block_ok(order as int, r as int),
            self.page_of(r as int) == buddy_page(self.page_of(addr as int), order as int),
    {
        let ghost s = self.page_of(addr as int);
        let ghost o = order as int;
        let ghost k = (order + 12) as usize;
        proof {
            lemma_np_values();
            lemma_np_pos(o);
            self.lemma_page_of_offset(addr as int, 0);
            self.lemma_heap_aligned();
            lemma_np_pow2(o);
            lemma2_to64();
            lemma_pow2_adds(12, order as nat);
            assert(pow2(k as nat) <= 0x200000) by {
                if order == 0 {} else if order == 1 {} else if order == 2 {} else if order == 3 {}
                else if order == 4 {} else if order == 5 {} else if order == 6 {} else if order == 7 {}
                else {}
            }
            vstd::bits::lemma_usize_shl_is_mul(1, k);
        }
        let size = Self::block_size(order);
        let offset = addr - self.base;
        proof {
            assert(size == (1usize << k));
            assert(offset == PAGE_SIZE * s);
            vstd::bits::lemma_usize_shr_is_div(offset, k);
            vstd::arithmetic::div_mod::lemma_div_denominator(offset as int, PAGE_SIZE as int, np(o));
            vstd::arithmetic::div_mod::lemma_div_multiples_vanish(s, PAGE_SIZE as int);
            assert(PAGE_SIZE * s == s * PAGE_SIZE) by (nonlinear_arith);
            assert(offset >> k == s / np(o));
            lemma_xor_bit(offset, k);
            lemma_buddy(s, o);
        }
        let r = self.base + (offset ^ size);
        proof {
            let b = buddy_page(s, o);
            assert(r - self.base == PAGE_SIZE * b) by (nonlinear_arith)
                requires
                    offset == PAGE_SIZE * s,
                    size == PAGE_SIZE * np(o),
                    b == s + np(o) ==> r - self.base == offset + size,
                    b == s - np(o) ==> r - self.base == offset - size,
                    b == s + np(o) || b == s - np(o),
            ;
            vstd::arithmetic::div_mod::lemma_div_multiples_vanish(b, PAGE_SIZE as int);
            vstd::arithmetic::div_mod::lemma_mod_multiples_basic(b, PAGE_SIZE as int);
            assert(PAGE_SIZE * b == b * PAGE_SIZE) by (nonlinear_arith);
            let lo = if s < b { s } else { b };
            lemma_multiple_step(lo, self.heap_pages(), np(o + 1));
        }
        r
    }

    /// Lowest order at least `order` whose free list is not empty, or
    /// `MAX_ORDER` when there is none.
    fn first_nonempty(&self, order: usize) -> (f: usize)
        requires
            self.free_lists@.len() == MAX_ORDER,
            order < MAX_ORDER,
        ensures
            order <= f <= MAX_ORDER,
            forall|o: int| order <= o < f ==> #[trigger] self.free_lists@[o]@.len() == 0,
            f < MAX_ORDER ==> self.free_lists@[f as int]@.len() > 0,
    {
        let mut o = order;
        while o < MAX_ORDER
            invariant
                self.free_lists@.len() == MAX_ORDER,
                order <= o <= MAX_ORDER,
                forall|q: int| order <= q < o ==> #[trigger] self.free_lists@[q]@.len() == 0,
            decreases MAX_ORDER - o,
        {
            if self.free_lists[o].len() > 0 {
                return o;
            }
            o = o + 1;
        }
        MAX_ORDER
    }

    /// Allocate a block of order `order`: take the last block of the lowest
    /// non-empty free list of that order or above, and split it, putting the
    /// upper half back on the free list one order down until the order is
    /// reached. `None`, with nothing changed, when no list is left.
    #[verifier::rlimit(40)]
    fn alloc_order(&mut self, order: usize) -> (r: Option<usize>)
        requires
            old(self).wf(),
            order < MAX_ORDER,
        ensures
            final(self).wf(),
            final(self).base == old(self).base,
            final(self).size == old(self).size,
            r is None <==> forall|o: int| order <= o < MAX_ORDER ==> #[trigger] old(self).free_lists@[o]@.len() == 0,
            r is None ==> *final(self) == *old(self),
            r matches Some(a) ==> {
                &&& old(self).block_ok(order as int, a as int)
                &&& forall|p: int| in_block(old(self).page_of(a as int), order as int, p) ==> #[trigger] page_bit(old(self).bitmap@, p)
                &&& forall|p: int| #[trigger] page_bit(final(self).bitmap@, p) == (page_bit(old(self).bitmap@, p) && !in_block(
                    old(self).page_of(a as int), order as int, p))
                &&& final(self).free_bytes == old(self).free_bytes - block_bytes(order as int)
                &&& exists|f: int| #![trigger old(self).free_lists@[f]]
                    order <= f < MAX_ORDER && old(self).free_lists@[f]@.len() > 0 && (forall|o: int|
                    order <= o < f ==> #[trigger] old(self).free_lists@[o]@.len() == 0) && a == old(self).free_lists@[f]@.last()
                    && final(self).free_lists@[f]@ == old(self).free_lists@[f]@.drop_last() && (forall|c: int|
                    order <= c < f ==> #[trigger] final(self).free_lists@[c]@ == old(self).free_lists@[c]@.push(
                    (a + block_bytes(c)) as usize)) && (forall|o: int|
                    0 <= o < MAX_ORDER && (o < order || o > f) ==> #[trigger] final(self).free_lists@[o]@
                    == old(self).free_lists@[o]@)
            },
    {
        let f = self.first_nonempty(order);
        if f == MAX_ORDER {
            return None;
        }
        let ghost old_self = *self;
        let popped = self.free_pop(f);
        let addr = match popped {
            Some(a) => a,
            None => {
                assert(false);
                return None;
            },
        };
        let ghost s = old_self.page_of(addr as int);
        proof {
            lemma_np_values();
            lemma_np_pos(f as int);
            assert(old_self.block_ok(f as int, addr as int));
        }
        let mut current = f;
        while current > order
            invariant
                order <= current <= f < MAX_ORDER,
                self.wf_core(),
                old_self.wf(),
                self.base == old_self.base,
                self.size == old_self.size,
                s == old_self.page_of(addr as int),
                old_self.block_ok(f as int, addr as int),
                forall|p: int| in_block(s, f as int, p) ==> #[trigger] page_bit(old_self.bitmap@, p),
                forall|p: int| #[trigger] page_bit(self.bitmap@, p) == (page_bit(old_self.bitmap@, p) && !in_block(s, current as int, p)),
                self.free_bytes == old_self.free_bytes - block_bytes(current as int),
                self.free_lists@[f as int]@ == old_self.free_lists@[f as int]@.drop_last(),
                forall|c: int| current <= c < f ==> #[trigger] self.free_lists@[c]@ == old_self.free_lists@[c]@.push(
                    (addr + block_bytes(c)) as usize),
                forall|o: int| 0 <= o < MAX_ORDER && (o < current || o > f) ==> #[trigger] self.free_lists@[o]@
                    == old_self.free_lists@[o]@,
            decreases current,
        {
            current = current - 1;
            let ghost c = current as int;
            proof {
                lemma_np_mono(c + 1, f as int);
                lemma_aligned_weaken(s, c + 1, f as int);
                lemma_upper_half(s, c);
                assert(np(c + 1) == 2 * np(c));
                lemma_np_pos(c);
                old_self.lemma_page_of_offset(addr as int, np(c));
            }
            let bs = Self::block_size(current);
            let buddy_addr = addr + bs;
            proof {
                assert(self.page_of(buddy_addr as int) == s + np(c));
                assert(self.block_ok(c, buddy_addr as int));
                assert forall|p: int| in_block(self.page_of(buddy_addr as int), c, p) implies !self.free_pages().contains(p) by {
                    assert(in_block(s, c + 1, p));
                }
            }
            self.free_push(buddy_addr, current);
            proof {
                assert forall|p: int| #[trigger] page_bit(self.bitmap@, p) == (page_bit(old_self.bitmap@, p) && !in_block(s, c, p)) by {
                    if in_block(s + np(c), c, p) {
                        assert(in_block(s, f as int, p));
                    }
                }
            }
        }
        proof {
            self.lemma_alloc_maximal(old_self, addr, order as int, f as int);
            lemma_np_mono(order as int, f as int);
            lemma_aligned_weaken(s, order as int, f as int);
            assert(old_self.block_ok(order as int, addr as int));
            assert(old_self.free_lists@[f as int]@.len() > 0);
            assert(addr == old_self.free_lists@[f as int]@.last());
        }
        Some(addr)
    }

    /// After a split, the free blocks are still maximal: the untouched ones
    /// keep a page in use in their buddy, and each new upper half has the
    /// allocated block's first page in its buddy.
    proof fn lemma_alloc_maximal(&self, old_self: Self, addr: usize, order: int, f: int)
        requires
            old_self.wf(),
            self.wf_core(),
            self.base == old_self.base,
            0 <= order <= f < MAX_ORDER,
            old_self.free_lists@[f]@.len() > 0,
            addr == old_self.free_lists@[f]@.last(),
            forall|o: int| order <= o < f ==> #[trigger] old_self.free_lists@[o]@.len() == 0,
            forall|p: int| in_block(old_self.page_of(addr as int), f, p) ==> #[trigger] page_bit(old_self.bitmap@, p),
            forall|p: int| #[trigger] page_bit(self.bitmap@, p) == (page_bit(old_self.bitmap@, p) && !in_block(
                old_self.page_of(addr as int), order, p)),
            self.free_lists@[f]@ == old_self.free_lists@[f]@.drop_last(),
            forall|c: int| order <= c < f ==> #[trigger] self.free_lists@[c]@ == old_self.free_lists@[c]@.push(
                (addr + block_bytes(c)) as usize),
            forall|o: int| 0 <= o < MAX_ORDER && (o < order || o > f) ==> #[trigger] self.free_lists@[o]@
                == old_self.free_lists@[o]@,
        ensures
            self.maximal(),
    {
        let s = old_self.page_of(addr as int);
        let nf = old_self.free_lists@[f]@.len() - 1;
        assert(old_self.valid_ix(f, nf));
        assert(old_self.block_ok(f, addr as int));
        lemma_np_pos(order);
        assert forall|o: int, j: int| #[trigger] self.valid_ix(o, j) && o < MAX_ORDER - 1 implies exists|p: int|
            in_block(buddy_page(self.entry(o, j), o), o, p) && !page_bit(self.bitmap@, p) by {
            if order <= o < f {
                assert(j == 0);
                lemma_np_mono(o + 1, f);
                lemma_aligned_weaken(s, o + 1, f);
                lemma_upper_half(s, o);
                lemma_np_pos(o);
                old_self.lemma_page_of_offset(addr as int, np(o));
                assert(addr + block_bytes(o) <= old_self.base + old_self.size) by (nonlinear_arith)
                    requires
                        addr - old_self.base == PAGE_SIZE * s,
                        s + np(f) <= old_self.heap_pages(),
                        np(o + 1) <= np(f),
                        np(o + 1) == 2 * np(o),
                        block_bytes(o) == PAGE_SIZE * np(o),
                        PAGE_SIZE * old_self.heap_pages() <= old_self.size,
                        np(o) >= 1,
                ;
                assert(self.free_lists@[o]@[j] == (addr + block_bytes(o)) as usize);
                assert(self.entry(o, j) == s + np(o));
                assert(in_block(buddy_page(self.entry(o, j), o), o, s));
                assert(!page_bit(self.bitmap@, s));
            } else {
                assert(self.free_lists@[o]@[j] == old_self.free_lists@[o]@[j]);
                assert(old_self.valid_ix(o, j));
                assert(self.entry(o, j) == old_self.entry(o, j));
                assert(!(o == f && j == nf));
                let q = choose|q: int| in_block(buddy_page(old_self.entry(o, j), o), o, q) && !page_bit(old_self.bitmap@, q);
                assert(!in_block(s, f, q));
                assert(!page_bit(self.bitmap@, q));
            }
        }
    }

    /// Every free block of this state was a free block of `old`.
    spec fn entries_from(&self, old: Self) -> bool {
        forall|o: int, j: int| #[trigger] self.valid_ix(o, j) ==> exists|j0: int|
            #[trigger] old.valid_ix(o, j0) && old.free_lists@[o]@[j0] == self.free_lists@[o]@[j]
    }

    /// While merging: when the buddy of the block being freed is entirely
    /// free, it is a free block of the same order.
    proof fn lemma_free_buddy_listed(&self, old: Self, a: usize, o: int, ba: usize)
        requires
            self.wf_core(),
            old.wf(),
            self.base == old.base,
            self.entries_from(old),
            forall|p: int| #[trigger] page_bit(self.bitmap@, p) ==> page_bit(old.bitmap@, p),
            0 <= o < MAX_ORDER - 1,
            self.block_ok(o, a as int),
            self.block_in_use(o, a as int),
            self.block_ok(o, ba as int),
            self.page_of(ba as int) == buddy_page(self.page_of(a as int), o),
            forall|p: int| in_block(self.page_of(ba as int), o, p) ==> #[trigger] page_bit(self.bitmap@, p),
        ensures
            self.free_lists@[o]@.contains(ba),
    {
        let sa = self.page_of(a as int);
        let b = self.page_of(ba as int);
        lemma_np_pos(o);
        lemma_buddy(sa, o);
        assert(in_block(b, o, b));
        assert(page_bit(self.bitmap@, b));
        assert(self.covered(b));
        let (o2, j2) = choose|o2: int, j2: int| #[trigger] self.valid_ix(o2, j2) && in_block(self.entry(o2, j2), o2, b);
        let e2 = self.entry(o2, j2);
        assert(self.block_ok(o2, self.free_lists@[o2]@[j2] as int));
        if o2 > o {
            let lo = parent_page(sa, o);
            lemma_np_mono(o + 1, o2);
            lemma_overlap_nested(lo, o + 1, e2, o2, b);
            assert(in_block(lo, o + 1, sa));
            assert(in_block(e2, o2, sa));
            assert(self.covered(sa));
            assert(in_block(sa, o, sa));
            assert(!self.free_pages().contains(sa));
            assert(false);
        } else if o2 < o {
            lemma_aligned_weaken(b, o2, o);
            lemma_nested(e2, o2, b, o);
            assert(e2 == b);
            let j0 = choose|j0: int| #[trigger] old.valid_ix(o2, j0) && old.free_lists@[o2]@[j0] == self.free_lists@[o2]@[j2];
            assert(old.entry(o2, j0) == e2);
            let q = choose|q: int| in_block(buddy_page(old.entry(o2, j0), o2), o2, q) && !page_bit(old.bitmap@, q);
            lemma_buddy(e2, o2);
            lemma_np_mono(o2 + 1, o);
            lemma_aligned_weaken(b, o2 + 1, o);
            let lo2 = parent_page(e2, o2);
            if lo2 != e2 {
                lemma_multiple_step(lo2, e2, np(o2 + 1));
                assert(false);
            }
            lemma_overlap_nested(e2, o2 + 1, b, o, e2);
            assert(in_block(e2, o2 + 1, q));
            assert(page_bit(self.bitmap@, q));
            assert(false);
        } else {
            if e2 < b {
                lemma_nested(e2, o, b, o);
                assert(false);
            }
            self.lemma_page_of_offset(ba as int, 0);
            self.lemma_page_of_offset(self.free_lists@[o]@[j2] as int, 0);
            assert(self.free_lists@[o]@[j2] == ba);
        }
    }

    /// After the last merge and the push of the merged block, every free
    /// block is maximal again.
    proof fn lemma_coalesce_maximal(&self, pre: Self, old: Self, a: usize, o: int)
        requires
            old.wf(),
            pre.wf_core(),
            self.wf_core(),
            pre.base == old.base,
            self.base == old.base,
            pre.entries_from(old),
            0 <= o < MAX_ORDER,
            pre.block_ok(o, a as int),
            pre.block_in_use(o, a as int),
            self.free_lists@[o]@ == pre.free_lists@[o]@.push(a),
            forall|o2: int| 0 <= o2 < MAX_ORDER && o2 != o ==> #[trigger] self.free_lists@[o2]@ == pre.free_lists@[o2]@,
            forall|p: int| #[trigger] page_bit(self.bitmap@, p) == (page_bit(pre.bitmap@, p) || in_block(pre.page_of(a as int), o, p)),
            forall|p: int| #[trigger] page_bit(pre.bitmap@, p) == (page_bit(old.bitmap@, p) && !in_block(pre.page_of(a as int), o, p)),
            o < MAX_ORDER - 1 ==> exists|p: int| in_block(buddy_page(pre.page_of(a as int), o), o, p) && !page_bit(pre.bitmap@, p),
        ensures
            self.maximal(),
    {
        let sa = pre.page_of(a as int);
        let n0 = pre.free_lists@[o]@.len();
        lemma_np_pos(o);
        lemma_buddy(sa, o);
        assert forall|oe: int, j: int| #[trigger] self.valid_ix(oe, j) && oe < MAX_ORDER - 1 implies exists|p: int|
            in_block(buddy_page(self.entry(oe, j), oe), oe, p) && !page_bit(self.bitmap@, p) by {
            if oe == o && j == n0 {
                assert(self.entry(oe, j) == sa);
                let p = choose|p: int| in_block(buddy_page(sa, o), o, p) && !page_bit(pre.bitmap@, p);
                let b = buddy_page(sa, o);
                if in_block(sa, o, p) {
                    if b < sa {
                        lemma_nested(b, o, sa, o);
                    } else {
                        lemma_nested(sa, o, b, o);
                    }
                    assert(false);
                }
                assert(!page_bit(self.bitmap@, p));
            } else {
                if oe != o {
                    assert(self.free_lists@[oe]@ == pre.free_lists@[oe]@);
                }
                assert(pre.valid_ix(oe, j));
                assert(self.free_lists@[oe]@[j] == pre.free_lists@[oe]@[j]);
                let e = pre.entry(oe, j);
                assert(self.entry(oe, j) == e);
                assert(pre.block_ok(oe, pre.free_lists@[oe]@[j] as int));
                let j0 = choose|j0: int| #[trigger] old.valid_ix(oe, j0) && old.free_lists@[oe]@[j0] == pre.free_lists@[oe]@[j];
                assert(old.entry(oe, j0) == e);
                let q = choose|q: int| in_block(buddy_page(old.entry(oe, j0), oe), oe, q) && !page_bit(old.bitmap@, q);
                let r = buddy_page(e, oe);
                lemma_buddy(e, oe);
                lemma_np_pos(oe);
                if !in_block(sa, o, q) {
                    assert(!page_bit(self.bitmap@, q));
                } else if oe < o {
                    lemma_overlap_nested(r, oe, sa, o, q);
                    let lo = parent_page(e, oe);
                    lemma_np_mono(oe + 1, o);
                    assert(in_block(lo, oe + 1, r));
                    lemma_overlap_nested(lo, oe + 1, sa, o, r);
                    assert(in_block(lo, oe + 1, e));
                    assert(in_block(sa, o, e));
                    assert(in_block(e, oe, e));
                    assert(pre.covered(e));
                    assert(page_bit(pre.bitmap@, e));
                    assert(false);
                } else if oe == o {
                    if r < sa {
                        lemma_nested(r, o, sa, o);
                    } else if sa < r {
                        lemma_nested(sa, o, r, o);
                    }
                    assert(r == sa);
                    assert(e == buddy_page(sa, o));
                    let p = choose|p: int| in_block(buddy_page(sa, o), o, p) && !page_bit(pre.bitmap@, p);
                    assert(pre.covered(p));
                    assert(false);
                } else {
                    lemma_overlap_nested(sa, o, r, oe, q);
                    let lo = parent_page(sa, o);
                    lemma_np_mono(o + 1, oe);
                    assert(in_block(lo, o + 1, sa));
                    lemma_overlap_nested(lo, o + 1, r, oe, sa);
                    let p = choose|p: int| in_block(buddy_page(sa, o), o, p) && !page_bit(pre.bitmap@, p);
                    assert(in_block(lo, o + 1, p));
                    assert(in_block(r, oe, p));
                    let b = buddy_page(sa, o);
                    if in_block(sa, o, p) {
                        if b < sa {
                            lemma_nested(b, o, sa, o);
                        } else {
                            lemma_nested(sa, o, b, o);
                        }
                        assert(false);
                    }
                    assert(!page_bit(self.bitmap@, p));
                }
            }
        }
    }

    /// Free the block of order `order` at `addr`: while its buddy is entirely
    /// free, take the buddy off its list and merge; then put the merged block
    /// on its list.
    #[verifier::rlimit(60)]
    fn free_coalesce(&mut self, addr: usize, order: usize)
        requires
            old(self).wf(),
            old(self).block_ok(order as int, addr as int),
            old(self).block_in_use(order as int, addr as int),
        ensures
            final(self).wf(),
            final(self).base == old(self).base,
            final(self).size == old(self).size,
            forall|p: int| #[trigger] page_bit(final(self).bitmap@, p) == (page_bit(old(self).bitmap@, p) || in_block(
                old(self).page_of(addr as int), order as int, p)),
            final(self).free_bytes == old(self).free_bytes + block_bytes(order as int),
    {
        let ghost old_self = *self;
        let ghost s0 = self.page_of(addr as int);
        let ghost o0 = order as int;
        let mut a = addr;
        let mut o = order;
        let mut done = false;
        proof {
            lemma_np_values();
            assert forall|oo: int, j: int| #[trigger] self.valid_ix(oo, j) implies exists|j0: int|
                #[trigger] old_self.valid_ix(oo, j0) && old_self.free_lists@[oo]@[j0] == self.free_lists@[oo]@[j] by {
                assert(old_self.valid_ix(oo, j));
            }
            assert forall|p: int| in_block(s0, o0, p) implies !page_bit(old_self.bitmap@, p) by {
                assert(!old_self.free_pages().contains(p));
            }
        }
        while !done && o < MAX_ORDER - 1
            invariant
                self.wf_core(),
                old_self.wf(),
                self.base == old_self.base,
                self.size == old_self.size,
                o0 <= o < MAX_ORDER,
                s0 == old_self.page_of(addr as int),
                self.block_ok(o as int, a as int),
                self.block_in_use(o as int, a as int),
                forall|p: int| in_block(s0, o0, p) ==> in_block(self.page_of(a as int), o as int, p),
                forall|p: int| #[trigger] page_bit(self.bitmap@, p) == (page_bit(old_self.bitmap@, p) && !in_block(
                    self.page_of(a as int), o as int, p)),
                forall|p: int| in_block(self.page_of(a as int), o as int, p) && !in_block(s0, o0, p) ==> #[trigger] page_bit(
                    old_self.bitmap@, p),
                self.free_bytes + block_bytes(o as int) == old_self.free_bytes + block_bytes(o0),
                self.entries_from(old_self),
                done ==> o < MAX_ORDER - 1 && exists|p: int| in_block(buddy_page(self.page_of(a as int), o as int), o as int, p)
                    && !page_bit(self.bitmap@, p),
            decreases MAX_ORDER - o, (if done { 0int } else { 1int }),
        {
            let buddy = self.buddy_of(a, o);
            if buddy < self.base || buddy >= self.base + self.size {
                done = true;
                proof {
                    lemma_np_pos(o as int);
                    self.lemma_page_of_offset(buddy as int, 0);
                    assert(false);
                }
            } else if !self.bitmap_is_free(buddy, o) {
                done = true;
            } else {
                let ghost pre = *self;
                let ghost sa = self.page_of(a as int);
                let ghost b = self.page_of(buddy as int);
                let ghost oi = o as int;
                proof {
                    self.lemma_heap_aligned();
                    self.lemma_free_buddy_listed(old_self, a, oi, buddy);
                }
                self.free_remove(buddy, o);
                if buddy < a {
                    a = buddy;
                }
                o = o + 1;
                proof {
                    lemma_np_pos(oi);
                    lemma_buddy(sa, oi);
                    let lo = parent_page(sa, oi);
                    pre.lemma_page_of_offset(a as int, 0);
                    pre.lemma_page_of_offset(buddy as int, 0);
                    assert(self.page_of(a as int) == lo) by {
                        if b < sa {
                            lemma_nested(b, oi, sa, oi);
                            assert(buddy < pre.base + PAGE_SIZE * sa) by (nonlinear_arith)
                                requires
                                    buddy - pre.base == PAGE_SIZE * b,
                                    b < sa,
                            ;
                        } else {
                            lemma_nested(sa, oi, b, oi);
                            assert(buddy >= pre.base + PAGE_SIZE * sa) by (nonlinear_arith)
                                requires
                                    buddy - pre.base == PAGE_SIZE * b,
                                    b >= sa,
                            ;
                        }
                    }
                    assert(lo < self.heap_pages());
                    lemma_multiple_step(lo, self.heap_pages(), np(oi + 1));
                    assert(self.block_ok(oi + 1, a as int));
                    assert forall|p: int| in_block(self.page_of(a as int), oi + 1, p) && !in_block(s0, o0, p) implies #[trigger] page_bit(
                        old_self.bitmap@, p) by {
                        if in_block(b, oi, p) {
                            assert(page_bit(pre.bitmap@, p));
                        }
                    }
                    assert forall|p: int| in_block(self.page_of(a as int), oi + 1, p) implies !self.free_pages().contains(p) by {
                        if in_block(sa, oi, p) {
                            assert(!pre.free_pages().contains(p));
                        }
                    }
                    assert forall|oo: int, j: int| #[trigger] self.valid_ix(oo, j) implies exists|j0: int|
                        #[trigger] old_self.valid_ix(oo, j0) && old_self.free_lists@[oo]@[j0] == self.free_lists@[oo]@[j] by {
                        if oo != oi {
                            assert(self.free_lists@[oo]@ == pre.free_lists@[oo]@);
                            assert(pre.valid_ix(oo, j));
                        } else {
                            let jr = choose|jr: int| 0 <= jr < pre.free_lists@[oi]@.len() && pre.free_lists@[oi]@[jr] == buddy
                                && self.free_lists@[oi]@ == pre.free_lists@[oi]@.remove(jr);
                            let jp = if j < jr { j } else { j + 1 };
                            assert(pre.valid_ix(oo, jp));
                            assert(self.free_lists@[oo]@[j] == pre.free_lists@[oo]@[jp]);
                        }
                    }
                }
            }
        }
        let ghost pre = *self;
        proof {
            assert forall|p: int| in_block(self.page_of(a as int), o as int, p) implies !self.free_pages().contains(p) by {}
        }
        self.free_push(a, o);
        proof {
            self.lemma_coalesce_maximal(pre, old_self, a, o as int);
            assert forall|p: int| #[trigger] page_bit(self.bitmap@, p) == (page_bit(old_self.bitmap@, p) || in_block(s0, o0, p)) by {
                if in_block(pre.page_of(a as int), o as int, p) && !in_block(s0, o0, p) {
                    assert(page_bit(old_self.bitmap@, p));
                }
                if in_block(s0, o0, p) {
                    assert(in_block(pre.page_of(a as int), o as int, p));
                }
            }
        }
    }

    /// Mark the pages of the block of order `order` at `addr` free.
    fn bitmap_set_free(&mut self, addr: usize, order: usize)
        requires
            old(self).bitmap@.len() == BITMAP_WORDS,
            old(self).base <= addr,
            order < MAX_ORDER,
            old(self).page_of(addr as int) + np(order as int) <= N_PAGES,
        ensures
            final(self).bitmap@.len() == BITMAP_WORDS,
            forall|p: int| #[trigger] page_bit(final(self).bitmap@, p) == (page_bit(old(self).bitmap@, p) || in_block(
                old(self).page_of(addr as int), order as int, p)),
            final(self).base == old(self).base,
            final(self).size == old(self).size,
            final(self).free_lists == old(self).free_lists,
            final(self).free_bytes == old(self).free_bytes,
    {
        proof {
            lemma_np_pow2(order as int);
            lemma_np_values();
            lemma2_to64();
            vstd::bits::lemma_usize_shl_is_mul(1, order);
        }
        let pages: usize = 1 << order;
        let start = self.page_idx(addr);
        let ghost s = start as int;
        let mut i = start;
        while i < start + pages
            invariant
                s == start,
                start + pages <= N_PAGES,
                pages == np(order as int),
                start <= i <= start + pages,
                self.bitmap@.len() == BITMAP_WORDS,
                self.base == old(self).base,
                self.size == old(self).size,
                self.free_lists == old(self).free_lists,
                self.free_bytes == old(self).free_bytes,
                forall|p: int| #[trigger] page_bit(self.bitmap@, p) == (page_bit(old(self).bitmap@, p) || (s <= p < i)),
            decreases start + pages - i,
        {
            if i / 64 < BITMAP_WORDS {
                let w = i / 64;
                let b = (i % 64) as u64;
                let ghost before = self.bitmap@;
                let v = self.bitmap[w] | (1u64 << b);
                self.bitmap.set(w, v);
                proof {
                    assert forall|p: int| #[trigger] page_bit(self.bitmap@, p) == (page_bit(before, p) || p == i) by {
                        if 0 <= p < 64 * BITMAP_WORDS {
                            lemma_bit_or(before[w as int], b, (p % 64) as u64);
                        }
                    }
                }
            }
            i = i + 1;
        }
    }

    /// Mark the pages of the block of order `order` at `addr` in use.
    fn bitmap_set_used(&mut self, addr: usize, order: usize)
        requires
            old(self).bitmap@.len() == BITMAP_WORDS,
            old(self).base <= addr,
            order < MAX_ORDER,
            old(self).page_of(addr as int) + np(order as int) <= N_PAGES,
        ensures
            final(self).bitmap@.len() == BITMAP_WORDS,
            forall|p: int| #[trigger] page_bit(final(self).bitmap@, p) == (page_bit(old(self).bitmap@, p) && !in_block(
                old(self).page_of(addr as int), order as int, p)),
            final(self).base == old(self).base,
            final(self).size == old(self).size,
            final(self).free_lists == old(self).free_lists,
            final(self).free_bytes == old(self).free_bytes,
    {
        proof {
            lemma_np_pow2(order as int);
            lemma_np_values();
            lemma2_to64();
            vstd::bits::lemma_usize_shl_is_mul(1, order);
        }
        let pages: usize = 1 << order;
        let start = self.page_idx(addr);
        let ghost s = start as int;
        let mut i = start;
        while i < start + pages
            invariant
                s == start,
                start + pages <= N_PAGES,
                pages == np(order as int),
                start <= i <= start + pages,
                self.bitmap@.len() == BITMAP_WORDS,
                self.base == old(self).base,
                self.size == old(self).size,
                self.free_lists == old(self).free_lists,
                self.free_bytes == old(self).free_bytes,
                forall|p: int| #[trigger] page_bit(self.bitmap@, p) == (page_bit(old(self).bitmap@, p) && !(s <= p < i)),
            decreases start + pages - i,
        {
            if i / 64 < BITMAP_WORDS {
                let w = i / 64;
                let b = (i % 64) as u64;
                let ghost before = self.bitmap@;
                let v = self.bitmap[w] & !(1u64 << b);
                self.bitmap.set(w, v);
                proof {
                    assert forall|p: int| #[trigger] page_bit(self.bitmap@, p) == (page_bit(before, p) && p != i) by {
                        if 0 <= p < 64 * BITMAP_WORDS {
                            lemma_bit_clear(before[w as int], b, (p % 64) as u64);
                        }
                    }
                }
            }
            i = i + 1;
        }
    }

    /// Whether every page of the block of order `order` at `addr` is free.
    fn bitmap_is_free(&self, addr: usize, order: usize) -> (r: bool)
        requires
            self.bitmap@.len() == BITMAP_WORDS,
            self.base <= addr,
            order < MAX_ORDER,
            self.page_of(addr as int) + np(order as int) <= N_PAGES,
        ensures
            r == forall|p: int| in_block(self.page_of(addr as int), order as int, p) ==> #[trigger] page_bit(self.bitmap@, p),
    {
        proof {
            lemma_np_pow2(order as int);
            lemma_np_values();
            lemma2_to64();
            vstd::bits::lemma_usize_shl_is_mul(1, order);
        }
        let pages: usize = 1 << order;
        let start = self.page_idx(addr);
        let mut i = start;
        while i < start + pages
            invariant
                start == self.page_of(addr as int),
                start + pages <= N_PAGES,
                pages == np(order as int),
                start <= i <= start + pages,
                self.bitmap@.len() == BITMAP_WORDS,
                forall|p: int| start <= p < i ==> #[trigger] page_bit(self.bitmap@, p),
            decreases start + pages - i,
        {
            if i / 64 >= BITMAP_WORDS {
                assert(!page_bit(self.bitmap@, i as int));
                return false;
            }
            let w = i / 64;
            let b = (i % 64) as u64;
            proof {
                lemma_bit_test(self.bitmap@[w as int], b);
            }
            if self.bitmap[w] & (1u64 << b) == 0 {
                assert(!page_bit(self.bitmap@, i as int));
                return false;
            }
            i = i + 1;
        }
        true
    }

    // ── Public interface ────────────────────────────────────────────────────

    /// `next` and `r` are what `alloc_block(size, align)` leaves and gives
    /// back for a request of at least one byte: nothing, and no change,
    /// when no list from the request's order up holds a block; else the
    /// last block of the first such list, split down to the order, and in
    /// use.
    pub open spec fn alloc_outcome(self, next: Self, size: usize, align: usize, r: Option<usize>) -> bool {
        let o = size_order(if size > align { size as int } else { align as int });
        &&& r is None <==> forall|q: int| o <= q < MAX_ORDER ==> #[trigger] self.free_list(q).len() == 0
        &&& r is None ==> next == self
        &&& r matches Some(a) ==> {
            &&& self.alloc_effect(next, o, a)
            &&& next.block_ok(o, a as int)
            &&& next.block_in_use(o, a as int)
            &&& exists|f: int| #![trigger self.free_list(f)]
                o <= f < MAX_ORDER && self.free_list(f).len() > 0 && (forall|q: int|
                o <= q < f ==> #[trigger] self.free_list(q).len() == 0) && a == self.free_list(f).last()
                && next.free_list(f) == self.free_list(f).drop_last() && (forall|c: int|
                o <= c < f ==> #[trigger] next.free_list(c) == self.free_list(c).push(
                (a + block_bytes(c)) as usize)) && (forall|q: int|
                0 <= q < MAX_ORDER && (q < o || q > f) ==> #[trigger] next.free_list(q) == self.free_list(q))
        }
    }

    /// The block of order `o` at `a` was free in `self` and is in use in
    /// `next`; nothing else changed in the free pages.
    pub open spec fn alloc_effect(self, next: Self, o: int, a: usize) -> bool {
        &&& next.base_addr() == self.base_addr()
        &&& next.heap_size() == self.heap_size()
        &&& self.block_ok(o, a as int)
        &&& block_pages(self.page_of(a as int), o).subset_of(self.free_pages())
        &&& next.free_pages() == self.free_pages().difference(block_pages(self.page_of(a as int), o))
        &&& next.free_byte_count() == self.free_byte_count() - block_bytes(o)
    }

    /// The pages of the block of order `o` at `a` are free in `next`; nothing
    /// else changed in the free pages.
    pub open spec fn free_effect(self, next: Self, o: int, a: usize) -> bool {
        &&& next.base_addr() == self.base_addr()
        &&& next.heap_size() == self.heap_size()
        &&& next.free_pages() == self.free_pages().union(block_pages(self.page_of(a as int), o))
        &&& next.free_byte_count() == self.free_byte_count() + block_bytes(o)
    }

    /// An empty allocator managing no memory.
    pub fn new() -> (r: Self)
        ensures
            r.wf(),
            r.base_addr() == 0,
            r.heap_size() == 0,
            r.free_pages() == Set::<int>::empty(),
            r.free_byte_count() == 0,
            forall|o: int| 0 <= o < MAX_ORDER ==> #[trigger] r.free_list(o).len() == 0,
    {
        let r = BuddyAllocator { base: 0, size: 0, free_lists: empty_lists(), bitmap: zero_bitmap(), free_bytes: 0 };
        proof {
            assert forall|p: int| !(#[trigger] page_bit(r.bitmap@, p)) by {
                if 0 <= p < 64 * BITMAP_WORDS {
                    let c = (p % 64) as u64;
                    assert((0u64 >> c) & 1u64 == 0u64) by (bit_vector);
                }
            }
            assert(marked_pages(r.bitmap@) =~= Set::<int>::empty());
        }
        r
    }

    /// Manage the heap `[base, base + size)`: every block of the largest
    /// order in it goes on the free list of that order, lowest first.
    pub fn init(&mut self, base: usize, size: usize)
        requires
            base % MAX_BLOCK == 0,
            size % MAX_BLOCK == 0,
            size <= BUDDY_HEAP_SIZE,
            base + size <= usize::MAX,
        ensures
            final(self).wf(),
            final(self).base_addr() == base,
            final(self).heap_size() == size,
            final(self).free_pages() == set_int_range(0, size as int / PAGE_SIZE as int),
            final(self).free_byte_count() == size,
            final(self).free_list(MAX_ORDER - 1) == Seq::new(
                (size / MAX_BLOCK) as nat,
                |k: int| (base + k * MAX_BLOCK) as usize,
            ),
            forall|o: int| 0 <= o < MAX_ORDER - 1 ==> #[trigger] final(self).free_list(o).len() == 0,
    {
        self.base = base;
        self.size = size;
        self.free_lists = empty_lists();
        self.bitmap = zero_bitmap();
        self.free_bytes = 0;
        proof {
            assert forall|p: int| !(#[trigger] page_bit(self.bitmap@, p)) by {
                if 0 <= p < 64 * BITMAP_WORDS {
                    let c = (p % 64) as u64;
                    assert((0u64 >> c) & 1u64 == 0u64) by (bit_vector);
                }
            }
            assert(marked_pages(self.bitmap@) =~= Set::<int>::empty());
            lemma_np_values();
            self.lemma_heap_aligned();
        }
        let mut offset: usize = 0;
        while offset + MAX_BLOCK <= size
            invariant
                self.wf_core(),
                self.base == base,
                self.size == size,
                base + size <= usize::MAX,
                offset % MAX_BLOCK == 0,
                offset <= size,
                PAGE_SIZE * self.heap_pages() == size,
                self.free_lists@[MAX_ORDER - 1]@ == Seq::new(
                    (offset / MAX_BLOCK) as nat,
                    |k: int| (base + k * MAX_BLOCK) as usize,
                ),
                forall|o: int| 0 <= o < MAX_ORDER - 1 ==> #[trigger] self.free_lists@[o]@.len() == 0,
                forall|p: int| #[trigger] page_bit(self.bitmap@, p) == (0 <= p < offset as int / PAGE_SIZE as int),
            decreases size - offset,
        {
            let ghost k = offset / MAX_BLOCK;
            let ghost pre = *self;
            proof {
                lemma_np_values();
                assert(offset == MAX_BLOCK * k);
                assert(offset as int / PAGE_SIZE as int == 512 * k);
                assert(self.page_of((base + offset) as int) == 512 * k);
                vstd::arithmetic::div_mod::lemma_mod_multiples_basic(k as int, 512);
                assert(self.block_ok(9, (base + offset) as int));
            }
            self.free_push(base + offset, MAX_ORDER - 1);
            offset = offset + MAX_BLOCK;
            proof {
                assert(self.free_lists@[MAX_ORDER - 1]@ =~= Seq::new(
                    (offset / MAX_BLOCK) as nat,
                    |k: int| (base + k * MAX_BLOCK) as usize,
                ));
                assert forall|o: int| 0 <= o < MAX_ORDER - 1 implies #[trigger] self.free_lists@[o]@.len() == 0 by {
                    assert(self.free_lists@[o]@ == pre.free_lists@[o]@);
                }
            }
        }
        proof {
            assert(offset == size);
            assert forall|o: int, j: int| #[trigger] self.valid_ix(o, j) && o < MAX_ORDER - 1 implies exists|p: int|
                in_block(buddy_page(self.entry(o, j), o), o, p) && !page_bit(self.bitmap@, p) by {
                assert(self.free_lists@[o]@.len() == 0);
            }
            assert(self.free_pages() =~= set_int_range(0, size as int / PAGE_SIZE as int));
            lemma_int_range(0, size as int / PAGE_SIZE as int);
        }
    }

    /// Smallest order whose block holds `size` bytes, at most the largest.
    pub fn size_to_order(&self, size: usize) -> (r: usize)
        ensures
            r == size_order(size as int),
            r < MAX_ORDER,
            r == MAX_ORDER - 1 || block_bytes(r as int) >= size,
            forall|o: int| 0 <= o < r ==> block_bytes(o) < size,
    {
        let mut order: usize = 0;
        let mut block: usize = PAGE_SIZE;
        proof {
            lemma_np_values();
        }
        while block < size && order < MAX_ORDER - 1
            invariant
                order < MAX_ORDER,
                block == block_bytes(order as int),
                order_from(size as int, order as int) == size_order(size as int),
                forall|o: int| 0 <= o < order ==> block_bytes(o) < size,
            decreases MAX_ORDER - order,
        {
            proof {
                lemma_np_values();
                assert(block <= 0x100000);
                lemma2_to64();
                vstd::bits::lemma_usize_shl_is_mul(block, 1);
                assert forall|o: int| 0 <= o < order + 1 implies block_bytes(o) < size by {
                    if o < order {
                    }
                }
            }
            block = block << 1;
            order = order + 1;
        }
        proof {
            lemma_np_values();
        }
        order
    }

    /// Allocate a block for `size` bytes aligned to `align`: its order is the
    /// smallest that holds the larger of the two (capped at the largest).
    /// `None` for a size of zero or when no free block is large enough.
    pub fn alloc_block(&mut self, size: usize, align: usize) -> (r: Option<usize>)
        requires
            old(self).wf(),
        ensures
            final(self).wf(),
            size > 0 ==> old(self).alloc_outcome(*final(self), size, align, r),
            size == 0 ==> r is None && *final(self) == *old(self),
            size > 0 ==> {
                let o = size_order(if size > align { size as int } else { align as int });
                &&& r is None <==> forall|q: int| o <= q < MAX_ORDER ==> #[trigger] old(self).free_list(q).len() == 0
                &&& r is None ==> *final(self) == *old(self)
                &&& r matches Some(a) ==> {
                    &&& old(self).alloc_effect(*final(self), o, a)
                    &&& final(self).block_ok(o, a as int)
                    &&& final(self).block_in_use(o, a as int)
                    &&& exists|f: int| #![trigger old(self).free_list(f)]
                        o <= f < MAX_ORDER && old(self).free_list(f).len() > 0 && (forall|q: int|
                        o <= q < f ==> #[trigger] old(self).free_list(q).len() == 0) && a == old(self).free_list(f).last()
                        && final(self).free_list(f) == old(self).free_list(f).drop_last() && (forall|c: int|
                        o <= c < f ==> #[trigger] final(self).free_list(c) == old(self).free_list(c).push(
                        (a + block_bytes(c)) as usize)) && (forall|q: int|
                        0 <= q < MAX_ORDER && (q < o || q > f) ==> #[trigger] final(self).free_list(q) == old(
                        self).free_list(q))
                }
            },
    {
        if size == 0 {
            return None;
        }
        let want = if size > align { size } else { align };
        let order = self.size_to_order(want);
        if order >= MAX_ORDER {
            return None;
        }
        let ghost old_self = *self;
        let r = self.alloc_order(order);
        proof {
            if let Some(a) = r {
                let s = old_self.page_of(a as int);
                assert(self.page_of(a as int) == s);
                assert forall|p: int| in_block(self.page_of(a as int), order as int, p) implies !self.free_pages().contains(p) by {
                    assert(block_pages(s, order as int).contains(p));
                }
                assert(self.free_pages() =~= old_self.free_pages().difference(block_pages(s, order as int)));
                assert(block_pages(s, order as int).subset_of(old_self.free_pages()));
                let oi = order as int;
                let f = choose|f: int| #![trigger old_self.free_lists@[f]]
                    oi <= f < MAX_ORDER && old_self.free_lists@[f]@.len() > 0 && (forall|o: int|
                    oi <= o < f ==> #[trigger] old_self.free_lists@[o]@.len() == 0) && a == old_self.free_lists@[f]@.last()
                    && self.free_lists@[f]@ == old_self.free_lists@[f]@.drop_last() && (forall|c: int|
                    oi <= c < f ==> #[trigger] self.free_lists@[c]@ == old_self.free_lists@[c]@.push(
                    (a + block_bytes(c)) as usize)) && (forall|o: int|
                    0 <= o < MAX_ORDER && (o < oi || o > f) ==> #[trigger] self.free_lists@[o]@
                    == old_self.free_lists@[o]@);
                assert(old_self.free_list(f).len() > 0);
                assert forall|q: int| oi <= q < f implies #[trigger] old_self.free_list(q).len() == 0 by {
                    assert(old_self.free_lists@[q]@.len() == 0);
                }
                assert forall|c: int| oi <= c < f implies #[trigger] self.free_list(c) == old_self.free_list(c).push(
                    (a + block_bytes(c)) as usize) by {
                    assert(self.free_lists@[c]@ == old_self.free_lists@[c]@.push((a + block_bytes(c)) as usize));
                }
                assert forall|q: int| 0 <= q < MAX_ORDER && (q < oi || q > f) implies #[trigger] self.free_list(q) == old_self.free_list(q) by {
                    assert(self.free_lists@[q]@ == old_self.free_lists@[q]@);
                }
            } else {
                assert forall|q: int| order as int <= q < MAX_ORDER implies #[trigger] old_self.free_list(q).len() == 0 by {
                    assert(old_self.free_lists@[q]@.len() == 0);
                }
            }
        }
        r
    }

    /// Free the block at `ptr` allocated for `size` bytes, merging it with
    /// free buddies. A null `ptr` or a size of zero does nothing.
    pub fn free(&mut self, ptr: usize, size: usize)
        requires
            old(self).wf(),
            ptr != 0 && size != 0 ==> old(self).block_ok(size_order(size as int), ptr as int) && old(self).block_in_use(
                size_order(size as int),
                ptr as int,
            ),
        ensures
            final(self).wf(),
            ptr == 0 || size == 0 ==> *final(self) == *old(self),
            ptr != 0 && size != 0 ==> old(self).free_effect(*final(self), size_order(size as int), ptr),
    {
        if ptr == 0 || size == 0 {
            return;
        }
        let order = self.size_to_order(size);
        if order >= MAX_ORDER {
            return;
        }
        let ghost old_self = *self;
        self.free_coalesce(ptr, order);
        proof {
            let s = old_self.page_of(ptr as int);
            assert(self.free_pages() =~= old_self.free_pages().union(block_pages(s, order as int)));
        }
    }

    /// Free memory in KiB.
    pub fn free_kb(&self) -> (r: usize)
        ensures
            r == self.free_byte_count() / 1024,
    {
        self.free_bytes / 1024
    }

    /// Size of the heap in KiB.
    pub fn total_kb(&self) -> (r: usize)
        ensures
            r == self.heap_size() / 1024,
    {
        self.size / 1024
    }

    /// Memory in use in KiB: the total less the free.
    pub fn used_kb(&self) -> (r: usize)
        requires
            self.wf(),
        ensures
            r == self.heap_size() / 1024 - self.free_byte_count() / 1024,
    {
        proof {
            self.lemma_free_pages_in_heap();
        }
        self.total_kb() - self.free_kb()
    }
}

// ── Laws ─────────────────────────────────────────────────────────────────────

/// Freeing a block right after allocating it, with the order it was
/// allocated at, is allowed (the block lies in the heap and is in use) and
/// gives back exactly the free pages and free byte count from before.
pub proof fn law_free_undoes_alloc(s0: BuddyAllocator, s1: BuddyAllocator, s2: BuddyAllocator, o: int, a: usize)
    requires
        s0.wf(),
        s0.alloc_effect(s1, o, a),
        s1.free_effect(s2, o, a),
    ensures
        s1.block_ok(o, a as int),
        s1.block_in_use(o, a as int),
        s2.free_pages() == s0.free_pages(),
        s2.free_byte_count() == s0.free_byte_count(),
{
    let b = block_pages(s0.page_of(a as int), o);
    assert(s1.page_of(a as int) == s0.page_of(a as int));
    assert(s2.free_pages() =~= s0.free_pages());
    assert forall|p: int| in_block(s1.page_of(a as int), o, p) implies !s1.free_pages().contains(p) by {
        assert(b.contains(p));
    }
}

/// Two allocations in a row hand out blocks that share no page.
pub proof fn law_allocations_disjoint(
    s0: BuddyAllocator,
    s1: BuddyAllocator,
    s2: BuddyAllocator,
    o1: int,
    a1: usize,
    o2: int,
    a2: usize,
)
    requires
        s0.wf(),
        s0.alloc_effect(s1, o1, a1),
        s1.alloc_effect(s2, o2, a2),
    ensures
        block_pages(s0.page_of(a1 as int), o1).disjoint(block_pages(s0.page_of(a2 as int), o2)),
{
    assert(s1.page_of(a2 as int) == s0.page_of(a2 as int));
}

} // verus!
