//! Page tables in physical memory and the walks the kernel makes over
//! them. Physical memory is modelled by the tables it holds, each at the
//! address of its frame; a frame that holds no table reads as zeros, so
//! an entry that leads to it ends a walk as a non-present entry would.
use vstd::prelude::*;
use crate::mm::{PhysAddr, VirtAddr, PAGE_SIZE};
use crate::mm::pmm::{Pmm, MAX_FRAMES, dec_count};
use crate::vmm::{pte_make, PTE_P, PTE_W, PTE_U, PTE_PS, PTE_COW, PTE_ADDR};

verus! {

/// Entries of one table.
pub const ENTRIES: usize = 512;

/// Bytes of a huge page.
pub const HUGE_SIZE: u64 = 0x20_0000;

/// Physical address bits of a huge-page entry.
pub const HUGE_ADDR: u64 = 0x000F_FFFF_FFE0_0000;

/// One table and the frame it lives in.
pub struct Table {
    pub addr: PhysAddr,
    pub e: Vec<u64>,
}

/// The page tables held in physical memory.
pub struct TableMem {
    tabs: Vec<Table>,
}

/// Position of the first table at `a` from `i` on, or the length.
pub open spec fn index_of(s: Seq<Table>, a: u64, i: int) -> int
    decreases s.len() - i,
{
    if i >= s.len() || s[i].addr == a {
        i
    } else {
        index_of(s, a, i + 1)
    }
}

proof fn lemma_index_of(s: Seq<Table>, a: u64, i: int)
    requires
        0 <= i <= s.len(),
    ensures
        i <= index_of(s, a, i) <= s.len(),
        index_of(s, a, i) < s.len() ==> s[index_of(s, a, i)].addr == a,
        forall|j: int| i <= j < index_of(s, a, i) ==> s[j].addr != a,
    decreases s.len() - i,
{
    if i < s.len() && s[i].addr != a {
        lemma_index_of(s, a, i + 1);
    }
}

proof fn lemma_index_is(s: Seq<Table>, a: u64, i: int, j: int)
    requires
        0 <= i <= j <= s.len(),
        forall|q: int| i <= q < j ==> #[trigger] s[q].addr != a,
        j < s.len() ==> s[j].addr == a,
    ensures
        index_of(s, a, i) == j,
    decreases j - i,
{
    if i < j {
        lemma_index_is(s, a, i + 1, j);
    }
}

proof fn lemma_index_same_addrs(s1: Seq<Table>, s2: Seq<Table>, a: u64, i: int)
    requires
        s1.len() == s2.len(),
        forall|j: int| 0 <= j < s1.len() ==> #[trigger] s1[j].addr == s2[j].addr,
        0 <= i,
    ensures
        index_of(s1, a, i) == index_of(s2, a, i),
    decreases s1.len() - i,
{
    if i < s1.len() && s1[i].addr != a {
        lemma_index_same_addrs(s1, s2, a, i + 1);
    }
}

proof fn lemma_index_push(s: Seq<Table>, t: Table, a: u64, i: int)
    requires
        0 <= i <= s.len(),
    ensures
        index_of(s, a, i) < s.len() ==> index_of(s.push(t), a, i) == index_of(s, a, i),
        index_of(s, a, i) == s.len() && t.addr == a ==> index_of(s.push(t), a, i) == s.len(),
        index_of(s, a, i) == s.len() && t.addr != a ==> index_of(s.push(t), a, i) == s.len() + 1,
    decreases s.len() - i,
{
    let s2 = s.push(t);
    assert(s2[i] == if i < s.len() { s[i] } else { t });
    if i < s.len() && s[i].addr != a {
        lemma_index_push(s, t, a, i + 1);
    } else if i == s.len() && t.addr != a {
        assert(index_of(s2, a, i + 1) == i + 1);
    }
}

/// The word at entry `i` of the table at `a`; zero where `a` holds no table.
pub open spec fn ent(m: Map<u64, Seq<u64>>, a: u64, i: int) -> u64 {
    if m.dom().contains(a) && 0 <= i < m[a].len() {
        m[a][i]
    } else {
        0
    }
}

pub open spec fn present(e: u64) -> bool {
    e & PTE_P != 0
}

pub open spec fn user(e: u64) -> bool {
    e & PTE_U != 0
}

pub open spec fn huge(e: u64) -> bool {
    e & PTE_PS != 0
}

pub open spec fn cow(e: u64) -> bool {
    e & PTE_COW != 0
}

pub open spec fn addr(e: u64) -> u64 {
    e & PTE_ADDR
}

/// Table indices of `v` at each level: bits 39, 30, 21 and 12 up, nine each.
pub open spec fn idx4(v: u64) -> int {
    (v / 0x80_0000_0000) as int % 512
}

pub open spec fn idx3(v: u64) -> int {
    (v / 0x4000_0000) as int % 512
}

pub open spec fn idx2(v: u64) -> int {
    (v / 0x20_0000) as int % 512
}

pub open spec fn idx1(v: u64) -> int {
    (v / 0x1000) as int % 512
}

impl View for TableMem {
    type V = Map<u64, Seq<u64>>;

    /// Each table's entries, by the address of its frame.
    closed spec fn view(&self) -> Map<u64, Seq<u64>> {
        Map::new(
            |a: u64| index_of(self.tabs@, a, 0) < self.tabs@.len(),
            |a: u64| self.tabs@[index_of(self.tabs@, a, 0)].e@,
        )
    }
}

impl TableMem {
    /// Every table has 512 entries.
    pub closed spec fn wf(&self) -> bool {
        &&& forall|k: int| 0 <= k < self.tabs@.len() ==> (#[trigger] self.tabs@[k]).e@.len() == ENTRIES
        &&& forall|i: int, j: int|
            0 <= i < j < self.tabs@.len() ==> (#[trigger] self.tabs@[i]).addr != (#[trigger] self.tabs@[j]).addr
    }

    pub proof fn lemma_wf(&self)
        requires
            self.wf(),
        ensures
            forall|a: u64| #[trigger] self@.dom().contains(a) ==> self@[a].len() == ENTRIES,
    {
        assert forall|a: u64| #[trigger] self@.dom().contains(a) implies self@[a].len() == ENTRIES by {
            lemma_index_of(self.tabs@, a, 0);
        }
    }

    /// Memory that holds no table.
    pub fn new() -> (r: Self)
        ensures
            r.wf(),
            r@ == Map::<u64, Seq<u64>>::empty(),
    {
        let r = TableMem { tabs: Vec::new() };
        assert(r@ =~= Map::<u64, Seq<u64>>::empty());
        r
    }

    fn find(&self, a: u64) -> (r: usize)
        ensures
            r == index_of(self.tabs@, a, 0),
            r <= self.tabs@.len(),
    {
        proof {
            lemma_index_of(self.tabs@, a, 0);
        }
        let mut k: usize = 0;
        while k < self.tabs.len()
            invariant
                k <= self.tabs@.len(),
                index_of(self.tabs@, a, k as int) == index_of(self.tabs@, a, 0),
            decreases self.tabs@.len() - k,
        {
            if self.tabs[k].addr == a {
                return k;
            }
            k = k + 1;
        }
        k
    }

    /// Whether the frame at `a` holds a table.
    pub fn has_table(&self, a: PhysAddr) -> (r: bool)
        ensures
            r == self@.dom().contains(a),
    {
        let k = self.find(a);
        k < self.tabs.len()
    }

    /// Entry `i` of the table at `a` (zero where `a` holds no table).
    pub fn entry(&self, a: PhysAddr, i: usize) -> (r: u64)
        requires
            self.wf(),
            i < ENTRIES,
        ensures
            r == ent(self@, a, i as int),
    {
        proof {
            lemma_index_of(self.tabs@, a, 0);
        }
        let k = self.find(a);
        if k < self.tabs.len() {
            self.tabs[k].e[i]
        } else {
            0
        }
    }

    /// Write entry `i` of the table at `a`.
    pub fn set_entry(&mut self, a: PhysAddr, i: usize, val: u64)
        requires
            old(self).wf(),
            old(self)@.dom().contains(a),
            i < ENTRIES,
        ensures
            final(self).wf(),
            final(self)@ == old(self)@.insert(a, old(self)@[a].update(i as int, val)),
    {
        proof {
            lemma_index_of(self.tabs@, a, 0);
        }
        let ghost s0 = self.tabs@;
        let k = self.find(a);
        self.tabs[k].e.set(i, val);
        proof {
            let s1 = self.tabs@;
            assert(forall|j: int| 0 <= j < s0.len() ==> #[trigger] s1[j].addr == s0[j].addr);
            assert forall|b: u64| true implies index_of(s1, b, 0) == index_of(s0, b, 0) by {
                lemma_index_same_addrs(s1, s0, b, 0);
            }
            assert forall|b: u64| #[trigger] self@.dom().contains(b) && b != a implies self@[b] == old(self)@[b] by {
                lemma_index_of(s0, b, 0);
            }
            assert(self@ =~= old(self)@.insert(a, old(self)@[a].update(i as int, val)));
        }
    }

    /// The frame at `a` holds a table no longer (its frame was given back).
    pub fn drop_table(&mut self, a: PhysAddr)
        requires
            old(self).wf(),
        ensures
            final(self).wf(),
            final(self)@ == old(self)@.remove(a),
    {
        proof {
            lemma_index_of(self.tabs@, a, 0);
        }
        let ghost s0 = self.tabs@;
        let k = self.find(a);
        if k < self.tabs.len() {
            self.tabs.remove(k);
            proof {
                let s1 = self.tabs@;
                assert(s1 =~= s0.remove(k as int));
                assert forall|b: u64| true implies #[trigger] index_of(s1, b, 0) == if b == a {
                    s1.len() as int
                } else if index_of(s0, b, 0) < k {
                    index_of(s0, b, 0)
                } else {
                    index_of(s0, b, 0) - 1
                } by {
                    lemma_index_of(s0, b, 0);
                    let j = index_of(s0, b, 0);
                    if b == a {
                        assert forall|q: int| 0 <= q < s1.len() implies #[trigger] s1[q].addr != a by {
                            if q < k {
                                assert(s1[q] == s0[q]);
                            } else {
                                assert(s1[q] == s0[q + 1]);
                            }
                        }
                        lemma_index_is(s1, b, 0, s1.len() as int);
                    } else if j < k {
                        assert forall|q: int| 0 <= q < j implies #[trigger] s1[q].addr != b by {
                            assert(s1[q] == s0[q]);
                        }
                        lemma_index_is(s1, b, 0, j);
                    } else {
                        assert(j != k);
                        assert forall|q: int| 0 <= q < j - 1 implies #[trigger] s1[q].addr != b by {
                            if q < k {
                                assert(s1[q] == s0[q]);
                            } else {
                                assert(s1[q] == s0[q + 1]);
                            }
                        }
                        if j < s0.len() {
                            assert(s1[j - 1] == s0[j]);
                        }
                        lemma_index_is(s1, b, 0, j - 1);
                    }
                }
                assert forall|b: u64| #[trigger] self@.dom().contains(b) <==> old(self)@.remove(a).dom().contains(b) by {
                    lemma_index_of(s0, b, 0);
                }
                assert forall|b: u64| #[trigger] self@.dom().contains(b) implies self@[b] == old(self)@.remove(a)[b] by {
                    lemma_index_of(s0, b, 0);
                    let j = index_of(s0, b, 0);
                    if j < k {
                        assert(s1[j] == s0[j]);
                    } else {
                        assert(s1[j - 1] == s0[j]);
                    }
                }
                assert(self@ =~= old(self)@.remove(a));
            }
        } else {
            assert(!self@.dom().contains(a));
            assert(self@ =~= old(self)@.remove(a));
        }
    }

    /// The frame at `a` now holds a table of zeros.
    pub fn add_table(&mut self, a: PhysAddr)
        requires
            old(self).wf(),
        ensures
            final(self).wf(),
            final(self)@ == old(self)@.insert(a, Seq::new(ENTRIES as nat, |j: int| 0u64)),
    {
        let mut z: Vec<u64> = Vec::new();
        let mut j: usize = 0;
        while j < ENTRIES
            invariant
                j <= ENTRIES,
                z@ == Seq::new(j as nat, |q: int| 0u64),
            decreases ENTRIES - j,
        {
            z.push(0);
            j = j + 1;
            assert(z@ =~= Seq::new(j as nat, |q: int| 0u64));
        }
        proof {
            lemma_index_of(self.tabs@, a, 0);
        }
        let ghost s0 = self.tabs@;
        let k = self.find(a);
        let t = Table { addr: a, e: z };
        if k < self.tabs.len() {
            self.tabs.set(k, t);
            proof {
                let s1 = self.tabs@;
                assert(forall|q: int| 0 <= q < s0.len() ==> #[trigger] s1[q].addr == s0[q].addr);
                assert forall|b: u64| true implies index_of(s1, b, 0) == index_of(s0, b, 0) by {
                    lemma_index_same_addrs(s1, s0, b, 0);
                }
                assert forall|b: u64| #[trigger] self@.dom().contains(b) && b != a implies self@[b] == old(
                    self,
                )@[b] by {
                    lemma_index_of(s0, b, 0);
                }
            }
        } else {
            self.tabs.push(t);
            proof {
                assert forall|q: int| 0 <= q < s0.len() implies #[trigger] s0[q].addr != a by {
                    lemma_index_of(s0, a, 0);
                }
                assert(self.tabs@[s0.len() as int].addr == a);
                assert forall|b: u64| true implies #[trigger] index_of(self.tabs@, b, 0) == if index_of(s0, b, 0) < s0.len() {
                    index_of(s0, b, 0)
                } else if b == a {
                    s0.len() as int
                } else {
                    s0.len() + 1int
                } by {
                    lemma_index_of(s0, b, 0);
                    lemma_index_push(s0, t, b, 0);
                }
                assert forall|b: u64| #[trigger] self@.dom().contains(b) && b != a implies self@[b] == old(
                    self,
                )@[b] by {
                    lemma_index_of(s0, b, 0);
                    lemma_index_push(s0, t, b, 0);
                }
            }
        }
        assert(self@ =~= old(self)@.insert(a, Seq::new(ENTRIES as nat, |j: int| 0u64)));
    }
}

/// Where `v` leads in the tables under `p4`: the frame address plus the
/// offset, through a huge entry at any level above the last; `None` at a
/// non-present entry or when `p4` is 0.
pub open spec fn translate(m: Map<u64, Seq<u64>>, p4: u64, v: u64) -> Option<u64> {
    if p4 == 0 {
        None
    } else {
        let e4 = ent(m, p4, idx4(v));
        if !present(e4) {
            None
        } else if huge(e4) {
            Some((e4 & HUGE_ADDR) | (v & (HUGE_SIZE - 1) as u64))
        } else {
            let e3 = ent(m, addr(e4), idx3(v));
            if !present(e3) {
                None
            } else if huge(e3) {
                Some((e3 & HUGE_ADDR) | (v & (HUGE_SIZE - 1) as u64))
            } else {
                let e2 = ent(m, addr(e3), idx2(v));
                if !present(e2) {
                    None
                } else if huge(e2) {
                    Some((e2 & HUGE_ADDR) | (v & (HUGE_SIZE - 1) as u64))
                } else {
                    let e1 = ent(m, addr(e2), idx1(v));
                    if !present(e1) {
                        None
                    } else {
                        Some(addr(e1) | (v & 0xFFF))
                    }
                }
            }
        }
    }
}

/// Whether user code may touch `v`: every entry on the way is present and
/// user-accessible, and a huge entry ends the walk with success.
pub open spec fn user_ok(m: Map<u64, Seq<u64>>, p4: u64, v: u64) -> bool {
    if p4 == 0 {
        false
    } else {
        let e4 = ent(m, p4, idx4(v));
        if !present(e4) || !user(e4) {
            false
        } else if huge(e4) {
            true
        } else {
            let e3 = ent(m, addr(e4), idx3(v));
            if !present(e3) || !user(e3) {
                false
            } else if huge(e3) {
                true
            } else {
                let e2 = ent(m, addr(e3), idx2(v));
                if !present(e2) || !user(e2) {
                    false
                } else if huge(e2) {
                    true
                } else {
                    let e1 = ent(m, addr(e2), idx1(v));
                    present(e1) && user(e1)
                }
            }
        }
    }
}

/// Page `k` of a buffer at `ptr`, counting from the page of `ptr`.
pub open spec fn buf_page(ptr: u64, k: int) -> u64 {
    (ptr - ptr as int % PAGE_SIZE as int + k * PAGE_SIZE) as u64
}

/// Pages a buffer of `len` bytes at `ptr` touches, from the page of `ptr` on.
pub open spec fn buf_pages(ptr: u64, len: u64) -> int {
    let first = ptr - ptr as int % PAGE_SIZE as int;
    (ptr + len - first + PAGE_SIZE - 1) / PAGE_SIZE as int
}

pub(crate) fn i4(v: u64) -> (r: usize)
    ensures
        r == idx4(v),
        r < ENTRIES,
{
    ((v / 0x80_0000_0000) % 512) as usize
}

pub(crate) fn i3(v: u64) -> (r: usize)
    ensures
        r == idx3(v),
        r < ENTRIES,
{
    ((v / 0x4000_0000) % 512) as usize
}

pub(crate) fn i2(v: u64) -> (r: usize)
    ensures
        r == idx2(v),
        r < ENTRIES,
{
    ((v / 0x20_0000) % 512) as usize
}

pub(crate) fn i1(v: u64) -> (r: usize)
    ensures
        r == idx1(v),
        r < ENTRIES,
{
    ((v / 0x1000) % 512) as usize
}

impl TableMem {
    /// The physical address `v` maps to under `p4`.
    pub fn virt_to_phys(&self, p4: PhysAddr, v: VirtAddr) -> (r: Option<PhysAddr>)
        requires
            self.wf(),
        ensures
            r == translate(self@, p4, v),
    {
        if p4 == 0 {
            return None;
        }
        let e4 = self.entry(p4, i4(v));
        if e4 & PTE_P == 0 {
            return None;
        }
        if e4 & PTE_PS != 0 {
            return Some((e4 & HUGE_ADDR) | (v & (HUGE_SIZE - 1)));
        }
        let e3 = self.entry(e4 & PTE_ADDR, i3(v));
        if e3 & PTE_P == 0 {
            return None;
        }
        if e3 & PTE_PS != 0 {
            return Some((e3 & HUGE_ADDR) | (v & (HUGE_SIZE - 1)));
        }
        let e2 = self.entry(e3 & PTE_ADDR, i2(v));
        if e2 & PTE_P == 0 {
            return None;
        }
        if e2 & PTE_PS != 0 {
            return Some((e2 & HUGE_ADDR) | (v & (HUGE_SIZE - 1)));
        }
        let e1 = self.entry(e2 & PTE_ADDR, i1(v));
        if e1 & PTE_P == 0 {
            return None;
        }
        Some((e1 & PTE_ADDR) | (v & 0xFFF))
    }

    /// Whether user code may touch the page of `v` under `p4`.
    pub fn valid_user(&self, p4: PhysAddr, v: VirtAddr) -> (r: bool)
        requires
            self.wf(),
        ensures
            r == user_ok(self@, p4, v),
    {
        if p4 == 0 {
            return false;
        }
        let e4 = self.entry(p4, i4(v));
        if e4 & PTE_P == 0 || e4 & PTE_U == 0 {
            return false;
        }
        if e4 & PTE_PS != 0 {
            return true;
        }
        let e3 = self.entry(e4 & PTE_ADDR, i3(v));
        if e3 & PTE_P == 0 || e3 & PTE_U == 0 {
            return false;
        }
        if e3 & PTE_PS != 0 {
            return true;
        }
        let e2 = self.entry(e3 & PTE_ADDR, i2(v));
        if e2 & PTE_P == 0 || e2 & PTE_U == 0 {
            return false;
        }
        if e2 & PTE_PS != 0 {
            return true;
        }
        let e1 = self.entry(e2 & PTE_ADDR, i1(v));
        e1 & PTE_P != 0 && e1 & PTE_U != 0
    }

    /// Whether user code may touch every page of the buffer of `len` bytes
    /// at `ptr`; an empty buffer always passes.
    pub fn valid_buf(&self, p4: PhysAddr, ptr: VirtAddr, len: usize) -> (r: bool)
        requires
            self.wf(),
            ptr + len <= 0xFFFF_FFFF_FFFF_F000u64,
        ensures
            r == (len == 0 || forall|k: int|
                0 <= k < buf_pages(ptr, len as u64) ==> #[trigger] user_ok(self@, p4, buf_page(ptr, k))),
    {
        if len == 0 {
            return true;
        }
        let first = ptr - ptr % (PAGE_SIZE as u64);
        let end = ptr + len as u64;
        let mut pg = first;
        let ghost n = buf_pages(ptr, len as u64);
        proof {
            assert(first as int % PAGE_SIZE as int == 0);
        }
        while pg < end
            invariant
                self.wf(),
                len > 0,
                first == ptr - ptr as int % PAGE_SIZE as int,
                end == ptr + len,
                end <= 0xFFFF_FFFF_FFFF_F000u64,
                first <= pg,
                pg <= end + PAGE_SIZE,
                (pg - first) % PAGE_SIZE as int == 0,
                n == buf_pages(ptr, len as u64),
                n == (end - first + PAGE_SIZE - 1) / PAGE_SIZE as int,
                forall|k: int|
                    0 <= k < (pg - first) / PAGE_SIZE as int ==> #[trigger] user_ok(self@, p4, buf_page(ptr, k)),
            decreases end + PAGE_SIZE - pg,
        {
            if !self.valid_user(p4, pg) {
                proof {
                    let k = (pg - first) / PAGE_SIZE as int;
                    assert(first + k * PAGE_SIZE == pg);
                    assert(buf_page(ptr, k) == pg);
                    assert(k < n);
                    assert(!user_ok(self@, p4, buf_page(ptr, k)));
                }
                return false;
            }
            let ghost k0 = (pg - first) / PAGE_SIZE as int;
            pg = pg + PAGE_SIZE as u64;
            proof {
                assert((pg - first) / PAGE_SIZE as int == k0 + 1);
                assert(first + k0 * PAGE_SIZE == pg - PAGE_SIZE);
                assert(buf_page(ptr, k0) == pg - PAGE_SIZE);
            }
        }
        proof {
            assert((pg - first) / PAGE_SIZE as int >= n);
        }
        true
    }
}

/// The entry a write fault concerns when it may be a copy-on-write fault.
#[derive(Copy, Clone, PartialEq, Eq, Structural, Debug)]
pub enum CowLeaf {
    /// The walk ends before a present copy-on-write leaf.
    NoLeaf,
    /// Entry `idx` of the last-level table at `tab`, holding `e`.
    Page { tab: u64, idx: usize, e: u64 },
    /// Entry `idx` of the page directory at `tab`, a huge page, holding `e`.
    Huge { tab: u64, idx: usize, e: u64 },
}

/// How a copy-on-write fault ends.
#[derive(Copy, Clone, PartialEq, Eq, Structural, Debug)]
pub enum CowFix {
    /// Not a copy-on-write fault, or no memory for the copy: a genuine
    /// access violation.
    Violation,
    /// The page is writable again where it is.
    Writable,
    /// The page now lies in a private frame: the `len` bytes at `from` are
    /// copied to `to` before the access is retried.
    Copy { from: u64, to: u64, len: u64 },
}

impl CowFix {
    /// The fault was resolved and the access can be retried.
    pub fn resolved(&self) -> (r: bool)
        ensures
            r == !(*self is Violation),
    {
        match self {
            CowFix::Violation => false,
            _ => true,
        }
    }
}

/// The page a fault address lies in.
pub open spec fn page_of(v: u64) -> u64 {
    (v - v as int % PAGE_SIZE as int) as u64
}

/// Walk to the leaf of `v` under `p4`: it is the copy-on-write leaf when
/// every entry above it is present and it is present and marked.
pub open spec fn cow_leaf(m: Map<u64, Seq<u64>>, p4: u64, v: u64) -> CowLeaf {
    let e4 = ent(m, p4, idx4(v));
    if !present(e4) {
        CowLeaf::NoLeaf
    } else {
        let e3 = ent(m, addr(e4), idx3(v));
        if !present(e3) {
            CowLeaf::NoLeaf
        } else {
            let p2 = addr(e3);
            let e2 = ent(m, p2, idx2(v));
            if !present(e2) {
                CowLeaf::NoLeaf
            } else if huge(e2) {
                if cow(e2) {
                    CowLeaf::Huge { tab: p2, idx: idx2(v) as usize, e: e2 }
                } else {
                    CowLeaf::NoLeaf
                }
            } else {
                let p1 = addr(e2);
                let e1 = ent(m, p1, idx1(v));
                if present(e1) && cow(e1) {
                    CowLeaf::Page { tab: p1, idx: idx1(v) as usize, e: e1 }
                } else {
                    CowLeaf::NoLeaf
                }
            }
        }
    }
}

/// The frame at `p` has more than one owner.
pub open spec fn shared(pmm: Pmm, p: u64) -> bool {
    pmm.frame_of(p as int) < crate::mm::pmm::MAX_FRAMES && pmm.refcount(pmm.frame_of(p as int)) > 1
}

/// An entry as `pte_make` builds it.
pub open spec fn made(p: u64, f: u64) -> u64 {
    (p & PTE_ADDR) | f | PTE_P
}

/// The entry after the fault when its frame has one owner: writable again,
/// no longer marked.
pub open spec fn unshared_entry(e: u64) -> u64 {
    (e & !PTE_COW) | PTE_W
}

/// A zero word is not present.
pub(crate) proof fn lemma_zero_absent()
    ensures
        !present(0),
{
    assert(0u64 & 1u64 == 0) by (bit_vector);
}

fn frame_addr(e: u64) -> (r: u64)
    ensures
        r == addr(e),
        r <= PTE_ADDR,
{
    assert(e & 0x000F_FFFF_FFFF_F000u64 <= 0x000F_FFFF_FFFF_F000u64) by (bit_vector);
    e & PTE_ADDR
}

impl TableMem {
    /// Resolve a write fault at `fault_addr` under `p4` on a page marked
    /// copy-on-write. A leaf whose frame has one owner becomes writable
    /// again (`Writable`); a shared one gets a private frame (a huge page
    /// gets 512) with one owner, the old frame loses one, and the result
    /// names the old contents to copy into the new frame (`Copy`).
    /// `Violation` means a genuine access violation or no memory for the
    /// copy.
    pub fn handle_cow_fault(&mut self, pmm: &mut Pmm, p4: PhysAddr, fault_addr: VirtAddr) -> (r: CowFix)
        requires
            old(self).wf(),
            old(pmm).wf(),
            match cow_leaf(old(self)@, p4, page_of(fault_addr)) {
                CowLeaf::NoLeaf => true,
                CowLeaf::Page { e, .. } => old(pmm).base() <= addr(e) && (shared(*old(pmm), addr(e)) ==> old(
                    pmm,
                ).free_set().len() > 0),
                CowLeaf::Huge { e, .. } => old(pmm).base() <= addr(e),
            },
        ensures
            final(self).wf(),
            final(pmm).wf(),
            final(pmm).base() == old(pmm).base(),
            match cow_leaf(old(self)@, p4, page_of(fault_addr)) {
                CowLeaf::NoLeaf => r == CowFix::Violation && final(self)@ == old(self)@ && *final(pmm) == *old(pmm),
                CowLeaf::Page { tab, idx, e } => if !shared(*old(pmm), addr(e)) {
                    &&& r == CowFix::Writable
                    &&& final(self)@ == old(self)@.insert(tab, old(self)@[tab].update(idx as int, unshared_entry(e)))
                    &&& *final(pmm) == *old(pmm)
                } else {
                    &&& r is Violation || r is Copy
                    &&& r is Violation ==> final(self)@ == old(self)@ && old(pmm).base() == 0
                    &&& r is Copy ==> exists|n: u64| #![trigger old(pmm).frame_of(n as int)]
                        {
                            let i = old(pmm).frame_of(n as int);
                            let o = old(pmm).frame_of(addr(e) as int);
                            &&& n == old(pmm).addr_of(i)
                            &&& old(pmm).free_set().contains(i)
                            &&& r == CowFix::Copy { from: addr(e), to: n, len: PAGE_SIZE as u64 }
                            &&& final(self)@ == old(self)@.insert(
                                tab,
                                old(self)@[tab].update(idx as int, made(n, (e & !PTE_COW & !PTE_ADDR) | PTE_W)),
                            )
                            &&& o != i ==> {
                                &&& final(pmm).free_set() == old(pmm).free_set().remove(i)
                                &&& final(pmm).refcount(i) == 1
                                &&& final(pmm).refcount(o) == if old(pmm).refcount(o) == u16::MAX {
                                    u16::MAX
                                } else {
                                    dec_count(old(pmm).refcount(o))
                                }
                                &&& forall|k: int|
                                    0 <= k < MAX_FRAMES && k != i && k != o ==> #[trigger] final(pmm).refcount(k)
                                        == old(pmm).refcount(k)
                            }
                        }
                },
                CowLeaf::Huge { tab, idx, e } => if !shared(*old(pmm), addr(e)) {
                    &&& r == CowFix::Writable
                    &&& final(self)@ == old(self)@.insert(tab, old(self)@[tab].update(idx as int, unshared_entry(e)))
                    &&& *final(pmm) == *old(pmm)
                } else {
                    &&& r is Violation || r is Copy
                    &&& r is Violation ==> final(self)@ == old(self)@ && *final(pmm) == *old(pmm) && forall|i: int|
                        #[trigger] old(pmm).huge_slot(i) ==> !old(pmm).huge_clear(i)
                    &&& r is Copy ==> exists|i: int|
                        #![trigger old(pmm).huge_slot(i)]
                        old(pmm).huge_slot(i) && old(pmm).huge_clear(i) && r == (CowFix::Copy {
                            from: addr(e),
                            to: old(pmm).addr_of(i) as u64,
                            len: HUGE_SIZE,
                        }) && huge_cow_counts(*old(pmm), *final(pmm), addr(e), i) && final(self)@ == old(self)@.insert(
                            tab,
                            old(self)@[tab].update(
                                idx as int,
                                made(old(pmm).addr_of(i) as u64, (e & !PTE_COW & !PTE_ADDR) | PTE_W | PTE_PS),
                            ),
                        )
                },
            },
    {
        proof {
            self.lemma_wf();
            lemma_zero_absent();
        }
        let v = fault_addr - fault_addr % (PAGE_SIZE as u64);
        let e4 = self.entry(p4, i4(v));
        if e4 & PTE_P == 0 {
            return CowFix::Violation;
        }
        let e3 = self.entry(e4 & PTE_ADDR, i3(v));
        if e3 & PTE_P == 0 {
            return CowFix::Violation;
        }
        let p2 = e3 & PTE_ADDR;
        let k2 = i2(v);
        let e2 = self.entry(p2, k2);
        if e2 & PTE_P == 0 {
            return CowFix::Violation;
        }
        if e2 & PTE_PS != 0 {
            if e2 & PTE_COW == 0 {
                return CowFix::Violation;
            }
            let old_phys = frame_addr(e2);
            if !pmm.frame_shared(old_phys) {
                self.set_entry(p2, k2, (e2 & !PTE_COW) | PTE_W);
                return CowFix::Writable;
            }
            let ghost pm0 = *pmm;
            let new_phys = pmm.mm_alloc_huge();
            if new_phys == 0 {
                return CowFix::Violation;
            }
            let ghost hi = choose|i: int|
                #[trigger] pm0.huge_slot(i) && pm0.huge_clear(i) && new_phys == pm0.addr_of(i) && (forall|i2: int|
                    #[trigger] pm0.huge_slot(i2) && i2 < i ==> !pm0.huge_clear(i2)) && (forall|k: int|
                    0 <= k < MAX_FRAMES ==> #[trigger] pmm.refcount(k) == if i <= k < i + 512 {
                        1
                    } else {
                        pm0.refcount(k)
                    });
            let ghost o = (old_phys - pm0.base()) / PAGE_SIZE as int;
            let ghost apart = o + 512 <= MAX_FRAMES && (o + 512 <= hi || hi + 512 <= o);
            proof {
                pm0.lemma_addr_fits();
                assert(hi * PAGE_SIZE + 512 * PAGE_SIZE == (hi + 512) * PAGE_SIZE) by (nonlinear_arith);
                assert(hi + 512 <= pm0.limit());
                assert((hi + 512) * PAGE_SIZE <= pm0.limit() * PAGE_SIZE) by (nonlinear_arith)
                    requires
                        hi + 512 <= pm0.limit(),
                ;
            }
            let mut j: u64 = 0;
            while j < 512
                invariant
                    pmm.wf(),
                    pmm.base() == pm0.base(),
                    pm0.base() <= old_phys <= PTE_ADDR,
                    pm0.base() <= new_phys,
                    new_phys + 512 * PAGE_SIZE <= u64::MAX,
                    new_phys == pm0.addr_of(hi),
                    0 <= hi && hi + 512 <= MAX_FRAMES,
                    o == (old_phys - pm0.base()) / PAGE_SIZE as int,
                    apart == (o + 512 <= MAX_FRAMES && (o + 512 <= hi || hi + 512 <= o)),
                    j <= 512,
                    apart ==> forall|x: int|
                        0 <= x < MAX_FRAMES ==> #[trigger] pmm.refcount(x) == if hi <= x < hi + 512 {
                            1
                        } else if o <= x < o + j {
                            if pm0.refcount(x) == u16::MAX {
                                u16::MAX
                            } else {
                                dec_count(pm0.refcount(x))
                            }
                        } else {
                            pm0.refcount(x)
                        },
                decreases 512 - j,
            {
                assert(j * 4096 <= 511 * 4096) by (nonlinear_arith)
                    requires
                        j < 512,
                ;
                let ghost q0 = *pmm;
                let _ = pmm.frame_dec(old_phys + j * (PAGE_SIZE as u64));
                let ghost q1 = *pmm;
                pmm.frame_init(new_phys + j * (PAGE_SIZE as u64));
                proof {
                    vstd::arithmetic::div_mod::lemma_hoist_over_denominator(
                        old_phys - pm0.base(),
                        j as int,
                        PAGE_SIZE as nat,
                    );
                    vstd::arithmetic::div_mod::lemma_hoist_over_denominator(hi * PAGE_SIZE, j as int, PAGE_SIZE as nat);
                    vstd::arithmetic::div_mod::lemma_div_multiples_vanish(hi, PAGE_SIZE as int);
                    assert(PAGE_SIZE * hi == hi * PAGE_SIZE) by (nonlinear_arith);
                    if apart {
                        let fo = q0.frame_of((old_phys + j * PAGE_SIZE) as int);
                        let fnw = q1.frame_of((new_phys + j * PAGE_SIZE) as int);
                        assert(fo == o + j);
                        assert(fnw == hi + j);
                        assert forall|x: int| 0 <= x < MAX_FRAMES implies #[trigger] pmm.refcount(x) == if hi <= x < hi
                            + 512 {
                            1
                        } else if o <= x < o + j + 1 {
                            if pm0.refcount(x) == u16::MAX {
                                u16::MAX
                            } else {
                                dec_count(pm0.refcount(x))
                            }
                        } else {
                            pm0.refcount(x)
                        } by {
                            if x != o + j && x != hi + j {
                                assert(q1.refcount(x) == q0.refcount(x));
                            }
                        }
                    }
                }
                j = j + 1;
            }
            self.set_entry(p2, k2, pte_make(new_phys, (e2 & !PTE_COW & !PTE_ADDR) | PTE_W | PTE_PS));
            return CowFix::Copy { from: old_phys, to: new_phys, len: HUGE_SIZE };
        }
        let p1 = e2 & PTE_ADDR;
        let k1 = i1(v);
        let e = self.entry(p1, k1);
        if e & PTE_P == 0 || e & PTE_COW == 0 {
            return CowFix::Violation;
        }
        let old_phys = e & PTE_ADDR;
        if !pmm.frame_shared(old_phys) {
            self.set_entry(p1, k1, (e & !PTE_COW) | PTE_W);
            return CowFix::Writable;
        }
        let ghost pm0 = *pmm;
        let new_phys = pmm.frame_cow_copy(old_phys);
        if new_phys == 0 {
            return CowFix::Violation;
        }
        self.set_entry(p1, k1, pte_make(new_phys, (e & !PTE_COW & !PTE_ADDR) | PTE_W));
        proof {
            let i = pm0.frame_of(new_phys as int);
            assert(new_phys == pm0.addr_of(i));
        }
        CowFix::Copy { from: old_phys, to: new_phys, len: PAGE_SIZE as u64 }
    }
}

/// Owner counts after a shared huge page at `old_addr` was given the
/// private frames from `n` on: when the old and new frames are apart, each
/// new frame has one owner, each old one an owner fewer (a pinned count
/// stays), every other count as it was.
pub open spec fn huge_cow_counts(p: Pmm, q: Pmm, old_addr: u64, n: int) -> bool {
    let o = (old_addr - p.base()) / PAGE_SIZE as int;
    p.base() <= old_addr && o + 512 <= MAX_FRAMES && (o + 512 <= n || n + 512 <= o) ==> forall|x: int|
        0 <= x < MAX_FRAMES ==> #[trigger] q.refcount(x) == if n <= x < n + 512 {
            1
        } else if o <= x < o + 512 {
            if p.refcount(x) == u16::MAX {
                u16::MAX
            } else {
                dec_count(p.refcount(x))
            }
        } else {
            p.refcount(x)
        }
}

impl TableMem {
    /// Whether the walk to `v` under `p4` goes through tables of the model
    /// (`path_ok`).
    pub fn path_ok_check(&self, p4: PhysAddr, v: VirtAddr) -> (r: bool)
        requires
            self.wf(),
        ensures
            r == path_ok(self@, p4, v),
    {
        if !self.has_table(p4) {
            return false;
        }
        let e4 = self.entry(p4, i4(v));
        if e4 & PTE_P == 0 {
            return true;
        }
        let p3 = e4 & PTE_ADDR;
        if e4 & PTE_PS != 0 || !self.has_table(p3) || p3 == p4 {
            return false;
        }
        let e3 = self.entry(p3, i3(v));
        if e3 & PTE_P == 0 {
            return true;
        }
        let p2 = e3 & PTE_ADDR;
        if e3 & PTE_PS != 0 || !self.has_table(p2) || p2 == p4 || p2 == p3 {
            return false;
        }
        let e2 = self.entry(p2, i2(v));
        if e2 & PTE_P != 0 && e2 & PTE_PS == 0 {
            let p1 = e2 & PTE_ADDR;
            return self.has_table(p1) && p1 != p4 && p1 != p3 && p1 != p2;
        }
        true
    }

    /// Frames `vmap` takes for new tables on the way to `v` (`vmap_need`).
    pub fn vmap_need_of(&self, p4: PhysAddr, v: VirtAddr) -> (r: usize)
        requires
            self.wf(),
        ensures
            r == vmap_need(self@, p4, v),
    {
        let e4 = self.entry(p4, i4(v));
        if e4 & PTE_P == 0 {
            return 3;
        }
        let e3 = self.entry(e4 & PTE_ADDR, i3(v));
        if e3 & PTE_P == 0 {
            return 2;
        }
        let e2 = self.entry(e3 & PTE_ADDR, i2(v));
        if e2 & PTE_P == 0 || e2 & PTE_PS != 0 {
            1
        } else {
            0
        }
    }
}

impl TableMem {
    /// Whether a walk to `v` under `p4` reaches no present last-level
    /// entry (see `leaf_free`).
    pub fn leaf_free_check(&self, p4: PhysAddr, v: VirtAddr) -> (r: bool)
        requires
            self.wf(),
        ensures
            r == leaf_free(self@, p4, v),
    {
        let e4 = self.entry(p4, i4(v));
        if e4 & PTE_P == 0 || e4 & PTE_PS != 0 {
            return true;
        }
        let e3 = self.entry(e4 & PTE_ADDR, i3(v));
        if e3 & PTE_P == 0 || e3 & PTE_PS != 0 {
            return true;
        }
        let e2 = self.entry(e3 & PTE_ADDR, i2(v));
        if e2 & PTE_P == 0 || e2 & PTE_PS != 0 {
            return true;
        }
        self.entry(e2 & PTE_ADDR, i1(v)) & PTE_P == 0
    }

    /// Back the `pages` pages from `base` under `p4` with fresh frames, one
    /// after another, each mapped with flags `f`. It stops at the first
    /// page that cannot be backed (see `map_blocked`): its walk is not
    /// through tables of the model, its last-level entry is already
    /// present, or the free frames do not cover the page and the tables it
    /// needs. Returns the frames of the pages backed from `base` on, in
    /// page order; the caller clears their contents.
    pub fn map_fresh(&mut self, pmm: &mut Pmm, p4: PhysAddr, base: VirtAddr, pages: usize, f: u64) -> (r: Vec<u64>)
        requires
            old(self).wf(),
            old(pmm).wf(),
            tables_held(old(self)@, *old(pmm)),
            aligned_pool(*old(pmm)),
            base % PAGE_SIZE as u64 == 0,
            p4 != 0,
            base + pages * PAGE_SIZE <= u64::MAX,
            f & PTE_PS == 0,
            f & PTE_ADDR == 0,
        ensures
            final(self).wf(),
            final(pmm).wf(),
            final(pmm).base() == old(pmm).base(),
            final(pmm).size() == old(pmm).size(),
            tables_held(final(self)@, *final(pmm)),
            final(pmm).free_set().subset_of(old(pmm).free_set()),
            r@.len() <= pages,
            forall|k: int|
                0 <= k < r@.len() ==> {
                    let i = old(pmm).frame_of(#[trigger] r@[k] as int);
                    &&& translate(final(self)@, p4, (base + k * PAGE_SIZE) as u64) == Some(r@[k])
                    &&& small_mapped(final(self)@, p4, (base + k * PAGE_SIZE) as u64)
                    &&& old(pmm).free_set().contains(i)
                    &&& !final(pmm).free_set().contains(i)
                    &&& r@[k] == old(pmm).addr_of(i)
                },
            r@.len() < pages ==> map_blocked(final(self)@, *final(pmm), p4, (base + r@.len() * PAGE_SIZE) as u64),
            r@.len() == 0 ==> final(self)@ == old(self)@ && *final(pmm) == *old(pmm),
            forall|i: int|
                #![trigger old(pmm).free_set().contains(i), final(pmm).free_set().contains(i)]
                old(pmm).free_set().contains(i) && !final(pmm).free_set().contains(i) ==> r@.contains(
                    old(pmm).addr_of(i) as u64,
                ) || (final(self)@.dom().contains(old(pmm).addr_of(i) as u64) && !old(self)@.dom().contains(
                    old(pmm).addr_of(i) as u64,
                )),
            forall|a: u64| #[trigger] old(self)@.dom().contains(a) ==> final(self)@.dom().contains(a),
            backed(old(self)@, final(self)@, *old(pmm), *final(pmm), p4, base as int, r@.len() as int),
    {
        let ghost p0 = *pmm;
        let ghost m0 = self@;
        let mut frames: Vec<u64> = Vec::new();
        let mut k: usize = 0;
        let mut n: usize = pages;
        while k < n
            invariant
                n <= pages,
                k <= n,
                self.wf(),
                pmm.wf(),
                tables_held(self@, *pmm),
                aligned_pool(*pmm),
                p0 == *old(pmm),
                m0 == old(self)@,
                pmm.base() == p0.base(),
                pmm.size() == p0.size(),
                pmm.free_set().subset_of(p0.free_set()),
                p4 != 0,
                f & PTE_PS == 0,
                f & PTE_ADDR == 0,
                base % PAGE_SIZE as u64 == 0,
                base + pages * PAGE_SIZE <= u64::MAX,
                frames@.len() == k,
                n == pages || map_blocked(self@, *pmm, p4, (base + k * PAGE_SIZE) as u64),
                k == 0 ==> self@ == m0 && *pmm == p0,
                forall|j: int|
                    0 <= j < k ==> {
                        let i = p0.frame_of(#[trigger] frames@[j] as int);
                        &&& translate(self@, p4, (base + j * PAGE_SIZE) as u64) == Some(frames@[j])
                        &&& small_mapped(self@, p4, (base + j * PAGE_SIZE) as u64)
                        &&& p0.free_set().contains(i)
                        &&& !pmm.free_set().contains(i)
                        &&& frames@[j] == p0.addr_of(i)
                    },
                forall|i: int|
                    #![trigger p0.free_set().contains(i), pmm.free_set().contains(i)]
                    p0.free_set().contains(i) && !pmm.free_set().contains(i) ==> frames@.contains(p0.addr_of(i) as u64)
                        || (self@.dom().contains(p0.addr_of(i) as u64) && !m0.dom().contains(p0.addr_of(i) as u64)),
                forall|a: u64| #[trigger] m0.dom().contains(a) ==> self@.dom().contains(a),
            decreases n - k,
        {
            proof {
                vstd::arithmetic::mul::lemma_mul_inequality(k as int, pages as int, PAGE_SIZE as int);
            }
            let v = base + (k as u64) * (PAGE_SIZE as u64);
            if !self.path_ok_check(p4, v) || !self.leaf_free_check(p4, v) {
                n = k;
            } else {
                let need = self.vmap_need_of(p4, v);
                if pmm.usable_free() < need + 1 {
                    n = k;
                } else {
                    let ghost pa = *pmm;
                    let ghost ma = self@;
                    let phys = pmm.mm_alloc();
                    let ghost pb = *pmm;
                    proof {
                        let i = pb.frame_of(phys as int);
                        assert(pa.took_frame(pb, i));
                        pa.lemma_free_set_finite();
                        assert(pb.free_set().len() == pa.free_set().len() - 1);
                        vstd::arithmetic::div_mod::lemma_mod_multiples_vanish(k as int, base as int, PAGE_SIZE as int);
                        vstd::arithmetic::mul::lemma_mul_is_commutative(k as int, PAGE_SIZE as int);
                        crate::valloc::lemma_page_mask(v);
                        vstd::arithmetic::div_mod::lemma_mod_multiples_vanish(i, pa.base(), PAGE_SIZE as int);
                        vstd::arithmetic::mul::lemma_mul_is_commutative(i, PAGE_SIZE as int);
                        crate::valloc::lemma_page_mask(phys);
                        assert(tables_held(self@, pb));
                        assert(!ma.dom().contains(phys));
                    }
                    let rc = self.vmap(pmm, p4, v, phys, f);
                    let ghost fa = frames@;
                    frames.push(phys);
                    proof {
                        let i = pb.frame_of(phys as int);
                        let mb = self@;
                        assert(rc == 0);
                        assert(p0.frame_of(phys as int) == i);
                        assert(p0.addr_of(i) == phys);
                        pa.lemma_free_frame(i);
                        lemma_pool_addr(pa, i);
                        lemma_entry_bits(0, 2, phys);
                        lemma_leaf_bits(phys, f);
                        assert(translate(mb, p4, v) == Some(phys));
                        assert forall|j: int| 0 <= j < k + 1 implies {
                            let i2 = p0.frame_of(#[trigger] frames@[j] as int);
                            &&& translate(self@, p4, (base + j * PAGE_SIZE) as u64) == Some(frames@[j])
                            &&& small_mapped(self@, p4, (base + j * PAGE_SIZE) as u64)
                            &&& p0.free_set().contains(i2)
                            &&& !pmm.free_set().contains(i2)
                            &&& frames@[j] == p0.addr_of(i2)
                        } by {
                            if j < k {
                                assert(fa[j] == frames@[j]);
                                assert(small_mapped(ma, p4, (base + j * PAGE_SIZE) as u64));
                            }
                        }
                        assert forall|i2: int|
                            #![trigger p0.free_set().contains(i2), pmm.free_set().contains(i2)]
                            p0.free_set().contains(i2) && !pmm.free_set().contains(i2) implies frames@.contains(
                                p0.addr_of(i2) as u64,
                            ) || (self@.dom().contains(p0.addr_of(i2) as u64) && !m0.dom().contains(
                                p0.addr_of(i2) as u64,
                            )) by {
                            if i2 == i {
                                assert(frames@[k as int] == phys);
                            } else if !pa.free_set().contains(i2) {
                                if fa.contains(p0.addr_of(i2) as u64) {
                                    let w = choose|w: int| 0 <= w < k && fa[w] == p0.addr_of(i2) as u64;
                                    assert(frames@[w] == p0.addr_of(i2) as u64);
                                }
                            } else {
                                assert(pb.free_set().contains(i2));
                            }
                        }
                    }
                    k = k + 1;
                }
            }
        }
        proof {
            let m = self@;
            assert forall|j: int|
                #![trigger translate(m, p4, (base + j * PAGE_SIZE) as u64)]
                0 <= j < k implies {
                    let t = translate(m, p4, (base + j * PAGE_SIZE) as u64);
                    &&& small_mapped(m, p4, (base + j * PAGE_SIZE) as u64)
                    &&& t is Some
                    &&& p0.free_set().contains(p0.frame_of(t->0 as int))
                    &&& !pmm.free_set().contains(p0.frame_of(t->0 as int))
                } by {
                let i = p0.frame_of(frames@[j] as int);
                assert(translate(m, p4, (base + j * PAGE_SIZE) as u64) == Some(frames@[j]));
                assert(p0.free_set().contains(i) && !pmm.free_set().contains(i));
            }
            assert forall|i: int|
                #![trigger p0.free_set().contains(i), pmm.free_set().contains(i)]
                p0.free_set().contains(i) && !pmm.free_set().contains(i) implies (exists|j: int|
                    0 <= j < k && #[trigger] translate(m, p4, (base + j * PAGE_SIZE) as u64) == Some(
                        p0.addr_of(i) as u64,
                    )) || (m.dom().contains(p0.addr_of(i) as u64) && !m0.dom().contains(p0.addr_of(i) as u64)) by {
                if frames@.contains(p0.addr_of(i) as u64) {
                    let w = choose|w: int| 0 <= w < frames@.len() && frames@[w] == p0.addr_of(i) as u64;
                    assert(translate(m, p4, (base + w * PAGE_SIZE) as u64) == Some(p0.addr_of(i) as u64));
                }
            }
        }
        frames
    }
}
/// The writable and user-accessible bits together.
pub const PTE_WU: u64 = 6;

/// A table of zeros.
pub open spec fn zeros() -> Seq<u64> {
    Seq::new(ENTRIES as nat, |j: int| 0u64)
}

/// The table a huge entry is split into: 512 writable 4K entries over its
/// frames.
pub open spec fn split_of(e: u64) -> Seq<u64> {
    Seq::new(ENTRIES as nat, |j: int| made(((e & HUGE_ADDR) + j * PAGE_SIZE) as u64, PTE_W))
}

/// Tables live in frames the frame manager does not hand out.
pub open spec fn tables_held(m: Map<u64, Seq<u64>>, pmm: Pmm) -> bool {
    forall|i: int| #[trigger] pmm.free_set().contains(i) ==> !m.dom().contains(pmm.addr_of(i) as u64)
}

/// Frames are handed out at page-aligned addresses below 2^52, which an
/// entry can hold.
pub open spec fn aligned_pool(pmm: Pmm) -> bool {
    pmm.base() % PAGE_SIZE as int == 0 && pmm.addr_of(pmm.limit()) <= 0x10_0000_0000_0000
}

/// The walk to `v` under `p4` goes through tables of the model: each
/// present entry above the last level leads to a table, none of the
/// first two levels is a huge page, and the tables on the way are
/// distinct.
pub open spec fn path_ok(m: Map<u64, Seq<u64>>, p4: u64, v: u64) -> bool {
    let e4 = ent(m, p4, idx4(v));
    let p3 = addr(e4);
    let e3 = ent(m, p3, idx3(v));
    let p2 = addr(e3);
    let e2 = ent(m, p2, idx2(v));
    &&& m.dom().contains(p4)
    &&& present(e4) ==> {
        &&& !huge(e4) && m.dom().contains(p3) && p3 != p4
        &&& present(e3) ==> {
            &&& !huge(e3) && m.dom().contains(p2) && p2 != p4 && p2 != p3
            &&& present(e2) && !huge(e2) ==> m.dom().contains(addr(e2)) && addr(e2) != p4 && addr(e2) != p3
                && addr(e2) != p2
        }
    }
}

/// The walk to `u` under `p4` ends at a present 4K leaf, through tables of
/// the model, with no huge entry on the way.
pub open spec fn small_mapped(m: Map<u64, Seq<u64>>, p4: u64, u: u64) -> bool {
    let e4 = ent(m, p4, idx4(u));
    let e3 = ent(m, addr(e4), idx3(u));
    let e2 = ent(m, addr(e3), idx2(u));
    let e1 = ent(m, addr(e2), idx1(u));
    &&& m.dom().contains(p4)
    &&& m.dom().contains(addr(e4))
    &&& m.dom().contains(addr(e3))
    &&& m.dom().contains(addr(e2))
    &&& present(e4) && !huge(e4)
    &&& present(e3) && !huge(e3)
    &&& present(e2) && !huge(e2)
    &&& present(e1) && !huge(e1)
}

/// When the walk to `v` under `p4` reaches a last-level table, its entry
/// for `v` is not present.
pub open spec fn leaf_free(m: Map<u64, Seq<u64>>, p4: u64, v: u64) -> bool {
    let e4 = ent(m, p4, idx4(v));
    let e3 = ent(m, addr(e4), idx3(v));
    let e2 = ent(m, addr(e3), idx2(v));
    present(e4) && !huge(e4) && present(e3) && !huge(e3) && present(e2) && !huge(e2) ==> !present(
        ent(m, addr(e2), idx1(v)),
    )
}

/// Entry `i` of the table at `a` is one the walk to `u` under `p4` reads.
pub open spec fn on_walk(m: Map<u64, Seq<u64>>, p4: u64, u: u64, a: u64, i: int) -> bool {
    let e4 = ent(m, p4, idx4(u));
    let e3 = ent(m, addr(e4), idx3(u));
    let e2 = ent(m, addr(e3), idx2(u));
    ||| a == p4 && i == idx4(u)
    ||| a == addr(e4) && i == idx3(u)
    ||| a == addr(e3) && i == idx2(u)
    ||| a == addr(e2) && i == idx1(u)
}

/// What `goc` does to the tables for entry `idx` of the table at `tab`,
/// with intermediate flags `g`, handing back `child`.
pub open spec fn goc_step(ma: Map<u64, Seq<u64>>, mb: Map<u64, Seq<u64>>, tab: u64, idx: int, g: u64, child: u64) -> bool {
    let e = ma[tab][idx];
    &&& ma.dom().contains(tab)
    &&& 0 <= idx < ma[tab].len()
    &&& present(e) && !huge(e) ==> child == addr(e) && mb == ma.insert(tab, ma[tab].update(idx, e | g))
    &&& !present(e) || huge(e) ==> !ma.dom().contains(child) && mb == ma.insert(
        child,
        if present(e) { split_of(e | g) } else { zeros() },
    ).insert(tab, ma[tab].update(idx, made(child, g)))
}

/// Writing an entry that no walk to `u` reads, or one that keeps its
/// presence, size and address, leaves the walk to `u` as it was.
proof fn lemma_write_keeps(ma: Map<u64, Seq<u64>>, mb: Map<u64, Seq<u64>>, tab: u64, idx: int, val: u64, p4: u64, u: u64)
    requires
        small_mapped(ma, p4, u),
        ma.dom().contains(tab),
        0 <= idx < ma[tab].len(),
        mb == ma.insert(tab, ma[tab].update(idx, val)),
        on_walk(ma, p4, u, tab, idx) ==> present(val) && !huge(val) && addr(val) == addr(ma[tab][idx]),
    ensures
        small_mapped(mb, p4, u),
        translate(mb, p4, u) == translate(ma, p4, u),
        forall|a: u64, i: int| #[trigger] on_walk(mb, p4, u, a, i) <==> on_walk(ma, p4, u, a, i),
{
    let e4 = ent(ma, p4, idx4(u));
    let e3 = ent(ma, addr(e4), idx3(u));
    let e2 = ent(ma, addr(e3), idx2(u));
    let f4 = ent(mb, p4, idx4(u));
    let f3 = ent(mb, addr(f4), idx3(u));
    let f2 = ent(mb, addr(f3), idx2(u));
    let f1 = ent(mb, addr(f2), idx1(u));
    assert(addr(f4) == addr(e4) && present(f4) && !huge(f4));
    assert(addr(f3) == addr(e3) && present(f3) && !huge(f3));
    assert(addr(f2) == addr(e2) && present(f2) && !huge(f2));
    assert(addr(f1) == addr(ent(ma, addr(e2), idx1(u))) && present(f1) && !huge(f1));
}

/// Adding a table at a frame that held none leaves the walk to `u` as it
/// was.
proof fn lemma_fresh_keeps(ma: Map<u64, Seq<u64>>, mb: Map<u64, Seq<u64>>, child: u64, x: Seq<u64>, p4: u64, u: u64)
    requires
        small_mapped(ma, p4, u),
        !ma.dom().contains(child),
        mb == ma.insert(child, x),
    ensures
        small_mapped(mb, p4, u),
        translate(mb, p4, u) == translate(ma, p4, u),
        forall|a: u64, i: int| #[trigger] on_walk(mb, p4, u, a, i) <==> on_walk(ma, p4, u, a, i),
{
}

/// One `goc` step leaves the walk to `u` as it was.
proof fn lemma_goc_keeps(ma: Map<u64, Seq<u64>>, mb: Map<u64, Seq<u64>>, tab: u64, idx: int, g: u64, child: u64, p4: u64, u: u64)
    requires
        small_mapped(ma, p4, u),
        goc_step(ma, mb, tab, idx, g, child),
        g == 2 || g == 6,
    ensures
        small_mapped(mb, p4, u),
        translate(mb, p4, u) == translate(ma, p4, u),
        forall|a: u64, i: int| #[trigger] on_walk(mb, p4, u, a, i) <==> on_walk(ma, p4, u, a, i),
{
    let e = ma[tab][idx];
    lemma_entry_bits(e, g, 0);
    if present(e) && !huge(e) {
        lemma_write_keeps(ma, mb, tab, idx, e | g, p4, u);
    } else {
        let x = if present(e) { split_of(e | g) } else { zeros() };
        let mc = ma.insert(child, x);
        lemma_fresh_keeps(ma, mc, child, x, p4, u);
        assert(mc[tab] == ma[tab]);
        assert(!on_walk(ma, p4, u, tab, idx));
        lemma_write_keeps(mc, mb, tab, idx, made(child, g), p4, u);
    }
}

/// The `n` pages from `lo` under `p4` are backed in `m` through 4K leaves
/// by frames free in `p0` and taken in `p`; every frame taken from `p0`
/// backs one of them or holds a table that `m0` did not have.
pub open spec fn backed(m0: Map<u64, Seq<u64>>, m: Map<u64, Seq<u64>>, p0: Pmm, p: Pmm, p4: u64, lo: int, n: int) -> bool {
    &&& forall|k: int|
        #![trigger translate(m, p4, (lo + k * PAGE_SIZE) as u64)]
        0 <= k < n ==> {
            let t = translate(m, p4, (lo + k * PAGE_SIZE) as u64);
            &&& small_mapped(m, p4, (lo + k * PAGE_SIZE) as u64)
            &&& t is Some
            &&& p0.free_set().contains(p0.frame_of(t->0 as int))
            &&& !p.free_set().contains(p0.frame_of(t->0 as int))
        }
    &&& forall|i: int|
        #![trigger p0.free_set().contains(i), p.free_set().contains(i)]
        p0.free_set().contains(i) && !p.free_set().contains(i) ==> (exists|k: int|
            0 <= k < n && #[trigger] translate(m, p4, (lo + k * PAGE_SIZE) as u64) == Some(p0.addr_of(i) as u64)) || (
        m.dom().contains(p0.addr_of(i) as u64) && !m0.dom().contains(p0.addr_of(i) as u64))
}

/// Why the page at `v` under `p4` cannot be backed next: its walk is not
/// through tables of the model, its last-level entry is already present,
/// or the free frames do not cover the page and the tables it needs.
pub open spec fn map_blocked(m: Map<u64, Seq<u64>>, pmm: Pmm, p4: u64, v: u64) -> bool {
    !path_ok(m, p4, v) || !leaf_free(m, p4, v) || pmm.free_set().len() <= vmap_need(m, p4, v)
}

/// Frames `vmap` takes for new tables on the way to `v`.
pub open spec fn vmap_need(m: Map<u64, Seq<u64>>, p4: u64, v: u64) -> int {
    let e4 = ent(m, p4, idx4(v));
    let e3 = ent(m, addr(e4), idx3(v));
    let e2 = ent(m, addr(e3), idx2(v));
    if !present(e4) {
        3
    } else if !present(e3) {
        2
    } else if !present(e2) || huge(e2) {
        1
    } else {
        0
    }
}

pub(crate) proof fn lemma_entry_bits(e: u64, g: u64, c: u64)
    by (bit_vector)
    requires
        g == 2 || g == 6,
    ensures
        g & 6 == g,
        (e | g) & 1 == e & 1,
        (e | g) & 0x80 == e & 0x80,
        (e | g) & 0x000F_FFFF_FFFF_F000 == e & 0x000F_FFFF_FFFF_F000,
        ((c & 0x000F_FFFF_FFFF_F000) | g | 1) & 1 == 1,
        ((c & 0x000F_FFFF_FFFF_F000) | g | 1) & 0x80 == 0,
        ((c & 0x000F_FFFF_FFFF_F000) | g | 1) & 0x000F_FFFF_FFFF_F000 == c & 0x000F_FFFF_FFFF_F000,
        c % 4096 == 0 && c < 0x10_0000_0000_0000 ==> c & 0x000F_FFFF_FFFF_F000 == c,
{
}

/// A leaf entry made without the size bit is present and maps a 4K page.
pub(crate) proof fn lemma_leaf_bits(p: u64, f: u64)
    by (bit_vector)
    requires
        f & 0x80 == 0,
    ensures
        ((p & 0x000F_FFFF_FFFF_F000) | f | 1) & 0x80 == 0,
        ((p & 0x000F_FFFF_FFFF_F000) | f | 1) & 1 == 1,
        f & 0x000F_FFFF_FFFF_F000 == 0 ==> (((p & 0x000F_FFFF_FFFF_F000) | f | 1) & 0x000F_FFFF_FFFF_F000) | 0
            == p & 0x000F_FFFF_FFFF_F000,
{
}

/// A frame the manager can hand out has an address an entry can hold.
pub(crate) proof fn lemma_pool_addr(pmm: Pmm, i: int)
    requires
        pmm.wf(),
        aligned_pool(pmm),
        0 <= i < pmm.limit(),
    ensures
        (pmm.addr_of(i) as u64) % 4096 == 0,
        (pmm.addr_of(i) as u64) < 0x10_0000_0000_0000,
        pmm.addr_of(i) as u64 == pmm.addr_of(i),
{
    pmm.lemma_addr_fits();
    assert(i * PAGE_SIZE <= pmm.limit() * PAGE_SIZE) by (nonlinear_arith)
        requires
            i < pmm.limit(),
    ;
    assert((pmm.base() + i * PAGE_SIZE) % 4096 == 0) by (nonlinear_arith)
        requires
            pmm.base() % 4096 == 0,
            i >= 0,
    ;
}

impl TableMem {
    /// Take a free frame and make it a table of zeros.
    pub(crate) fn zpg(&mut self, pmm: &mut Pmm) -> (c: PhysAddr)
        requires
            old(self).wf(),
            old(pmm).wf(),
            old(pmm).free_set().len() > 0,
            tables_held(old(self)@, *old(pmm)),
        ensures
            final(self).wf(),
            final(pmm).wf(),
            final(pmm).base() == old(pmm).base(),
            final(pmm).size() == old(pmm).size(),
            tables_held(final(self)@, *final(pmm)),
            !old(self)@.dom().contains(c),
            final(self)@ == old(self)@.insert(c, zeros()),
            final(pmm).free_set() == old(pmm).free_set().remove(old(pmm).frame_of(c as int)),
            old(pmm).free_set().contains(old(pmm).frame_of(c as int)),
            c == old(pmm).addr_of(old(pmm).frame_of(c as int)),
            forall|k: int|
                0 <= k < MAX_FRAMES && k != old(pmm).frame_of(c as int) ==> #[trigger] final(pmm).refcount(k) == old(
                    pmm,
                ).refcount(k),
    {
        let ghost pm0 = *pmm;
        let c = pmm.mm_alloc_nolock();
        let ghost i = pmm.frame_of(c as int);
        self.add_table(c);
        proof {
            assert(zeros() == Seq::new(ENTRIES as nat, |j: int| 0u64));
            assert forall|k: int| #[trigger] pmm.free_set().contains(k) implies !self@.dom().contains(
                pmm.addr_of(k) as u64,
            ) by {
                assert(pm0.free_set().contains(k));
                assert(k != i);
                pm0.lemma_free_frame(k);
                pm0.lemma_free_frame(i);
                pm0.lemma_addr_fits();
                assert(pmm.addr_of(k) == pm0.addr_of(k));
                assert(pm0.addr_of(k) != pm0.addr_of(i)) by (nonlinear_arith)
                    requires
                        k != i,
                        pm0.addr_of(k) == pm0.base() + k * PAGE_SIZE,
                        pm0.addr_of(i) == pm0.base() + i * PAGE_SIZE,
                ;
            }
        }
        c
    }

    /// The table entry `idx` of `tab` leads to, created when absent: a new
    /// table of zeros, or the split of a huge page. The entry gains the
    /// writable and user bits of `flags`.
    fn goc(&mut self, pmm: &mut Pmm, tab: PhysAddr, idx: usize, flags: u64) -> (child: PhysAddr)
        requires
            old(self).wf(),
            old(pmm).wf(),
            tables_held(old(self)@, *old(pmm)),
            old(self)@.dom().contains(tab),
            idx < ENTRIES,
            flags == PTE_W || flags == PTE_WU,
            ({
                let e = old(self)@[tab][idx as int];
                !present(e) || huge(e) ==> old(pmm).free_set().len() > 0
            }),
        ensures
            final(self).wf(),
            final(pmm).wf(),
            final(pmm).base() == old(pmm).base(),
            final(pmm).size() == old(pmm).size(),
            tables_held(final(self)@, *final(pmm)),
            ({
                let e = old(self)@[tab][idx as int];
                &&& present(e) && !huge(e) ==> {
                    &&& child == addr(e)
                    &&& *final(pmm) == *old(pmm)
                    &&& final(self)@ == old(self)@.insert(tab, old(self)@[tab].update(idx as int, e | flags))
                }
                &&& !present(e) || huge(e) ==> {
                    &&& !old(self)@.dom().contains(child)
                    &&& old(pmm).free_set().contains(old(pmm).frame_of(child as int))
                    &&& child == old(pmm).addr_of(old(pmm).frame_of(child as int))
                    &&& final(pmm).free_set() == old(pmm).free_set().remove(old(pmm).frame_of(child as int))
                    &&& final(self)@ == old(self)@.insert(child, if present(e) { split_of(e | flags) } else { zeros() }).insert(
                        tab,
                        old(self)@[tab].update(idx as int, made(child, flags)),
                    )
                }
            }),
            final(self)@.dom().contains(tab),
            forall|a: u64| #[trigger] old(self)@.dom().contains(a) ==> final(self)@.dom().contains(a),
            forall|a: u64|
                #![trigger final(self)@[a]]
                old(self)@.dom().contains(a) && a != tab ==> final(self)@[a] == old(self)@[a],
            final(self)@[tab].len() == ENTRIES,
            aligned_pool(*old(pmm)) ==> {
                let e2 = final(self)@[tab][idx as int];
                present(e2) && !huge(e2) && addr(e2) == child
            },
    {
        proof {
            self.lemma_wf();
            lemma_entry_bits(self@[tab][idx as int], flags, 0);
        }
        let e = self.entry(tab, idx);
        if e & PTE_P == 0 {
            let ghost pm0 = *pmm;
            let child = self.zpg(pmm);
            self.set_entry(tab, idx, pte_make(child, flags));
            proof {
                self.lemma_wf();
                if aligned_pool(pm0) {
                    pm0.lemma_free_frame(pm0.frame_of(child as int));
                    lemma_pool_addr(pm0, pm0.frame_of(child as int));
                    lemma_entry_bits(0, flags, child);
                }
            }
            return child;
        }
        let e1 = e | (flags & PTE_WU);
        self.set_entry(tab, idx, e1);
        if e1 & PTE_PS != 0 {
            let ghost m1 = self@;
            let huge_phys = frame_addr(e1) & HUGE_ADDR;
            proof {
                assert(huge_phys <= PTE_ADDR && huge_phys == e1 & HUGE_ADDR) by (bit_vector)
                    requires
                        huge_phys == (e1 & 0x000F_FFFF_FFFF_F000u64) & 0x000F_FFFF_FFE0_0000u64,
                ;
            }
            let ghost pm1 = *pmm;
            let child = self.zpg(pmm);
            let mut j: usize = 0;
            assert(zeros() =~= Seq::new(
                ENTRIES as nat,
                |q: int| if q < j { made((huge_phys + q * PAGE_SIZE) as u64, PTE_W) } else { 0u64 },
            ));
            assert(self@ =~= m1.insert(
                child,
                Seq::new(
                    ENTRIES as nat,
                    |q: int| if q < j { made((huge_phys + q * PAGE_SIZE) as u64, PTE_W) } else { 0u64 },
                ),
            ));
            while j < ENTRIES
                invariant
                    self.wf(),
                    self@.dom().contains(child),
                    self@.dom().contains(tab),
                    child != tab,
                    j <= ENTRIES,
                    huge_phys <= PTE_ADDR,
                    self@ == m1.insert(
                        child,
                        Seq::new(
                            ENTRIES as nat,
                            |q: int| if q < j { made((huge_phys + q * PAGE_SIZE) as u64, PTE_W) } else { 0u64 },
                        ),
                    ),
                decreases ENTRIES - j,
            {
                assert(j * 4096 <= 511 * 4096) by (nonlinear_arith)
                    requires
                        j < 512,
                ;
                let phys = huge_phys + (j as u64) * (PAGE_SIZE as u64);
                let ghost m2 = self@;
                let ghost j0 = j;
                self.set_entry(child, j, pte_make(phys, PTE_W));
                j = j + 1;
                proof {
                    assert(self@[child] =~= Seq::new(
                        ENTRIES as nat,
                        |q: int| if q < j { made((huge_phys + q * PAGE_SIZE) as u64, PTE_W) } else { 0u64 },
                    ));
                    assert(self@ =~= m1.insert(
                        child,
                        Seq::new(
                            ENTRIES as nat,
                            |q: int| if q < j { made((huge_phys + q * PAGE_SIZE) as u64, PTE_W) } else { 0u64 },
                        ),
                    ));
                }
            }
            self.set_entry(tab, idx, pte_make(child, flags));
            proof {
                let e0 = old(self)@[tab][idx as int];
                assert(e1 == e0 | flags);
                assert(Seq::new(
                    ENTRIES as nat,
                    |q: int| if q < ENTRIES { made((huge_phys + q * PAGE_SIZE) as u64, PTE_W) } else { 0u64 },
                ) =~= split_of(e0 | flags));
                assert(self@[tab] =~= old(self)@[tab].update(idx as int, made(child, flags)));
                assert(self@ =~= old(self)@.insert(child, split_of(e0 | flags)).insert(
                    tab,
                    old(self)@[tab].update(idx as int, made(child, flags)),
                ));
                self.lemma_wf();
                if aligned_pool(pm1) {
                    pm1.lemma_free_frame(pm1.frame_of(child as int));
                    lemma_pool_addr(pm1, pm1.frame_of(child as int));
                    lemma_entry_bits(0, flags, child);
                }
            }
            return child;
        }
        proof {
            self.lemma_wf();
        }
        e1 & PTE_ADDR
    }
}

impl TableMem {
    /// Map the 4K page at `v` to the frame at `p` with flags `f` under
    /// `p4`, creating the tables on the way (writable, and user-accessible
    /// for a user mapping) and splitting a huge page in the way. Returns
    /// -1, changing nothing, when `v` or `p` is not page-aligned or `p4`
    /// is 0; else 0, and a walk to `v` then ends at the new entry.
    pub fn vmap(&mut self, pmm: &mut Pmm, p4: PhysAddr, v: VirtAddr, p: PhysAddr, f: u64) -> (r: i32)
        requires
            old(self).wf(),
            old(pmm).wf(),
            tables_held(old(self)@, *old(pmm)),
            v & 0xFFF == 0 && p & 0xFFF == 0 && p4 != 0 ==> path_ok(old(self)@, p4, v) && old(
                pmm,
            ).free_set().len() >= vmap_need(old(self)@, p4, v),
        ensures
            final(self).wf(),
            final(pmm).wf(),
            final(pmm).base() == old(pmm).base(),
            final(pmm).size() == old(pmm).size(),
            tables_held(final(self)@, *final(pmm)),
            r == 0 || r == -1,
            r == -1 <==> !(v & 0xFFF == 0 && p & 0xFFF == 0 && p4 != 0),
            r == -1 ==> final(self)@ == old(self)@ && *final(pmm) == *old(pmm),
            r == 0 ==> final(pmm).free_set().subset_of(old(pmm).free_set()),
            r == 0 && aligned_pool(*old(pmm)) ==> translate(final(self)@, p4, v) == Some(
                addr(made(p, f)) | (v & 0xFFF),
            ),
            r == 0 && aligned_pool(*old(pmm)) ==> path_ok(final(self)@, p4, v) && small_leaf(final(self)@, p4, v),
            forall|a: u64| #[trigger] old(self)@.dom().contains(a) ==> final(self)@.dom().contains(a),
            forall|i: int|
                #![trigger old(pmm).free_set().contains(i), final(pmm).free_set().contains(i)]
                old(pmm).free_set().contains(i) && !final(pmm).free_set().contains(i) ==> final(self)@.dom().contains(
                    old(pmm).addr_of(i) as u64,
                ) && !old(self)@.dom().contains(old(pmm).addr_of(i) as u64),
            r == 0 && leaf_free(old(self)@, p4, v) ==> forall|u: u64|
                #[trigger] small_mapped(old(self)@, p4, u) ==> small_mapped(final(self)@, p4, u) && translate(
                    final(self)@,
                    p4,
                    u,
                ) == translate(old(self)@, p4, u),
            r == 0 && aligned_pool(*old(pmm)) && f & PTE_PS == 0 ==> small_mapped(final(self)@, p4, v),
    {
        if v & 0xFFF != 0 || p & 0xFFF != 0 || p4 == 0 {
            return -1;
        }
        let inter = if f & PTE_U != 0 { PTE_WU } else { PTE_W };
        let ghost m0 = self@;
        let ghost pm0 = *pmm;
        proof {
            self.lemma_wf();
            pmm.lemma_free_set_finite();
            lemma_zero_absent();
        }
        let k4 = i4(v);
        let p3 = self.goc(pmm, p4, k4, inter);
        let ghost m1 = self@;
        let ghost pm1 = *pmm;
        proof {
            self.lemma_wf();
            pmm.lemma_free_set_finite();
            let e4 = m0[p4][k4 as int];
            if !present(e4) {
                assert(m1[p3] == zeros());
                assert(pm1.free_set().len() == pm0.free_set().len() - 1);
            } else {
                assert(m1[p3] == m0[p3]);
            }
        }
        let k3 = i3(v);
        let p2 = self.goc(pmm, p3, k3, inter);
        let ghost m2 = self@;
        let ghost pm2 = *pmm;
        proof {
            self.lemma_wf();
            pmm.lemma_free_set_finite();
            let e4 = m0[p4][k4 as int];
            let e3 = m1[p3][k3 as int];
            if !present(e3) {
                assert(m2[p2] == zeros());
                assert(pm2.free_set().len() == pm1.free_set().len() - 1);
                assert(!m1.dom().contains(p2));
            } else {
                assert(present(e4));
                assert(m2[p2] == m1[p2]);
                assert(m1[p2] == m0[p2]);
            }
        }
        let k2 = i2(v);
        let p1 = self.goc(pmm, p2, k2, inter);
        let ghost m3 = self@;
        let ghost pm3 = *pmm;
        proof {
            self.lemma_wf();
            let e4 = m0[p4][k4 as int];
            let e3 = m1[p3][k3 as int];
            let e2 = m2[p2][k2 as int];
            if present(e2) && !huge(e2) {
                assert(present(e3));
                assert(present(e4));
                assert(m2[p2] == m0[p2]);
                assert(m3.dom().contains(p1));
            } else {
                assert(!m2.dom().contains(p1));
            }
        }
        let k1 = i1(v);
        self.set_entry(p1, k1, pte_make(p, f));
        proof {
            let m4 = self@;
            assert(pm3.free_set().subset_of(pm0.free_set()));
            if aligned_pool(pm0) {
                assert(aligned_pool(pm1));
                assert(aligned_pool(pm2));
                crate::vmm::law_pte_make_roundtrip(p, f);
                assert(m4[p4] == m1[p4]);
                assert(m4[p3] == m2[p3]);
                assert(m4[p2] == m3[p2]);
                assert(m4[p1][k1 as int] == made(p, f));
                assert(translate(m4, p4, v) == Some(addr(made(p, f)) | (v & 0xFFF)));
                assert(path_ok(m4, p4, v));
                assert(small_leaf(m4, p4, v));
                if f & PTE_PS == 0 {
                    lemma_leaf_bits(p, f);
                    assert(small_mapped(m4, p4, v));
                }
            }
        }
        proof {
            let m4 = self@;
            lemma_entry_bits(0, inter, 0);
            assert(goc_step(m0, m1, p4, k4 as int, inter, p3));
            assert(goc_step(m1, m2, p3, k3 as int, inter, p2));
            assert(goc_step(m2, m3, p2, k2 as int, inter, p1));
            assert(m4 == m3.insert(p1, m3[p1].update(k1 as int, made(p, f))));
            assert(!present(ent(m3, p1, k1 as int)) || !m0.dom().contains(p1) || !leaf_free(m0, p4, v));
            if leaf_free(m0, p4, v) {
                assert forall|u: u64| #[trigger] small_mapped(m0, p4, u) implies small_mapped(m4, p4, u) && translate(
                    m4,
                    p4,
                    u,
                ) == translate(m0, p4, u) by {
                    lemma_goc_keeps(m0, m1, p4, k4 as int, inter, p3, p4, u);
                    lemma_goc_keeps(m1, m2, p3, k3 as int, inter, p2, p4, u);
                    lemma_goc_keeps(m2, m3, p2, k2 as int, inter, p1, p4, u);
                    assert(!on_walk(m0, p4, u, p1, k1 as int));
                    lemma_write_keeps(m3, m4, p1, k1 as int, made(p, f), p4, u);
                }
            }
        }
        0
    }
}

/// The entries the frame at `a` reads as: its table, or zeros.
pub open spec fn tab_or_zero(m: Map<u64, Seq<u64>>, a: u64) -> Seq<u64> {
    if m.dom().contains(a) {
        m[a]
    } else {
        zeros()
    }
}

/// The tables after writing `v` into entry `i` of the frame at `a`.
pub open spec fn put(m: Map<u64, Seq<u64>>, a: u64, i: int, v: u64) -> Map<u64, Seq<u64>> {
    m.insert(a, tab_or_zero(m, a).update(i, v))
}

/// Every entry of the frame at `a` reads as zero.
pub open spec fn all_zero(m: Map<u64, Seq<u64>>, a: u64) -> bool {
    forall|i: int| 0 <= i < ENTRIES ==> #[trigger] ent(m, a, i) == 0
}

/// What unmapping `v` under `p4` does: the tables afterwards, the table
/// frames given back (in order), and the frame of the leaf that loses an
/// owner. The leaf is cleared; a last-level table left empty is given back
/// and its entry cleared, and so on upwards, the top-level entry only in
/// the lower half.
pub open spec fn unmap_effect(m: Map<u64, Seq<u64>>, p4: u64, v: u64) -> (Map<u64, Seq<u64>>, Seq<u64>, Option<u64>) {
    let e4 = ent(m, p4, idx4(v));
    let p3 = addr(e4);
    let e3 = ent(m, p3, idx3(v));
    let p2 = addr(e3);
    let e2 = ent(m, p2, idx2(v));
    let p1 = addr(e2);
    let e = ent(m, p1, idx1(v));
    if p4 == 0 || !present(e4) || !present(e3) || !present(e2) {
        (m, Seq::empty(), None)
    } else {
        let leaf = if present(e) { Some(addr(e)) } else { None };
        let m1 = if present(e) { put(m, p1, idx1(v), 0) } else { m };
        if !all_zero(m1, p1) {
            (m1, Seq::empty(), leaf)
        } else {
            let m2 = put(m1.remove(p1), p2, idx2(v), 0);
            if !all_zero(m2, p2) {
                (m2, seq![p1], leaf)
            } else {
                let m3 = put(m2.remove(p2), p3, idx3(v), 0);
                if !(all_zero(m3, p3) && idx4(v) < 256) {
                    (m3, seq![p1, p2], leaf)
                } else {
                    (put(m3.remove(p3), p4, idx4(v), 0), seq![p1, p2, p3], leaf)
                }
            }
        }
    }
}

/// The walk to `v` under `p4` ends at a present huge entry.
pub open spec fn huge_walk(m: Map<u64, Seq<u64>>, p4: u64, v: u64) -> bool {
    let e4 = ent(m, p4, idx4(v));
    let e3 = ent(m, addr(e4), idx3(v));
    let e2 = ent(m, addr(e3), idx2(v));
    &&& p4 != 0
    &&& present(e4)
    &&& huge(e4) || (present(e3) && (huge(e3) || (present(e2) && huge(e2))))
}

proof fn lemma_offset_bits(e: u64, v: u64, w: u64)
    by (bit_vector)
    requires
        v <= w,
    ensures
        v / 0x1000 == w / 0x1000 ==> (e & 0x000F_FFFF_FFFF_F000) | (w & 0xFFF) == ((e & 0x000F_FFFF_FFFF_F000) | (v
            & 0xFFF)) + (w - v),
        v / 0x20_0000 == w / 0x20_0000 ==> (e & 0x000F_FFFF_FFE0_0000) | (w & 0x1F_FFFF) == ((e
            & 0x000F_FFFF_FFE0_0000) | (v & 0x1F_FFFF)) + (w - v),
        ((e & 0x000F_FFFF_FFFF_F000) | (v & 0xFFF)) & 0xFFF == v & 0xFFF,
        ((e & 0x000F_FFFF_FFE0_0000) | (v & 0x1F_FFFF)) & 0x1F_FFFF == v & 0x1F_FFFF,
        v / 0x1000 == w / 0x1000 ==> v / 0x20_0000 == w / 0x20_0000,
{
}

/// Law: translation keeps the offset of an address in its page: the
/// result shares the low 12 bits with `v`, and the low 21 bits when the
/// walk ends at a huge entry.
pub proof fn law_translate_keeps_offset(m: Map<u64, Seq<u64>>, p4: u64, v: u64)
    ensures
        translate(m, p4, v) matches Some(p) ==> p & 0xFFF == v & 0xFFF,
        huge_walk(m, p4, v) ==> (translate(m, p4, v) matches Some(p) && p & 0x1F_FFFF == v & 0x1F_FFFF),
{
    let e4 = ent(m, p4, idx4(v));
    let e3 = ent(m, addr(e4), idx3(v));
    let e2 = ent(m, addr(e3), idx2(v));
    let e1 = ent(m, addr(e2), idx1(v));
    lemma_offset_bits(e4, v, v);
    lemma_offset_bits(e3, v, v);
    lemma_offset_bits(e2, v, v);
    lemma_offset_bits(e1, v, v);
    lemma_huge_low_bits(e4, v);
    lemma_huge_low_bits(e3, v);
    lemma_huge_low_bits(e2, v);
}

proof fn lemma_huge_low_bits(e: u64, v: u64)
    by (bit_vector)
    ensures
        ((e & 0x000F_FFFF_FFE0_0000) | (v & 0x1F_FFFF)) & 0xFFF == v & 0xFFF,
{
}

/// Law: addresses in one 4K page translate alike, one byte apart for one
/// byte apart: `w` leads `w - v` bytes past where `v` leads, or both lead
/// nowhere.
pub proof fn law_translate_within_page(m: Map<u64, Seq<u64>>, p4: u64, v: u64, w: u64)
    requires
        v <= w,
        v / 0x1000 == w / 0x1000,
    ensures
        translate(m, p4, v) is None ==> translate(m, p4, w) is None,
        translate(m, p4, v) matches Some(p) ==> translate(m, p4, w) == Some((p + (w - v)) as u64),
{
    lemma_same_indices(v, w);
    let e4 = ent(m, p4, idx4(v));
    let e3 = ent(m, addr(e4), idx3(v));
    let e2 = ent(m, addr(e3), idx2(v));
    let e1 = ent(m, addr(e2), idx1(v));
    lemma_offset_bits(e4, v, w);
    lemma_offset_bits(e3, v, w);
    lemma_offset_bits(e2, v, w);
    lemma_offset_bits(e1, v, w);
}

/// Law: addresses in one 2 MiB page whose walk ends at a huge entry
/// translate one byte apart for one byte apart.
pub proof fn law_translate_within_huge_page(m: Map<u64, Seq<u64>>, p4: u64, v: u64, w: u64)
    requires
        v <= w,
        v / 0x20_0000 == w / 0x20_0000,
        huge_walk(m, p4, v),
    ensures
        translate(m, p4, v) matches Some(p) && translate(m, p4, w) == Some((p + (w - v)) as u64),
{
    lemma_same_huge_indices(v, w);
    let e4 = ent(m, p4, idx4(v));
    let e3 = ent(m, addr(e4), idx3(v));
    let e2 = ent(m, addr(e3), idx2(v));
    lemma_offset_bits(e4, v, w);
    lemma_offset_bits(e3, v, w);
    lemma_offset_bits(e2, v, w);
}

proof fn lemma_same_huge_indices(v: u64, w: u64)
    requires
        v / 0x20_0000 == w / 0x20_0000,
    ensures
        idx4(v) == idx4(w),
        idx3(v) == idx3(w),
        idx2(v) == idx2(w),
{
    vstd::arithmetic::div_mod::lemma_div_denominator(v as int, 0x20_0000, 0x200);
    vstd::arithmetic::div_mod::lemma_div_denominator(w as int, 0x20_0000, 0x200);
    vstd::arithmetic::div_mod::lemma_div_denominator(v as int, 0x20_0000, 0x4_0000);
    vstd::arithmetic::div_mod::lemma_div_denominator(w as int, 0x20_0000, 0x4_0000);
}

proof fn lemma_same_indices(v: u64, w: u64)
    requires
        v / 0x1000 == w / 0x1000,
    ensures
        idx4(v) == idx4(w),
        idx3(v) == idx3(w),
        idx2(v) == idx2(w),
        idx1(v) == idx1(w),
        v / 0x20_0000 == w / 0x20_0000,
{
    vstd::arithmetic::div_mod::lemma_div_denominator(v as int, 0x1000, 0x200);
    vstd::arithmetic::div_mod::lemma_div_denominator(w as int, 0x1000, 0x200);
    lemma_same_huge_indices(v, w);
}

/// Tables after unmapping `v` under `p4`, except that a leaf whose frame
/// lies below `base` is left alone.
pub open spec fn unmap_step(m: Map<u64, Seq<u64>>, p4: u64, v: u64, base: int) -> Map<u64, Seq<u64>> {
    if unmap_effect(m, p4, v).2 matches Some(f) && f < base {
        m
    } else {
        unmap_effect(m, p4, v).0
    }
}

/// Tables after `unmap_step` on the `n` pages from `from`, in order.
pub open spec fn unmap_run(m: Map<u64, Seq<u64>>, p4: u64, from: int, n: nat, base: int) -> Map<u64, Seq<u64>>
    decreases n,
{
    if n == 0 {
        m
    } else {
        unmap_step(unmap_run(m, p4, from, (n - 1) as nat, base), p4, (from + (n - 1) * PAGE_SIZE) as u64, base)
    }
}

/// Whether dropping an owner of the frame at `f` frees it.
pub open spec fn dec_frees(pmm: Pmm, f: u64) -> bool {
    let i = pmm.frame_of(f as int);
    i < crate::mm::pmm::MAX_FRAMES && pmm.refcount(i) == 1 && i < pmm.limit()
}

/// Whether giving back the frame at `a` makes a frame free.
pub open spec fn frees_frame(pmm: Pmm, a: u64) -> bool {
    a >= pmm.base() && pmm.frame_of(a as int) < pmm.limit()
}

impl TableMem {
    /// Write entry `i` of the frame at `a`, which becomes a table if it
    /// held none.
    pub fn write_entry(&mut self, a: PhysAddr, i: usize, val: u64)
        requires
            old(self).wf(),
            i < ENTRIES,
        ensures
            final(self).wf(),
            final(self)@ == put(old(self)@, a, i as int, val),
    {
        if !self.has_table(a) {
            self.add_table(a);
        }
        self.set_entry(a, i, val);
    }

    /// Whether every entry of the frame at `a` is zero.
    fn pt_empty(&self, a: PhysAddr) -> (r: bool)
        requires
            self.wf(),
        ensures
            r == all_zero(self@, a),
    {
        let mut i: usize = 0;
        while i < ENTRIES
            invariant
                self.wf(),
                i <= ENTRIES,
                forall|q: int| 0 <= q < i ==> #[trigger] ent(self@, a, q) == 0,
            decreases ENTRIES - i,
        {
            if self.entry(a, i) != 0 {
                return false;
            }
            i = i + 1;
        }
        true
    }

    /// Frame of the leaf entry that unmapping `v` under `p4` clears, if any.
    pub fn unmap_leaf(&self, p4: PhysAddr, v: VirtAddr) -> (r: Option<u64>)
        requires
            self.wf(),
        ensures
            r == unmap_effect(self@, p4, v).2,
    {
        if p4 == 0 {
            return None;
        }
        let e4 = self.entry(p4, i4(v));
        if e4 & PTE_P == 0 {
            return None;
        }
        let e3 = self.entry(e4 & PTE_ADDR, i3(v));
        if e3 & PTE_P == 0 {
            return None;
        }
        let e2 = self.entry(e3 & PTE_ADDR, i2(v));
        if e2 & PTE_P == 0 {
            return None;
        }
        let e = self.entry(e2 & PTE_ADDR, i1(v));
        if e & PTE_P == 0 {
            None
        } else {
            Some(e & PTE_ADDR)
        }
    }

    /// Unmap the `pages` pages from `from` under `p4` one after another; a
    /// page whose frame lies below the frame pool is left mapped.
    pub fn unmap_pages(&mut self, pmm: &mut Pmm, p4: PhysAddr, from: VirtAddr, pages: usize)
        requires
            old(self).wf(),
            old(pmm).wf(),
            from + pages * PAGE_SIZE <= u64::MAX,
        ensures
            final(self).wf(),
            final(pmm).wf(),
            final(pmm).base() == old(pmm).base(),
            final(pmm).size() == old(pmm).size(),
            final(self)@ == unmap_run(old(self)@, p4, from as int, pages as nat, old(pmm).base()),
    {
        let ghost m0 = self@;
        let ghost b0 = pmm.base();
        let mut k: usize = 0;
        while k < pages
            invariant
                self.wf(),
                pmm.wf(),
                pmm.base() == b0,
                b0 == old(pmm).base(),
                m0 == old(self)@,
                pmm.size() == old(pmm).size(),
                k <= pages,
                from + pages * PAGE_SIZE <= u64::MAX,
                self@ == unmap_run(m0, p4, from as int, k as nat, b0),
            decreases pages - k,
        {
            proof {
                vstd::arithmetic::mul::lemma_mul_inequality(k as int, pages as int, PAGE_SIZE as int);
            }
            let v = from + (k as u64) * (PAGE_SIZE as u64);
            let ghost m1 = self@;
            let leaf = self.unmap_leaf(p4, v);
            let skip = match leaf {
                Some(f) => f < pmm.base_addr(),
                None => false,
            };
            if !skip {
                self.vunmap(pmm, p4, v);
            }
            proof {
                assert(self@ == unmap_step(m1, p4, v, b0));
            }
            k = k + 1;
        }
    }

    /// Unmap the 4K page at `v` under `p4`: its frame loses an owner, and
    /// tables left empty are given back (see `unmap_effect`). A null `p4`
    /// or a walk that ends early changes nothing.
    #[verifier::spinoff_prover]
    #[verifier::rlimit(40)]
    pub fn vunmap(&mut self, pmm: &mut Pmm, p4: PhysAddr, v: VirtAddr)
        requires
            old(self).wf(),
            old(pmm).wf(),
            unmap_effect(old(self)@, p4, v).2 matches Some(f) ==> old(pmm).base() <= f,
        ensures
            final(self).wf(),
            final(pmm).wf(),
            final(pmm).base() == old(pmm).base(),
            final(pmm).size() == old(pmm).size(),
            final(self)@ == unmap_effect(old(self)@, p4, v).0,
            ({
                let (_, freed, leaf) = unmap_effect(old(self)@, p4, v);
                &&& forall|k: int| #[trigger] final(pmm).free_set().contains(k) <==> (old(pmm).free_set().contains(k)
                    || (leaf matches Some(f) && dec_frees(*old(pmm), f) && k == old(pmm).frame_of(f as int))
                    || exists|j: int|
                    0 <= j < freed.len() && frees_frame(*old(pmm), freed[j]) && k == old(pmm).frame_of(
                        freed[j] as int,
                    ))
                &&& forall|k: int|
                    0 <= k < crate::mm::pmm::MAX_FRAMES ==> #[trigger] final(pmm).refcount(k) == if leaf matches Some(
                        f,
                    ) && k == old(pmm).frame_of(f as int) && old(pmm).refcount(k) != u16::MAX {
                        crate::mm::pmm::dec_count(old(pmm).refcount(k))
                    } else {
                        old(pmm).refcount(k)
                    }
            }),
    {
        if p4 == 0 {
            return;
        }
        let k4 = i4(v);
        let k3 = i3(v);
        let k2 = i2(v);
        let k1 = i1(v);
        let e4 = self.entry(p4, k4);
        if e4 & PTE_P == 0 {
            return;
        }
        let p3 = e4 & PTE_ADDR;
        let e3 = self.entry(p3, k3);
        if e3 & PTE_P == 0 {
            return;
        }
        let p2 = e3 & PTE_ADDR;
        let e2 = self.entry(p2, k2);
        if e2 & PTE_P == 0 {
            return;
        }
        let p1 = e2 & PTE_ADDR;
        let e = self.entry(p1, k1);
        let ghost pm0 = *pmm;
        let ghost m0 = self@;
        let ghost eff = unmap_effect(m0, p4, v);
        assert(eff.2 == if present(e) { Some(addr(e)) } else { None::<u64> });
        if e & PTE_P != 0 {
            let _ = pmm.frame_dec(e & PTE_ADDR);
            self.write_entry(p1, k1, 0);
        }
        let ghost pm1 = *pmm;
        proof {
            assert forall|k: int| #[trigger] pm1.free_set().contains(k) <==> (pm0.free_set().contains(k)
                || (present(e) && dec_frees(pm0, addr(e)) && k == pm0.frame_of(addr(e) as int))) by {}
        }
        if self.pt_empty(p1) {
            pmm.mm_free_nolock(p1);
            self.drop_table(p1);
            self.write_entry(p2, k2, 0);
            let ghost pm2 = *pmm;
            if self.pt_empty(p2) {
                pmm.mm_free_nolock(p2);
                self.drop_table(p2);
                self.write_entry(p3, k3, 0);
                let ghost pm3 = *pmm;
                if self.pt_empty(p3) && k4 < 256 {
                    pmm.mm_free_nolock(p3);
                    self.drop_table(p3);
                    self.write_entry(p4, k4, 0);
                    proof {
                        let freed = seq![p1, p2, p3];
                        assert(eff.1 =~= freed);
                        assert forall|k: int| #[trigger] pmm.free_set().contains(k) <==> (pm0.free_set().contains(k)
                            || (present(e) && dec_frees(pm0, addr(e)) && k == pm0.frame_of(addr(e) as int))
                            || exists|j: int|
                            0 <= j < freed.len() && frees_frame(pm0, freed[j]) && k == pm0.frame_of(freed[j] as int)) by {
                            if frees_frame(pm0, p1) && k == pm0.frame_of(p1 as int) {
                                assert(freed[0] == p1);
                            }
                            if frees_frame(pm0, p2) && k == pm0.frame_of(p2 as int) {
                                assert(freed[1] == p2);
                            }
                            if frees_frame(pm0, p3) && k == pm0.frame_of(p3 as int) {
                                assert(freed[2] == p3);
                            }
                        }
                    }
                } else {
                    proof {
                        let freed = seq![p1, p2];
                        assert(eff.1 =~= freed);
                        assert forall|k: int| #[trigger] pmm.free_set().contains(k) <==> (pm0.free_set().contains(k)
                            || (present(e) && dec_frees(pm0, addr(e)) && k == pm0.frame_of(addr(e) as int))
                            || exists|j: int|
                            0 <= j < freed.len() && frees_frame(pm0, freed[j]) && k == pm0.frame_of(freed[j] as int)) by {
                            if frees_frame(pm0, p1) && k == pm0.frame_of(p1 as int) {
                                assert(freed[0] == p1);
                            }
                            if frees_frame(pm0, p2) && k == pm0.frame_of(p2 as int) {
                                assert(freed[1] == p2);
                            }
                        }
                    }
                }
            } else {
                proof {
                    let freed = seq![p1];
                    assert(eff.1 =~= freed);
                    assert forall|k: int| #[trigger] pmm.free_set().contains(k) <==> (pm0.free_set().contains(k)
                        || (present(e) && dec_frees(pm0, addr(e)) && k == pm0.frame_of(addr(e) as int))
                        || exists|j: int|
                        0 <= j < freed.len() && frees_frame(pm0, freed[j]) && k == pm0.frame_of(freed[j] as int)) by {
                        if frees_frame(pm0, p1) && k == pm0.frame_of(p1 as int) {
                            assert(freed[0] == p1);
                        }
                    }
                }
            }
        } else {
            proof {
                let freed = Seq::<u64>::empty();
                assert(eff.1 =~= freed);
                assert forall|k: int| #[trigger] pmm.free_set().contains(k) <==> (pm0.free_set().contains(k)
                    || (present(e) && dec_frees(pm0, addr(e)) && k == pm0.frame_of(addr(e) as int))
                    || exists|j: int|
                    0 <= j < freed.len() && frees_frame(pm0, freed[j]) && k == pm0.frame_of(freed[j] as int)) by {}
            }
        }
    }
}

/// The walk to `v` under `p4` meets no huge page in the page directory.
pub open spec fn small_leaf(m: Map<u64, Seq<u64>>, p4: u64, v: u64) -> bool {
    let e2 = ent(m, addr(ent(m, addr(ent(m, p4, idx4(v))), idx3(v))), idx2(v));
    present(e2) ==> !huge(e2)
}

/// Law: once the page at `v` is unmapped, a walk to `v` finds nothing,
/// when the tables on the way are distinct and the page is not part of a
/// huge page.
pub proof fn law_unmap_clears(m: Map<u64, Seq<u64>>, p4: u64, v: u64)
    requires
        path_ok(m, p4, v),
        small_leaf(m, p4, v),
        forall|a: u64| #[trigger] m.dom().contains(a) ==> m[a].len() == ENTRIES,
    ensures
        translate(unmap_effect(m, p4, v).0, p4, v) is None,
{
    lemma_zero_absent();
    let e4 = ent(m, p4, idx4(v));
    let p3 = addr(e4);
    let e3 = ent(m, p3, idx3(v));
    let p2 = addr(e3);
    let e2 = ent(m, p2, idx2(v));
    let p1 = addr(e2);
    let e = ent(m, p1, idx1(v));
    if p4 == 0 || !present(e4) || !present(e3) || !present(e2) {
    } else {
        let m1 = if present(e) { put(m, p1, idx1(v), 0) } else { m };
        assert(ent(m1, p4, idx4(v)) == e4);
        assert(ent(m1, p3, idx3(v)) == e3);
        assert(ent(m1, p2, idx2(v)) == e2);
        assert(ent(m1, p1, idx1(v)) == 0 || !present(e));
        if all_zero(m1, p1) {
            let m2 = put(m1.remove(p1), p2, idx2(v), 0);
            assert(ent(m2, p4, idx4(v)) == e4);
            assert(ent(m2, p3, idx3(v)) == e3);
            assert(ent(m2, p2, idx2(v)) == 0);
            if all_zero(m2, p2) {
                let m3 = put(m2.remove(p2), p3, idx3(v), 0);
                assert(ent(m3, p4, idx4(v)) == e4);
                assert(ent(m3, p3, idx3(v)) == 0);
                if all_zero(m3, p3) && idx4(v) < 256 {
                    let m4 = put(m3.remove(p3), p4, idx4(v), 0);
                    assert(ent(m4, p4, idx4(v)) == 0);
                }
            }
        }
    }
}

/// The entries a page-fault report shows for an address: its index at
/// each level and the entry read there, as far as the walk goes.
#[derive(Copy, Clone, Debug)]
pub struct FaultWalk {
    pub idx: [usize; 4],
    pub pml4e: u64,
    pub pdpte: Option<u64>,
    pub pde: Option<u64>,
    pub pte: Option<u64>,
}

/// Whether a page-fault error code reports a user-mode access and a write.
pub fn fault_kind(err: u64) -> (r: (bool, bool))
    ensures
        r == (err & 4 != 0, err & 2 != 0),
{
    (err & 4 != 0, err & 2 != 0)
}

impl TableMem {
    /// The walk a page-fault report prints for `va` under `cr3`: each
    /// next entry is read only when the one above it is present.
    pub fn fault_walk(&self, cr3: PhysAddr, va: VirtAddr) -> (r: FaultWalk)
        requires
            self.wf(),
        ensures
            r.idx@ == seq![idx4(va) as usize, idx3(va) as usize, idx2(va) as usize, idx1(va) as usize],
            r.pml4e == ent(self@, cr3, idx4(va)),
            r.pdpte == if present(r.pml4e) { Some(ent(self@, addr(r.pml4e), idx3(va))) } else { None },
            r.pde == match r.pdpte {
                Some(e) => if present(e) { Some(ent(self@, addr(e), idx2(va))) } else { None },
                None => None,
            },
            r.pte == match r.pde {
                Some(e) => if present(e) { Some(ent(self@, addr(e), idx1(va))) } else { None },
                None => None,
            },
    {
        let idx = [i4(va), i3(va), i2(va), i1(va)];
        let pml4e = self.entry(cr3, idx[0]);
        let mut pdpte: Option<u64> = None;
        let mut pde: Option<u64> = None;
        let mut pte: Option<u64> = None;
        if pml4e & PTE_P != 0 {
            let e3 = self.entry(pml4e & PTE_ADDR, idx[1]);
            pdpte = Some(e3);
            if e3 & PTE_P != 0 {
                let e2 = self.entry(e3 & PTE_ADDR, idx[2]);
                pde = Some(e2);
                if e2 & PTE_P != 0 {
                    pte = Some(self.entry(e2 & PTE_ADDR, idx[3]));
                }
            }
        }
        assert(idx@ =~= seq![idx4(va) as usize, idx3(va) as usize, idx2(va) as usize, idx1(va) as usize]);
        FaultWalk { idx, pml4e, pdpte, pde, pte }
    }
}

} // verus!
