//! Per-thread allocator of user virtual address ranges.
//!
//! A `VAddrSpace` hands out page-granular ranges of the window
//! `VSPACE_BASE..VSPACE_TOP`. Ranges come first-fit from a sorted list of
//! returned regions, otherwise from a bump pointer that only grows upwards.
//! Returning the range just below the bump pointer pulls the pointer back
//! (swallowing any returned regions that end where it lands); any other
//! range is inserted into the sorted list and merged with its neighbours.
use vstd::prelude::*;
use crate::mm::PAGE_SIZE;

verus! {

/// Lower bound of the dynamic user address window (128 MiB).
pub const VSPACE_BASE: u64 = 0x0800_0000;

/// Upper bound of the dynamic user address window (2 GiB).
pub const VSPACE_TOP: u64 = 0x8000_0000;

/// Number of slots in the list of returned regions.
pub const MAX_FREE: usize = 64;

/// One returned region of the address window.
#[derive(Copy, Clone, Debug)]
pub struct FreeRegion {
    pub base: u64,
    pub pages: usize,
}

impl FreeRegion {
    /// First address past the region, as a mathematical integer.
    pub open spec fn spec_end(self) -> int {
        self.base + self.pages * PAGE_SIZE
    }

    pub open spec fn is_zero(self) -> bool {
        self.base == 0 && self.pages == 0
    }

    pub fn zero() -> (r: Self)
        ensures
            r.is_zero(),
    {
        FreeRegion { base: 0, pages: 0 }
    }

    pub fn end(&self) -> (r: u64)
        requires
            self.spec_end() <= u64::MAX,
        ensures
            r == self.spec_end(),
    {
        proof {
            vstd::arithmetic::mul::lemma_mul_nonnegative(self.pages as int, PAGE_SIZE as int);
        }
        self.base + self.pages as u64 * PAGE_SIZE as u64
    }
}

/// Sum of the page counts of a list of regions.
pub open spec fn sum_pages(rs: Seq<FreeRegion>) -> nat
    decreases rs.len(),
{
    if rs.len() == 0 {
        0
    } else {
        sum_pages(rs.drop_last()) + rs.last().pages as nat
    }
}

/// The region `r` with `n` pages cut off its front.
pub open spec fn cut_front(r: FreeRegion, n: int) -> FreeRegion {
    FreeRegion { base: (r.base + n * PAGE_SIZE) as u64, pages: (r.pages - n) as usize }
}

/// `i` is the first region that holds at least `n` pages.
pub open spec fn is_first_fit(rs: Seq<FreeRegion>, n: int, i: int) -> bool {
    &&& 0 <= i < rs.len()
    &&& rs[i].pages >= n
    &&& forall|j: int| 0 <= j < i ==> #[trigger] rs[j].pages < n
}

/// No region holds `n` pages.
pub open spec fn no_fit(rs: Seq<FreeRegion>, n: int) -> bool {
    forall|j: int| 0 <= j < rs.len() ==> #[trigger] rs[j].pages < n
}

/// The list after `n` pages are taken from the front of region `i`.
pub open spec fn take_from(rs: Seq<FreeRegion>, i: int, n: int) -> Seq<FreeRegion> {
    if rs[i].pages == n {
        rs.remove(i)
    } else {
        rs.update(i, cut_front(rs[i], n))
    }
}

/// Index of the first region ending at `b` at or after `i`, or -1.
pub open spec fn first_end_at(rs: Seq<FreeRegion>, b: int, i: int) -> int
    decreases rs.len() - i,
{
    if i < 0 || i >= rs.len() {
        -1
    } else if rs[i].spec_end() == b {
        i
    } else {
        first_end_at(rs, b, i + 1)
    }
}

/// The bump pointer and list after the bump pointer is pulled back to `b`
/// and then, repeatedly, to the start of the first region that ends where
/// it stands (that region leaving the list).
pub open spec fn retract(b: int, rs: Seq<FreeRegion>) -> (int, Seq<FreeRegion>)
    decreases rs.len(),
{
    let i = first_end_at(rs, b, 0);
    if 0 <= i < rs.len() {
        retract(rs[i].base as int, rs.remove(i))
    } else {
        (b, rs)
    }
}

/// Index of the first region whose base lies above `a` at or after `i`,
/// or the length of the list.
pub open spec fn insert_pos(rs: Seq<FreeRegion>, a: int, i: int) -> int
    decreases rs.len() - i,
{
    if i < 0 || i >= rs.len() {
        rs.len() as int
    } else if rs[i].base > a {
        i
    } else {
        insert_pos(rs, a, i + 1)
    }
}

/// The list with `r` inserted before the first region based above it.
pub open spec fn insert_sorted(rs: Seq<FreeRegion>, r: FreeRegion) -> Seq<FreeRegion> {
    rs.insert(insert_pos(rs, r.base as int, 0), r)
}

/// Region `i` extended by the pages of region `i + 1`.
pub open spec fn merged(rs: Seq<FreeRegion>, i: int) -> FreeRegion {
    FreeRegion { base: rs[i].base, pages: (rs[i].pages + rs[i + 1].pages) as usize }
}

/// Scanning from `i`: a region whose end is the base of its successor
/// absorbs the successor, and the scan stays on it; otherwise the scan
/// moves on.
pub open spec fn coalesce_from(rs: Seq<FreeRegion>, i: int) -> Seq<FreeRegion>
    decreases rs.len(), rs.len() - i,
{
    if 0 <= i && i + 1 < rs.len() {
        if rs[i].spec_end() == rs[i + 1].base {
            coalesce_from(rs.update(i, merged(rs, i)).remove(i + 1), i)
        } else {
            coalesce_from(rs, i + 1)
        }
    } else {
        rs
    }
}

/// Well-formed list of returned regions.
pub open spec fn regions_wf(rs: Seq<FreeRegion>) -> bool {
    &&& forall|i: int| 0 <= i < rs.len() ==> #[trigger] rs[i].pages > 0
    &&& forall|i: int| 0 <= i < rs.len() ==> #[trigger] rs[i].spec_end() <= u64::MAX
    &&& forall|i: int| 0 <= i < rs.len() ==> VSPACE_BASE <= #[trigger] rs[i].base
    &&& forall|i: int| 0 <= i < rs.len() ==> #[trigger] rs[i].base % PAGE_SIZE as u64 == 0
    &&& sum_pages(rs) <= usize::MAX
}

/// The regions of a list are pairwise disjoint and sorted by address.
pub open spec fn regions_disjoint(rs: Seq<FreeRegion>) -> bool {
    forall|i: int, j: int| 0 <= i < j < rs.len() ==> rs[i].spec_end() <= rs[j].base
}

/// Consecutive regions of a list do not touch: there is a gap between
/// each region and the next.
pub open spec fn regions_separated(rs: Seq<FreeRegion>) -> bool {
    forall|i: int| 0 <= i && i + 1 < rs.len() ==> #[trigger] rs[i].spec_end() < rs[i + 1].base
}

/// `[addr, end)` shares an address with region `r`.
pub open spec fn overlaps_range(r: FreeRegion, addr: int, end: int) -> bool {
    r.base < end && r.spec_end() > addr
}

/// The address space state of one thread.
#[derive(Copy, Clone)]
pub struct VAddrSpace {
    /// Next address the bump pointer hands out.
    pub bump: u64,
    /// Returned regions, sorted by base address; slots past `free_len` are zero.
    pub free: [FreeRegion; MAX_FREE],
    /// Number of slots of `free` in use.
    pub free_len: usize,
}

impl VAddrSpace {
    /// The returned regions in use, in list order.
    pub open spec fn regions(&self) -> Seq<FreeRegion> {
        self.free@.subrange(0, self.free_len as int)
    }

    pub open spec fn wf(&self) -> bool {
        &&& VSPACE_BASE <= self.bump <= VSPACE_TOP
        &&& self.bump % PAGE_SIZE as u64 == 0
        &&& self.free_len <= MAX_FREE
        &&& self.free@.len() == MAX_FREE
        &&& regions_wf(self.regions())
        &&& forall|i: int| self.free_len <= i < MAX_FREE ==> (#[trigger] self.free@[i]).is_zero()
    }

    /// A state reached by well-behaved use: the regions are disjoint and all
    /// lie below the bump pointer, none ending right at it.
    pub open spec fn tidy(&self) -> bool {
        &&& self.wf()
        &&& regions_disjoint(self.regions())
        &&& forall|i: int| 0 <= i < self.free_len ==> (#[trigger] self.regions()[i]).spec_end() < self.bump
    }

    /// The layout valloc keeps: tidy, and no two returned regions touch
    /// (touching ones are merged).
    pub open spec fn laid_out(&self) -> bool {
        &&& self.tidy()
        &&& regions_separated(self.regions())
    }

    /// Two states agree on everything observable.
    pub open spec fn same_state(&self, other: &Self) -> bool {
        &&& self.bump == other.bump
        &&& self.free_len == other.free_len
        &&& self.free@ == other.free@
    }

    pub fn new() -> (r: Self)
        ensures
            r.wf(),
            r.tidy(),
            r.bump == VSPACE_BASE,
            r.free_len == 0,
    {
        let r = VAddrSpace { bump: VSPACE_BASE, free: [FreeRegion { base: 0, pages: 0 }; MAX_FREE], free_len: 0 };
        proof {
            assert(r.regions() =~= Seq::<FreeRegion>::empty());
            assert(VSPACE_BASE % PAGE_SIZE as u64 == 0) by (nonlinear_arith);
        }
        r
    }

    /// Whether nothing has been handed out (initial state).
    pub fn is_empty(&self) -> (r: bool)
        ensures
            r == (self.bump == VSPACE_BASE && self.free_len == 0),
    {
        self.bump == VSPACE_BASE && self.free_len == 0
    }

    /// Pages handed out by the bump pointer (returned regions included).
    pub fn bump_pages(&self) -> (r: usize)
        requires
            self.wf(),
        ensures
            r == (self.bump - VSPACE_BASE) / PAGE_SIZE as int,
    {
        ((self.bump - VSPACE_BASE) / PAGE_SIZE as u64) as usize
    }
}

// ── Lemmas on the region list ────────────────────────────────────────────────

proof fn lemma_sum_pages_push(rs: Seq<FreeRegion>, r: FreeRegion)
    ensures
        sum_pages(rs.push(r)) == sum_pages(rs) + r.pages,
{
    assert(rs.push(r).drop_last() =~= rs);
}

proof fn lemma_sum_pages_remove(rs: Seq<FreeRegion>, i: int)
    requires
        0 <= i < rs.len(),
    ensures
        sum_pages(rs.remove(i)) + rs[i].pages == sum_pages(rs),
    decreases rs.len(),
{
    if i == rs.len() - 1 {
        assert(rs.remove(i) =~= rs.drop_last());
    } else {
        lemma_sum_pages_remove(rs.drop_last(), i);
        assert(rs.remove(i) =~= rs.drop_last().remove(i).push(rs.last()));
        lemma_sum_pages_push(rs.drop_last().remove(i), rs.last());
    }
}

proof fn lemma_sum_pages_insert(rs: Seq<FreeRegion>, i: int, r: FreeRegion)
    requires
        0 <= i <= rs.len(),
    ensures
        sum_pages(rs.insert(i, r)) == sum_pages(rs) + r.pages,
{
    lemma_sum_pages_remove(rs.insert(i, r), i);
    assert(rs.insert(i, r).remove(i) =~= rs);
}

proof fn lemma_sum_pages_update(rs: Seq<FreeRegion>, i: int, r: FreeRegion)
    requires
        0 <= i < rs.len(),
    ensures
        sum_pages(rs.update(i, r)) + rs[i].pages == sum_pages(rs) + r.pages,
{
    lemma_sum_pages_remove(rs, i);
    lemma_sum_pages_remove(rs.update(i, r), i);
    assert(rs.update(i, r).remove(i) =~= rs.remove(i));
}

proof fn lemma_sum_pages_pair(rs: Seq<FreeRegion>, i: int)
    requires
        0 <= i,
        i + 1 < rs.len(),
    ensures
        rs[i].pages + rs[i + 1].pages <= sum_pages(rs),
{
    lemma_sum_pages_remove(rs, i + 1);
    lemma_sum_pages_remove(rs.remove(i + 1), i);
}

proof fn lemma_first_end_at(rs: Seq<FreeRegion>, b: int, i: int)
    requires
        0 <= i,
    ensures
        ({
            let k = first_end_at(rs, b, i);
            (k == -1 && forall|j: int| i <= j < rs.len() ==> #[trigger] rs[j].spec_end() != b) || (i <= k
                < rs.len() && rs[k].spec_end() == b && forall|j: int|
                i <= j < k ==> #[trigger] rs[j].spec_end() != b)
        }),
    decreases rs.len() - i,
{
    if i < rs.len() && rs[i].spec_end() != b {
        lemma_first_end_at(rs, b, i + 1);
    }
}

proof fn lemma_insert_pos(rs: Seq<FreeRegion>, a: int, i: int)
    requires
        0 <= i <= rs.len(),
    ensures
        ({
            let k = insert_pos(rs, a, i);
            &&& i <= k <= rs.len()
            &&& forall|j: int| i <= j < k ==> #[trigger] rs[j].base <= a
            &&& k < rs.len() ==> rs[k].base > a
        }),
    decreases rs.len() - i,
{
    if i < rs.len() && rs[i].base <= a {
        lemma_insert_pos(rs, a, i + 1);
    }
}

/// Removing a region keeps a well-formed list well-formed.
proof fn lemma_wf_remove(rs: Seq<FreeRegion>, i: int)
    requires
        regions_wf(rs),
        0 <= i < rs.len(),
    ensures
        regions_wf(rs.remove(i)),
{
    let s = rs.remove(i);
    lemma_sum_pages_remove(rs, i);
    assert forall|k: int| 0 <= k < s.len() implies #[trigger] s[k].pages > 0 && s[k].spec_end() <= u64::MAX
        && VSPACE_BASE <= s[k].base && s[k].base % PAGE_SIZE as u64 == 0 by {
        let k0 = if k < i { k } else { k + 1 };
        assert(s[k] == rs[k0]);
    }
}

// ── Executable list operations ───────────────────────────────────────────────

/// Remove slot `i` from the list, shifting later slots down and zeroing the
/// slot that falls out of use.
fn free_remove(vs: &mut VAddrSpace, i: usize)
    requires
        old(vs).wf(),
        i < old(vs).free_len,
    ensures
        final(vs).wf(),
        final(vs).bump == old(vs).bump,
        final(vs).free_len == old(vs).free_len - 1,
        final(vs).regions() == old(vs).regions().remove(i as int),
{
    let ghost old_rs = vs.regions();
    let ghost old_free = vs.free@;
    let n = vs.free_len;
    let mut j = i;
    while j + 1 < n
        invariant
            i <= j < n,
            n == vs.free_len,
            n == old(vs).free_len,
            n <= MAX_FREE,
            vs.bump == old(vs).bump,
            vs.free@.len() == MAX_FREE,
            old_free == old(vs).free@,
            old_rs == old(vs).regions(),
            forall|k: int| 0 <= k < i ==> vs.free@[k] == old_free[k],
            forall|k: int| i <= k < j ==> vs.free@[k] == old_free[k + 1],
            forall|k: int| j <= k < MAX_FREE ==> vs.free@[k] == old_free[k],
        decreases n - j,
    {
        let nxt = vs.free[j + 1];
        vs.free[j] = nxt;
        j = j + 1;
    }
    vs.free_len = n - 1;
    vs.free[n - 1] = FreeRegion::zero();
    proof {
        assert(vs.regions() =~= old_rs.remove(i as int));
        lemma_wf_remove(old_rs, i as int);
        assert forall|k: int| vs.free_len <= k < MAX_FREE implies (#[trigger] vs.free@[k]).is_zero() by {
            if k >= n {
                assert(old(vs).free@[k].is_zero());
            }
        }
    }
}

// ── Allocation ───────────────────────────────────────────────────────────────

/// How `valloc_alloc(n_pages)` relates the state before, the state after and
/// its result.
pub open spec fn alloc_post(before: VAddrSpace, after: VAddrSpace, n_pages: usize, r: Option<u64>) -> bool {
    &&& n_pages == 0 ==> r is None && after.same_state(&before)
    &&& n_pages > 0 ==> forall|i: int|
        is_first_fit(before.regions(), n_pages as int, i) ==> {
            &&& r == Some(before.regions()[i].base)
            &&& after.bump == before.bump
            &&& after.regions() == take_from(before.regions(), i, n_pages as int)
        }
    &&& n_pages > 0 && no_fit(before.regions(), n_pages as int) ==> {
        if before.bump + n_pages * PAGE_SIZE > VSPACE_TOP {
            r is None && after.same_state(&before)
        } else {
            &&& r == Some(before.bump)
            &&& after.bump == before.bump + n_pages * PAGE_SIZE
            &&& after.regions() == before.regions()
            &&& after.free_len == before.free_len
            &&& after.free@ == before.free@
        }
    }
}

/// Take `n_pages` pages: first fit from the returned regions, otherwise from
/// the bump pointer; `None` when `n_pages` is zero or the window is exhausted.
pub fn valloc_alloc(vs: &mut VAddrSpace, n_pages: usize) -> (r: Option<u64>)
    requires
        old(vs).wf(),
        no_fit(old(vs).regions(), n_pages as int) ==> old(vs).bump + n_pages * PAGE_SIZE <= u64::MAX,
    ensures
        final(vs).wf(),
        alloc_post(*old(vs), *final(vs), n_pages, r),
{
    if n_pages == 0 {
        return None;
    }
    let ghost rs = vs.regions();
    let len = vs.free_len;
    let mut i: usize = 0;
    while i < len
        invariant
            0 <= i <= len,
            len == vs.free_len,
            *vs == *old(vs),
            rs == vs.regions(),
            vs.wf(),
            n_pages > 0,
            forall|j: int| 0 <= j < i ==> #[trigger] rs[j].pages < n_pages,
        decreases len - i,
    {
        let r = vs.free[i];
        if r.pages >= n_pages {
            let addr = r.base;
            let leftover = r.pages - n_pages;
            proof {
                assert(is_first_fit(rs, n_pages as int, i as int));
                assert(rs[i as int] == r);
                assert(r.spec_end() <= u64::MAX);
            }
            if leftover == 0 {
                free_remove(vs, i);
            } else {
                proof {
                    vstd::arithmetic::mul::lemma_mul_inequality(n_pages as int, r.pages as int, PAGE_SIZE as int);
                    vstd::arithmetic::mul::lemma_mul_is_distributive_sub(PAGE_SIZE as int, r.pages as int, n_pages as int);
                    vstd::arithmetic::mul::lemma_mul_is_commutative(PAGE_SIZE as int, r.pages as int);
                    vstd::arithmetic::mul::lemma_mul_is_commutative(PAGE_SIZE as int, n_pages as int);
                    vstd::arithmetic::mul::lemma_mul_nonnegative(leftover as int, PAGE_SIZE as int);
                    vstd::arithmetic::mul::lemma_mul_nonnegative(n_pages as int, PAGE_SIZE as int);
                }
                let nb = r.base + n_pages as u64 * PAGE_SIZE as u64;
                vs.free[i] = FreeRegion { base: nb, pages: leftover };
                proof {
                    let nr = FreeRegion { base: nb, pages: leftover };
                    assert(nr == cut_front(r, n_pages as int));
                    assert(vs.regions() =~= rs.update(i as int, nr));
                    lemma_sum_pages_update(rs, i as int, nr);
                    assert(nb % PAGE_SIZE as u64 == 0) by {
                        vstd::arithmetic::div_mod::lemma_mod_multiples_vanish(n_pages as int, r.base as int, PAGE_SIZE as int);
                        vstd::arithmetic::mul::lemma_mul_is_commutative(PAGE_SIZE as int, n_pages as int);
                    }
                    let s = vs.regions();
                    assert forall|k: int| 0 <= k < s.len() implies #[trigger] s[k].pages > 0 && s[k].spec_end() <= u64::MAX
                        && VSPACE_BASE <= s[k].base && s[k].base % PAGE_SIZE as u64 == 0 by {
                        if k != i as int {
                            assert(s[k] == rs[k]);
                        }
                    }
                }
            }
            return Some(addr);
        }
        i = i + 1;
    }
    proof {
        assert(no_fit(rs, n_pages as int));
        vstd::arithmetic::mul::lemma_mul_nonnegative(n_pages as int, PAGE_SIZE as int);
    }
    let addr = vs.bump;
    let end = addr + n_pages as u64 * PAGE_SIZE as u64;
    if end > VSPACE_TOP {
        return None;
    }
    vs.bump = end;
    proof {
        assert(end % PAGE_SIZE as u64 == 0) by {
            vstd::arithmetic::div_mod::lemma_mod_multiples_vanish(n_pages as int, addr as int, PAGE_SIZE as int);
            vstd::arithmetic::mul::lemma_mul_is_commutative(PAGE_SIZE as int, n_pages as int);
        }
    }
    Some(addr)
}

/// The range handed to `valloc_free` passes its checks: non-empty, inside
/// the window, page-aligned.
pub open spec fn free_guard(addr: u64, n_pages: usize) -> bool {
    &&& n_pages > 0
    &&& VSPACE_BASE <= addr < VSPACE_TOP
    &&& addr % PAGE_SIZE as u64 == 0
}

pub(crate) proof fn lemma_page_mask(a: u64)
    ensures
        (a & 0xfff == 0) == (a % 0x1000 == 0),
{
    assert((a & 0xfff == 0) == (a % 0x1000 == 0)) by (bit_vector);
}

/// Index of the first slot whose region ends at `b`.
fn find_end_at(vs: &VAddrSpace, b: u64) -> (r: Option<usize>)
    requires
        vs.wf(),
    ensures
        match r {
            Some(i) => i == first_end_at(vs.regions(), b as int, 0),
            None => first_end_at(vs.regions(), b as int, 0) == -1,
        },
{
    let ghost rs = vs.regions();
    proof {
        lemma_first_end_at(rs, b as int, 0);
    }
    let mut i: usize = 0;
    while i < vs.free_len
        invariant
            0 <= i <= vs.free_len,
            vs.wf(),
            rs == vs.regions(),
            forall|j: int| 0 <= j < i ==> #[trigger] rs[j].spec_end() != b,
        decreases vs.free_len - i,
    {
        let r = vs.free[i];
        proof {
            assert(rs[i as int] == r);
        }
        if r.end() == b {
            proof {
                lemma_first_end_at(rs, b as int, 0);
            }
            return Some(i);
        }
        i = i + 1;
    }
    proof {
        lemma_first_end_at(rs, b as int, 0);
    }
    None
}

/// Pull the bump pointer back to `addr`, then keep absorbing the first
/// region that ends where the pointer stands.
fn retract_bump(vs: &mut VAddrSpace, addr: u64)
    requires
        old(vs).wf(),
        VSPACE_BASE <= addr <= VSPACE_TOP,
        addr % PAGE_SIZE as u64 == 0,
    ensures
        final(vs).wf(),
        (final(vs).bump as int, final(vs).regions()) == retract(addr as int, old(vs).regions()),
{
    vs.bump = addr;
    loop
        invariant
            vs.wf(),
            retract(vs.bump as int, vs.regions()) == retract(addr as int, old(vs).regions()),
        ensures
            vs.wf(),
            (vs.bump as int, vs.regions()) == retract(addr as int, old(vs).regions()),
        decreases vs.free_len,
    {
        let ghost rs = vs.regions();
        match find_end_at(vs, vs.bump) {
            Some(i) => {
                proof {
                    lemma_first_end_at(rs, vs.bump as int, 0);
                    assert(rs[i as int].pages > 0);
                }
                let nb = vs.free[i].base;
                free_remove(vs, i);
                vs.bump = nb;
            },
            None => {
                break;
            },
        }
    }
}

/// Merge neighbouring regions that touch, scanning the whole list once.
fn coalesce(vs: &mut VAddrSpace)
    requires
        old(vs).wf(),
    ensures
        final(vs).wf(),
        final(vs).bump == old(vs).bump,
        final(vs).regions() == coalesce_from(old(vs).regions(), 0),
{
    let mut i: usize = 0;
    while i + 1 < vs.free_len
        invariant
            vs.wf(),
            i <= vs.free_len,
            vs.bump == old(vs).bump,
            coalesce_from(vs.regions(), i as int) == coalesce_from(old(vs).regions(), 0),
        decreases vs.free_len, vs.free_len - i,
    {
        let ghost rs = vs.regions();
        let ri = vs.free[i];
        let rj = vs.free[i + 1];
        proof {
            assert(rs[i as int] == ri && rs[i + 1] == rj);
            assert(ri.spec_end() <= u64::MAX);
        }
        if ri.end() == rj.base {
            proof {
                lemma_sum_pages_pair(rs, i as int);
                vstd::arithmetic::mul::lemma_mul_is_distributive_add_other_way(
                    PAGE_SIZE as int,
                    ri.pages as int,
                    rj.pages as int,
                );
            }
            free_remove(vs, i + 1);
            let m = FreeRegion { base: ri.base, pages: ri.pages + rj.pages };
            vs.free[i] = m;
            proof {
                let r1 = rs.remove(i + 1);
                assert(m == merged(rs, i as int));
                assert(rs[i + 1].spec_end() <= u64::MAX);
                assert(m.spec_end() == rj.spec_end());
                assert(vs.regions() =~= r1.update(i as int, m));
                assert(rs.update(i as int, merged(rs, i as int)).remove(i + 1) =~= r1.update(i as int, m));
                lemma_sum_pages_update(r1, i as int, m);
                lemma_sum_pages_remove(rs, i + 1);
                let s = vs.regions();
                assert forall|k: int| 0 <= k < s.len() implies #[trigger] s[k].pages > 0 && s[k].spec_end() <= u64::MAX
                    && VSPACE_BASE <= s[k].base && s[k].base % PAGE_SIZE as u64 == 0 by {
                    if k != i as int {
                        assert(s[k] == r1[k]);
                    }
                }
                assert forall|k: int| vs.free_len <= k < MAX_FREE implies (#[trigger] vs.free@[k]).is_zero() by {
                    assert(k != i as int);
                }
            }
        } else {
            i = i + 1;
        }
    }
}

/// Index of the first slot whose region is based above `a`, or the length.
fn find_insert_pos(vs: &VAddrSpace, a: u64) -> (r: usize)
    requires
        vs.wf(),
    ensures
        r == insert_pos(vs.regions(), a as int, 0),
        r <= vs.free_len,
{
    let ghost rs = vs.regions();
    proof {
        lemma_insert_pos(rs, a as int, 0);
    }
    let mut i: usize = 0;
    while i < vs.free_len
        invariant
            0 <= i <= vs.free_len,
            vs.wf(),
            rs == vs.regions(),
            forall|j: int| 0 <= j < i ==> #[trigger] rs[j].base <= a,
        decreases vs.free_len - i,
    {
        if vs.free[i].base > a {
            proof {
                lemma_insert_pos(rs, a as int, 0);
                let k = insert_pos(rs, a as int, 0);
                assert(rs[i as int].base > a);
                if k < i {
                    assert(rs[k].base > a);
                }
                if i < k {
                    assert(rs[i as int].base <= a);
                }
            }
            return i;
        }
        i = i + 1;
    }
    proof {
        let k = insert_pos(rs, a as int, 0);
        if k < i {
            assert(rs[k].base > a);
        }
    }
    i
}

/// Insert `r` before the first region based above it.
fn insert_region(vs: &mut VAddrSpace, r: FreeRegion)
    requires
        old(vs).wf(),
        old(vs).free_len < MAX_FREE,
        r.pages > 0,
        r.spec_end() <= u64::MAX,
        VSPACE_BASE <= r.base,
        r.base % PAGE_SIZE as u64 == 0,
        sum_pages(old(vs).regions()) + r.pages <= usize::MAX,
    ensures
        final(vs).wf(),
        final(vs).bump == old(vs).bump,
        final(vs).regions() == insert_sorted(old(vs).regions(), r),
{
    let ghost rs = vs.regions();
    let ghost old_free = vs.free@;
    let len = vs.free_len;
    proof {
        lemma_insert_pos(rs, r.base as int, 0);
    }
    let ins = find_insert_pos(vs, r.base);
    let mut j = len;
    while j > ins
        invariant
            ins <= j <= len,
            len < MAX_FREE,
            vs.free_len == len,
            vs.bump == old(vs).bump,
            vs.free@.len() == MAX_FREE,
            old_free == old(vs).free@,
            forall|k: int| 0 <= k <= j ==> vs.free@[k] == old_free[k],
            forall|k: int| j < k <= len ==> vs.free@[k] == old_free[k - 1],
            forall|k: int| len < k < MAX_FREE ==> vs.free@[k] == old_free[k],
        decreases j,
    {
        let prev = vs.free[j - 1];
        vs.free[j] = prev;
        j = j - 1;
    }
    vs.free[ins] = r;
    vs.free_len = len + 1;
    proof {
        let s = vs.regions();
        assert(s =~= rs.insert(ins as int, r));
        lemma_sum_pages_insert(rs, ins as int, r);
        assert forall|k: int| 0 <= k < s.len() implies #[trigger] s[k].pages > 0 && s[k].spec_end() <= u64::MAX
            && VSPACE_BASE <= s[k].base && s[k].base % PAGE_SIZE as u64 == 0 by {
            if k < ins {
                assert(s[k] == rs[k]);
            } else if k > ins {
                assert(s[k] == rs[k - 1]);
            }
        }
        assert forall|k: int| vs.free_len <= k < MAX_FREE implies (#[trigger] vs.free@[k]).is_zero() by {
            assert(old(vs).free@[k].is_zero());
        }
    }
}

/// How `valloc_free(addr, n_pages)` relates the state before and after.
pub open spec fn free_post(before: VAddrSpace, after: VAddrSpace, addr: u64, n_pages: usize) -> bool {
    let at_bump = addr + n_pages * PAGE_SIZE == before.bump;
    &&& !free_guard(addr, n_pages) ==> after.same_state(&before)
    &&& free_guard(addr, n_pages) && at_bump ==> (after.bump as int, after.regions()) == retract(
        addr as int,
        before.regions(),
    )
    &&& free_guard(addr, n_pages) && !at_bump && before.free_len >= MAX_FREE ==> after.same_state(&before)
    &&& free_guard(addr, n_pages) && !at_bump && before.free_len < MAX_FREE ==> {
        &&& after.bump == before.bump
        &&& after.regions() == coalesce_from(
            insert_sorted(before.regions(), FreeRegion { base: addr, pages: n_pages }),
            0,
        )
    }
}

/// Return `n_pages` pages at `addr`. Ignored unless the range passes the
/// checks of `free_guard`. The range right below the bump pointer pulls the
/// pointer back; any other range joins the sorted list (and is merged with
/// touching neighbours) unless the list is full, in which case it is dropped.
pub fn valloc_free(vs: &mut VAddrSpace, addr: u64, n_pages: usize)
    requires
        old(vs).wf(),
        free_guard(addr, n_pages) ==> addr + n_pages * PAGE_SIZE <= u64::MAX,
        free_guard(addr, n_pages) && addr + n_pages * PAGE_SIZE != old(vs).bump && old(vs).free_len
            < MAX_FREE ==> sum_pages(old(vs).regions()) + n_pages <= usize::MAX,
    ensures
        final(vs).wf(),
        free_post(*old(vs), *final(vs), addr, n_pages),
{
    proof {
        lemma_page_mask(addr);
    }
    if n_pages == 0 || addr < VSPACE_BASE || addr >= VSPACE_TOP {
        return;
    }
    if addr & (PAGE_SIZE as u64 - 1) != 0 {
        return;
    }
    proof {
        vstd::arithmetic::mul::lemma_mul_nonnegative(n_pages as int, PAGE_SIZE as int);
    }
    let expected_bump = addr + n_pages as u64 * PAGE_SIZE as u64;
    if expected_bump == vs.bump {
        retract_bump(vs, addr);
        return;
    }
    if vs.free_len >= MAX_FREE {
        return;
    }
    insert_region(vs, FreeRegion { base: addr, pages: n_pages });
    coalesce(vs);
}

/// The range `[addr, addr + pages * PAGE_SIZE)` lies in the window below the
/// bump pointer and shares no address with a returned region.
pub open spec fn contains_spec(vs: VAddrSpace, addr: u64, pages: usize) -> bool {
    let end = addr + pages * PAGE_SIZE;
    &&& VSPACE_BASE <= addr < VSPACE_TOP
    &&& end <= vs.bump
    &&& forall|i: int| 0 <= i < vs.free_len ==> !overlaps_range(#[trigger] vs.regions()[i], addr as int, end)
}

/// Whether the whole range is currently handed out.
pub fn valloc_contains(vs: &VAddrSpace, addr: u64, pages: usize) -> (r: bool)
    requires
        vs.wf(),
        VSPACE_BASE <= addr < VSPACE_TOP ==> addr + pages * PAGE_SIZE <= u64::MAX,
    ensures
        r == contains_spec(*vs, addr, pages),
{
    if addr < VSPACE_BASE || addr >= VSPACE_TOP {
        return false;
    }
    proof {
        vstd::arithmetic::mul::lemma_mul_nonnegative(pages as int, PAGE_SIZE as int);
    }
    let end = addr + pages as u64 * PAGE_SIZE as u64;
    if end > vs.bump {
        return false;
    }
    let ghost rs = vs.regions();
    let mut i: usize = 0;
    while i < vs.free_len
        invariant
            0 <= i <= vs.free_len,
            vs.wf(),
            rs == vs.regions(),
            end == addr + pages * PAGE_SIZE,
            forall|j: int| 0 <= j < i ==> !overlaps_range(#[trigger] rs[j], addr as int, end as int),
        decreases vs.free_len - i,
    {
        let r = vs.free[i];
        proof {
            assert(rs[i as int] == r);
            assert(r.spec_end() <= u64::MAX);
        }
        if r.base < end && r.end() > addr {
            return false;
        }
        i = i + 1;
    }
    true
}

/// Back to the initial state: bump pointer at the window base, no regions.
pub fn valloc_reset(vs: &mut VAddrSpace)
    ensures
        final(vs).wf(),
        final(vs).tidy(),
        final(vs).bump == VSPACE_BASE,
        final(vs).free_len == 0,
        forall|i: int| 0 <= i < MAX_FREE ==> (#[trigger] final(vs).free@[i]).is_zero(),
{
    vs.bump = VSPACE_BASE;
    vs.free_len = 0;
    let mut i: usize = 0;
    while i < MAX_FREE
        invariant
            0 <= i <= MAX_FREE,
            vs.bump == VSPACE_BASE,
            vs.free_len == 0,
            vs.free@.len() == MAX_FREE,
            forall|k: int| 0 <= k < i ==> (#[trigger] vs.free@[k]).is_zero(),
        decreases MAX_FREE - i,
    {
        vs.free[i] = FreeRegion::zero();
        i = i + 1;
    }
    proof {
        assert(vs.regions() =~= Seq::<FreeRegion>::empty());
        assert(VSPACE_BASE % PAGE_SIZE as u64 == 0) by (nonlinear_arith);
    }
}

/// Pages handed out by the bump pointer minus the pages of returned regions,
/// floored at zero.
pub fn valloc_used_pages(vs: &VAddrSpace) -> (r: usize)
    requires
        vs.wf(),
    ensures
        r == if (vs.bump - VSPACE_BASE) / PAGE_SIZE as int >= sum_pages(vs.regions()) {
            (vs.bump - VSPACE_BASE) / PAGE_SIZE as int - sum_pages(vs.regions())
        } else {
            0
        },
{
    let total_bump = ((vs.bump - VSPACE_BASE) / PAGE_SIZE as u64) as usize;
    let ghost rs = vs.regions();
    let mut free_pages: usize = 0;
    let mut i: usize = 0;
    while i < vs.free_len
        invariant
            0 <= i <= vs.free_len,
            vs.wf(),
            rs == vs.regions(),
            free_pages == sum_pages(rs.subrange(0, i as int)),
        decreases vs.free_len - i,
    {
        proof {
            assert(rs.subrange(0, i + 1).drop_last() =~= rs.subrange(0, i as int));
            lemma_sum_pages_prefix(rs, i + 1);
        }
        free_pages = free_pages + vs.free[i].pages;
        i = i + 1;
    }
    proof {
        assert(rs.subrange(0, i as int) =~= rs);
    }
    total_bump.saturating_sub(free_pages)
}

proof fn lemma_sum_pages_prefix(rs: Seq<FreeRegion>, k: int)
    requires
        0 <= k <= rs.len(),
    ensures
        sum_pages(rs.subrange(0, k)) <= sum_pages(rs),
    decreases rs.len(),
{
    if k < rs.len() {
        lemma_sum_pages_prefix(rs.drop_last(), k);
        assert(rs.drop_last().subrange(0, k) =~= rs.subrange(0, k));
    } else {
        assert(rs.subrange(0, k) =~= rs);
    }
}

// ── Laws ─────────────────────────────────────────────────────────────────────

proof fn lemma_mul_page(n: int)
    requires
        n > 0,
    ensures
        n * PAGE_SIZE >= PAGE_SIZE,
{
    vstd::arithmetic::mul::lemma_mul_inequality(1, n, PAGE_SIZE as int);
}

/// Two well-formed states with the same list of regions have the same slots.
proof fn lemma_same_slots(a: VAddrSpace, b: VAddrSpace)
    requires
        a.wf(),
        b.wf(),
        a.free_len == b.free_len,
        a.regions() == b.regions(),
    ensures
        a.free@ == b.free@,
{
    assert forall|k: int| 0 <= k < MAX_FREE implies a.free@[k] == b.free@[k] by {
        if k < a.free_len {
            assert(a.regions()[k] == b.regions()[k]);
            assert(a.regions()[k] == a.free@[k]);
            assert(b.regions()[k] == b.free@[k]);
        } else {
            assert(a.free@[k].is_zero() && b.free@[k].is_zero());
        }
    }
    assert(a.free@ =~= b.free@);
}

/// Pulling the bump pointer back never moves it above where it started.
proof fn lemma_retract_below(b: int, rs: Seq<FreeRegion>)
    requires
        forall|i: int| 0 <= i < rs.len() ==> #[trigger] rs[i].pages > 0,
    ensures
        retract(b, rs).0 <= b,
    decreases rs.len(),
{
    let i = first_end_at(rs, b, 0);
    lemma_first_end_at(rs, b, 0);
    if 0 <= i < rs.len() {
        let s = rs.remove(i);
        assert forall|k: int| 0 <= k < s.len() implies #[trigger] s[k].pages > 0 by {
            if k < i {
                assert(s[k] == rs[k]);
            } else {
                assert(s[k] == rs[k + 1]);
            }
        }
        lemma_retract_below(rs[i].base as int, s);
        lemma_mul_page(rs[i].pages as int);
    }
}

/// If some region covers address `x`, some region still covers it after
/// touching neighbours are merged.
proof fn lemma_coalesce_covers(rs: Seq<FreeRegion>, i: int, x: int, j: int)
    requires
        0 <= i,
        0 <= j < rs.len(),
        rs[j].base <= x < rs[j].spec_end(),
        sum_pages(rs) <= usize::MAX,
    ensures
        exists|k: int|
            0 <= k < coalesce_from(rs, i).len() && (#[trigger] coalesce_from(rs, i)[k]).base <= x < coalesce_from(
                rs,
                i,
            )[k].spec_end(),
    decreases rs.len(), rs.len() - i,
{
    if 0 <= i && i + 1 < rs.len() {
        if rs[i].spec_end() == rs[i + 1].base {
            let m = merged(rs, i);
            let s = rs.update(i, m).remove(i + 1);
            lemma_sum_pages_pair(rs, i);
            lemma_sum_pages_update(rs, i, m);
            lemma_sum_pages_remove(rs.update(i, m), i + 1);
            vstd::arithmetic::mul::lemma_mul_is_distributive_add_other_way(
                PAGE_SIZE as int,
                rs[i].pages as int,
                rs[i + 1].pages as int,
            );
            assert(m.spec_end() == rs[i + 1].spec_end());
            let j2 = if j < i {
                j
            } else if j == i || j == i + 1 {
                i
            } else {
                j - 1
            };
            if j < i {
                assert(s[j2] == rs[j]);
            } else if j > i + 1 {
                assert(s[j2] == rs[j]);
            } else {
                assert(s[j2] == m);
            }
            lemma_coalesce_covers(s, i, x, j2);
            assert(coalesce_from(rs, i) == coalesce_from(s, i));
        } else {
            lemma_coalesce_covers(rs, i + 1, x, j);
            assert(coalesce_from(rs, i) == coalesce_from(rs, i + 1));
        }
    } else {
        assert(coalesce_from(rs, i) == rs);
        assert(coalesce_from(rs, i)[j] == rs[j]);
    }
}

/// Law: in a tidy state, an allocation that succeeds hands out a range that
/// `valloc_contains` reports as handed out, and the state stays tidy.
pub proof fn law_alloc_is_contained(before: VAddrSpace, after: VAddrSpace, n_pages: usize, a: u64)
    requires
        before.tidy(),
        after.wf(),
        alloc_post(before, after, n_pages, Some(a)),
    ensures
        after.tidy(),
        contains_spec(after, a, n_pages),
{
    let rs = before.regions();
    let n = n_pages as int;
    assert(n > 0);
    lemma_mul_page(n);
    if no_fit(rs, n) {
        assert(after.regions() == rs);
        assert forall|k: int| 0 <= k < after.free_len implies !overlaps_range(
            #[trigger] after.regions()[k],
            a as int,
            a + n * PAGE_SIZE,
        ) by {
            assert(rs[k].spec_end() < before.bump);
        }
    } else {
        let i = choose|i: int| 0 <= i < rs.len() && #[trigger] rs[i].pages >= n;
        let fi = lemma_first_fit_exists(rs, n, i);
        let r = rs[fi];
        assert(a == r.base);
        assert(r.spec_end() < before.bump);
        vstd::arithmetic::mul::lemma_mul_inequality(n, r.pages as int, PAGE_SIZE as int);
        let s = after.regions();
        if r.pages == n {
            assert(s == rs.remove(fi));
            assert forall|k: int| 0 <= k < s.len() implies !overlaps_range(#[trigger] s[k], a as int, a + n * PAGE_SIZE)
                && s[k].spec_end() < after.bump by {
                let k0 = if k < fi { k } else { k + 1 };
                assert(s[k] == rs[k0]);
            }
            assert forall|p: int, q: int| 0 <= p < q < s.len() implies s[p].spec_end() <= s[q].base by {
                let p0 = if p < fi { p } else { p + 1 };
                let q0 = if q < fi { q } else { q + 1 };
                assert(s[p] == rs[p0] && s[q] == rs[q0]);
            }
        } else {
            let c = cut_front(r, n);
            assert(s == rs.update(fi, c));
            vstd::arithmetic::mul::lemma_mul_is_distributive_sub(PAGE_SIZE as int, r.pages as int, n);
            vstd::arithmetic::mul::lemma_mul_is_commutative(PAGE_SIZE as int, r.pages as int);
            vstd::arithmetic::mul::lemma_mul_is_commutative(PAGE_SIZE as int, n);
            vstd::arithmetic::mul::lemma_mul_is_commutative(PAGE_SIZE as int, r.pages - n);
            assert(c.spec_end() == r.spec_end());
            assert(c.base == a + n * PAGE_SIZE);
            assert forall|k: int| 0 <= k < s.len() implies !overlaps_range(#[trigger] s[k], a as int, a + n * PAGE_SIZE)
                && s[k].spec_end() < after.bump by {
                if k != fi {
                    assert(s[k] == rs[k]);
                }
            }
            assert forall|p: int, q: int| 0 <= p < q < s.len() implies s[p].spec_end() <= s[q].base by {
                if p == fi {
                    assert(rs[p].spec_end() <= rs[q].base);
                } else if q == fi {
                    assert(rs[p].spec_end() <= rs[q].base);
                } else {
                    assert(rs[p].spec_end() <= rs[q].base);
                }
            }
        }
    }
}

/// The first region with at least `n` pages exists when some region has them.
proof fn lemma_first_fit_exists(rs: Seq<FreeRegion>, n: int, i: int) -> (k: int)
    requires
        0 <= i < rs.len(),
        rs[i].pages >= n,
    ensures
        is_first_fit(rs, n, k),
    decreases i,
{
    if exists|j: int| 0 <= j < i && #[trigger] rs[j].pages >= n {
        let j = choose|j: int| 0 <= j < i && #[trigger] rs[j].pages >= n;
        lemma_first_fit_exists(rs, n, j)
    } else {
        i
    }
}

/// Law: in a tidy state, returning a range that is handed out makes
/// `valloc_contains` report it as no longer handed out, provided the range
/// sits right below the bump pointer or the list of returned regions has a
/// free slot (a full list drops the range).
pub proof fn law_free_not_contained(before: VAddrSpace, after: VAddrSpace, addr: u64, n_pages: usize)
    requires
        before.tidy(),
        after.wf(),
        free_guard(addr, n_pages),
        contains_spec(before, addr, n_pages),
        addr + n_pages * PAGE_SIZE == before.bump || before.free_len < MAX_FREE,
        addr + n_pages * PAGE_SIZE != before.bump ==> sum_pages(before.regions()) + n_pages <= usize::MAX,
        free_post(before, after, addr, n_pages),
    ensures
        !contains_spec(after, addr, n_pages),
{
    let n = n_pages as int;
    let rs = before.regions();
    lemma_mul_page(n);
    if addr + n * PAGE_SIZE == before.bump {
        lemma_retract_below(addr as int, rs);
    } else {
        let r = FreeRegion { base: addr, pages: n_pages };
        let ins = insert_pos(rs, addr as int, 0);
        lemma_insert_pos(rs, addr as int, 0);
        let t = insert_sorted(rs, r);
        assert(t[ins] == r);
        lemma_sum_pages_insert(rs, ins, r);
        lemma_coalesce_covers(t, 0, addr as int, ins);
        let s = after.regions();
        let k = choose|k: int| 0 <= k < s.len() && (#[trigger] s[k]).base <= addr < s[k].spec_end();
        assert(overlaps_range(after.regions()[k], addr as int, addr + n * PAGE_SIZE));
    }
}

/// Law: in a tidy state, returning a range just taken from the bump pointer
/// restores the state exactly.
pub proof fn law_bump_alloc_free_roundtrip(
    s0: VAddrSpace,
    s1: VAddrSpace,
    s2: VAddrSpace,
    n_pages: usize,
    a: u64,
)
    requires
        s0.tidy(),
        s1.wf(),
        s2.wf(),
        no_fit(s0.regions(), n_pages as int),
        alloc_post(s0, s1, n_pages, Some(a)),
        free_post(s1, s2, a, n_pages),
    ensures
        s2.same_state(&s0),
{
    let n = n_pages as int;
    lemma_mul_page(n);
    assert(free_guard(a, n_pages));
    let rs = s0.regions();
    lemma_first_end_at(rs, a as int, 0);
    assert forall|j: int| 0 <= j < rs.len() implies #[trigger] rs[j].spec_end() != a by {
        assert(rs[j].spec_end() < s0.bump);
    }
    assert(retract(a as int, rs) == (a as int, rs));
    lemma_same_slots(s2, s0);
}

// ── Layout ───────────────────────────────────────────────────────────────────

/// Removing a region keeps a list sorted, disjoint and separated.
proof fn lemma_remove_layout(rs: Seq<FreeRegion>, i: int)
    requires
        0 <= i < rs.len(),
        regions_disjoint(rs),
        regions_separated(rs),
    ensures
        regions_disjoint(rs.remove(i)),
        regions_separated(rs.remove(i)),
{
    let s = rs.remove(i);
    assert forall|a: int, b: int| 0 <= a < b < s.len() implies s[a].spec_end() <= s[b].base by {
        let a0 = if a < i { a } else { a + 1 };
        let b0 = if b < i { b } else { b + 1 };
        assert(s[a] == rs[a0] && s[b] == rs[b0]);
    }
    assert forall|a: int| 0 <= a && a + 1 < s.len() implies #[trigger] s[a].spec_end() < s[a + 1].base by {
        if a + 1 < i {
            assert(s[a] == rs[a] && s[a + 1] == rs[a + 1]);
        } else if a >= i {
            assert(s[a] == rs[a + 1] && s[a + 1] == rs[a + 2]);
        } else {
            assert(s[a] == rs[a] && s[a + 1] == rs[a + 2]);
            assert(rs[a].spec_end() < rs[a + 1].base);
            assert(rs[a + 1].spec_end() <= rs[a + 2].base);
        }
    }
}

/// Merging touching neighbours from `i` on, in a sorted disjoint list whose
/// pairs before `i` do not touch, leaves a sorted list in which no pair
/// touches; no region ends at or above a bound it did not reach before.
proof fn lemma_coalesce_layout(rs: Seq<FreeRegion>, i: int, bound: int)
    requires
        0 <= i,
        regions_disjoint(rs),
        forall|k: int| 0 <= k < rs.len() ==> #[trigger] rs[k].pages > 0,
        forall|k: int| 0 <= k < rs.len() ==> #[trigger] rs[k].spec_end() < bound,
        forall|k: int| 0 <= k && k + 1 <= i && k + 1 < rs.len() ==> #[trigger] rs[k].spec_end() < rs[k + 1].base,
        sum_pages(rs) <= usize::MAX,
    ensures
        ({
            let c = coalesce_from(rs, i);
            &&& regions_disjoint(c)
            &&& regions_separated(c)
            &&& forall|k: int| 0 <= k < c.len() ==> #[trigger] c[k].spec_end() < bound
        }),
    decreases rs.len(), rs.len() - i,
{
    if 0 <= i && i + 1 < rs.len() {
        if rs[i].spec_end() == rs[i + 1].base {
            let m = merged(rs, i);
            let s = rs.update(i, m).remove(i + 1);
            lemma_sum_pages_pair(rs, i);
            lemma_sum_pages_update(rs, i, m);
            lemma_sum_pages_remove(rs.update(i, m), i + 1);
            vstd::arithmetic::mul::lemma_mul_is_distributive_add_other_way(
                PAGE_SIZE as int,
                rs[i].pages as int,
                rs[i + 1].pages as int,
            );
            assert(m.spec_end() == rs[i + 1].spec_end());
            assert forall|k: int| 0 <= k < s.len() implies (#[trigger] s[k]) == if k < i {
                rs[k]
            } else if k == i {
                m
            } else {
                rs[k + 1]
            } by {}
            assert forall|a: int, b: int| 0 <= a < b < s.len() implies s[a].spec_end() <= s[b].base by {
                if a == i {
                    assert(rs[i + 1].spec_end() <= rs[b + 1].base);
                } else if b == i {
                    assert(rs[a].spec_end() <= rs[i].base);
                } else if a < i && b > i {
                    assert(rs[a].spec_end() <= rs[b + 1].base);
                }
            }
            assert forall|k: int| 0 <= k < s.len() implies #[trigger] s[k].pages > 0 by {}
            assert forall|k: int| 0 <= k < s.len() implies #[trigger] s[k].spec_end() < bound by {}
            assert forall|k: int| 0 <= k && k + 1 <= i && k + 1 < s.len() implies #[trigger] s[k].spec_end() < s[k + 1].base by {
                if k + 1 == i {
                    assert(s[k + 1] == m);
                    assert(rs[k].spec_end() < rs[k + 1].base);
                } else {
                    assert(rs[k].spec_end() < rs[k + 1].base);
                }
            }
            lemma_coalesce_layout(s, i, bound);
            assert(coalesce_from(rs, i) == coalesce_from(s, i));
        } else {
            assert(rs[i].spec_end() <= rs[i + 1].base);
            lemma_coalesce_layout(rs, i + 1, bound);
            assert(coalesce_from(rs, i) == coalesce_from(rs, i + 1));
        }
    } else {
        assert(coalesce_from(rs, i) == rs);
        assert forall|k: int| 0 <= k && k + 1 < rs.len() implies #[trigger] rs[k].spec_end() < rs[k + 1].base by {
            assert(k + 1 <= i);
        }
    }
}

/// A list in which no pair touches is left as it is by the merging.
proof fn lemma_coalesce_separated(rs: Seq<FreeRegion>, i: int)
    requires
        0 <= i,
        regions_separated(rs),
    ensures
        coalesce_from(rs, i) == rs,
    decreases rs.len() - i,
{
    if 0 <= i && i + 1 < rs.len() {
        assert(rs[i].spec_end() < rs[i + 1].base);
        lemma_coalesce_separated(rs, i + 1);
    }
}

/// The merging skips the pairs before `i` that do not touch.
proof fn lemma_coalesce_skip(rs: Seq<FreeRegion>, j: int, i: int)
    requires
        0 <= j <= i < rs.len(),
        forall|k: int| j <= k < i ==> #[trigger] rs[k].spec_end() != rs[k + 1].base,
    ensures
        coalesce_from(rs, j) == coalesce_from(rs, i),
    decreases i - j,
{
    if j < i {
        lemma_coalesce_skip(rs, j + 1, i);
    }
}

/// Pulling the bump pointer back in a separated list below it leaves every
/// remaining region ending below the new pointer, the list still sorted,
/// disjoint and separated.
proof fn lemma_retract_layout(b: int, rs: Seq<FreeRegion>)
    requires
        regions_disjoint(rs),
        regions_separated(rs),
        forall|k: int| 0 <= k < rs.len() ==> #[trigger] rs[k].pages > 0,
        forall|k: int| 0 <= k < rs.len() ==> #[trigger] rs[k].spec_end() <= b,
    ensures
        ({
            let (b2, s) = retract(b, rs);
            &&& regions_disjoint(s)
            &&& regions_separated(s)
            &&& forall|k: int| 0 <= k < s.len() ==> #[trigger] s[k].spec_end() < b2
        }),
    decreases rs.len(),
{
    let i = first_end_at(rs, b, 0);
    lemma_first_end_at(rs, b, 0);
    if 0 <= i < rs.len() {
        let s = rs.remove(i);
        lemma_remove_layout(rs, i);
        assert forall|k: int| 0 <= k < s.len() implies #[trigger] s[k].pages > 0 && s[k].spec_end() <= rs[i].base by {
            if k < i {
                assert(s[k] == rs[k]);
            } else {
                assert(s[k] == rs[k + 1]);
                lemma_mul_page(rs[k + 1].pages as int);
                assert(rs[i].spec_end() <= rs[k + 1].base);
                assert(false);
            }
        }
        lemma_retract_layout(rs[i].base as int, s);
    } else {
        assert forall|k: int| 0 <= k < rs.len() implies #[trigger] rs[k].spec_end() < b by {
            assert(rs[k].spec_end() != b);
        }
    }
}

/// Inserting a region that shares no address with any region of a sorted
/// disjoint list keeps it sorted and disjoint.
proof fn lemma_insert_layout(rs: Seq<FreeRegion>, r: FreeRegion, bound: int)
    requires
        regions_disjoint(rs),
        r.pages > 0,
        forall|k: int| 0 <= k < rs.len() ==> #[trigger] rs[k].pages > 0,
        forall|k: int| 0 <= k < rs.len() ==> !overlaps_range(#[trigger] rs[k], r.base as int, r.spec_end()),
        forall|k: int| 0 <= k < rs.len() ==> #[trigger] rs[k].spec_end() < bound,
        r.spec_end() < bound,
    ensures
        ({
            let t = insert_sorted(rs, r);
            &&& regions_disjoint(t)
            &&& forall|k: int| 0 <= k < t.len() ==> #[trigger] t[k].pages > 0
            &&& forall|k: int| 0 <= k < t.len() ==> #[trigger] t[k].spec_end() < bound
        }),
{
    let p = insert_pos(rs, r.base as int, 0);
    lemma_insert_pos(rs, r.base as int, 0);
    lemma_mul_page(r.pages as int);
    let t = rs.insert(p, r);
    assert forall|k: int| 0 <= k < t.len() implies (#[trigger] t[k]) == if k < p {
        rs[k]
    } else if k == p {
        r
    } else {
        rs[k - 1]
    } by {}
    assert forall|k: int| 0 <= k < rs.len() implies (k < p ==> #[trigger] rs[k].spec_end() <= r.base) && (k >= p
        ==> r.spec_end() <= rs[k].base) by {
        lemma_mul_page(rs[k].pages as int);
        if k >= p {
            if k > p {
                assert(rs[p].spec_end() <= rs[k].base);
                lemma_mul_page(rs[p].pages as int);
            }
        }
    }
    assert forall|a: int, b: int| 0 <= a < b < t.len() implies t[a].spec_end() <= t[b].base by {
        if a < p && b > p {
            assert(rs[a].spec_end() <= rs[b - 1].base);
        } else if a > p {
            assert(rs[a - 1].spec_end() <= rs[b - 1].base);
        }
    }
}

/// A sum of page counts each at most `b`.
proof fn lemma_sum_pages_bound(rs: Seq<FreeRegion>, b: nat)
    requires
        forall|i: int| 0 <= i < rs.len() ==> #[trigger] rs[i].pages <= b,
    ensures
        sum_pages(rs) <= rs.len() * b,
    decreases rs.len(),
{
    if rs.len() > 0 {
        let d = rs.drop_last();
        assert forall|i: int| 0 <= i < d.len() implies #[trigger] d[i].pages <= b by {
            assert(d[i] == rs[i]);
        }
        lemma_sum_pages_bound(d, b);
        assert((d.len() * b + b) == rs.len() * b) by (nonlinear_arith)
            requires
                d.len() + 1 == rs.len(),
        ;
    }
}

/// In a state with the layout valloc keeps, the pages of the returned
/// regions and of a range handed out together stay far below `usize::MAX`.
proof fn lemma_laid_out_sum(vs: VAddrSpace, n_pages: usize)
    requires
        vs.laid_out(),
    ensures
        n_pages * PAGE_SIZE <= VSPACE_TOP ==> sum_pages(vs.regions()) + n_pages <= usize::MAX,
{
    let rs = vs.regions();
    let b: nat = 0x8_0000;
    assert forall|i: int| 0 <= i < rs.len() implies #[trigger] rs[i].pages <= b by {
        assert(rs[i].spec_end() < vs.bump);
        assert(rs[i].pages * PAGE_SIZE < VSPACE_TOP);
    }
    lemma_sum_pages_bound(rs, b);
    assert(rs.len() <= MAX_FREE);
    assert(rs.len() * b <= 64 * 0x8_0000) by (nonlinear_arith)
        requires
            rs.len() <= 64,
            b == 0x8_0000,
    ;
}

/// Law: returning a range that is in use keeps the layout valloc keeps: the
/// returned regions stay sorted, disjoint and apart from each other, all of
/// them below the bump pointer, none ending at it. (Allocation keeps it too:
/// `law_alloc_keeps_layout`.)
pub proof fn law_free_keeps_layout(before: VAddrSpace, after: VAddrSpace, addr: u64, n_pages: usize)
    requires
        before.laid_out(),
        after.wf(),
        contains_spec(before, addr, n_pages),
        free_post(before, after, addr, n_pages),
    ensures
        after.laid_out(),
{
    lemma_laid_out_sum(before, n_pages);
    let rs = before.regions();
    let n = n_pages as int;
    let e = addr + n * PAGE_SIZE;
    if !free_guard(addr, n_pages) {
        assert(after.regions() =~= rs);
        lemma_same_layout(before, after);
    } else {
        lemma_mul_page(n);
        assert forall|k: int| 0 <= k < rs.len() implies #[trigger] rs[k].pages > 0 by {}
        if e == before.bump {
            assert forall|k: int| 0 <= k < rs.len() implies #[trigger] rs[k].spec_end() <= addr by {
                assert(!overlaps_range(before.regions()[k], addr as int, e));
                lemma_mul_page(rs[k].pages as int);
            }
            lemma_retract_layout(addr as int, rs);
        } else if before.free_len >= MAX_FREE {
            assert(after.regions() =~= rs);
            lemma_same_layout(before, after);
        } else {
            let r = FreeRegion { base: addr, pages: n_pages };
            assert(r.spec_end() == e);
            assert forall|k: int| 0 <= k < rs.len() implies !overlaps_range(#[trigger] rs[k], r.base as int, r.spec_end()) by {
                assert(!overlaps_range(before.regions()[k], addr as int, e));
            }
            lemma_insert_layout(rs, r, before.bump as int);
            let t = insert_sorted(rs, r);
            lemma_insert_pos(rs, addr as int, 0);
            lemma_sum_pages_insert(rs, insert_pos(rs, addr as int, 0), r);
            lemma_coalesce_layout(t, 0, before.bump as int);
        }
    }
}

/// A state that equals a laid-out one is laid out.
proof fn lemma_same_layout(before: VAddrSpace, after: VAddrSpace)
    requires
        before.laid_out(),
        after.wf(),
        after.bump == before.bump,
        after.regions() == before.regions(),
    ensures
        after.laid_out(),
{
}

/// Cutting pages off the front of a region keeps where it ends.
proof fn lemma_cut_end(r: FreeRegion, n: int)
    requires
        0 < n <= r.pages,
        r.spec_end() <= u64::MAX,
    ensures
        cut_front(r, n).base == r.base + n * PAGE_SIZE,
        cut_front(r, n).spec_end() == r.spec_end(),
        cut_front(r, n).base > r.base,
{
    vstd::arithmetic::mul::lemma_mul_is_distributive_sub_other_way(PAGE_SIZE as int, r.pages as int, n);
    vstd::arithmetic::mul::lemma_mul_inequality(n, r.pages as int, PAGE_SIZE as int);
    lemma_mul_page(n);
}

/// Taking pages from the front of a region keeps a list sorted, disjoint
/// and separated, every region still ending below `bound`.
proof fn lemma_take_layout(rs: Seq<FreeRegion>, i: int, n: int, bound: int)
    requires
        0 <= i < rs.len(),
        0 < n <= rs[i].pages,
        rs[i].spec_end() <= u64::MAX,
        regions_disjoint(rs),
        regions_separated(rs),
        forall|k: int| 0 <= k < rs.len() ==> #[trigger] rs[k].spec_end() < bound,
    ensures
        ({
            let t = take_from(rs, i, n);
            &&& regions_disjoint(t)
            &&& regions_separated(t)
            &&& forall|k: int| 0 <= k < t.len() ==> #[trigger] t[k].spec_end() < bound
        }),
{
    if rs[i].pages == n {
        lemma_remove_layout(rs, i);
        let t = rs.remove(i);
        assert forall|k: int| 0 <= k < t.len() implies #[trigger] t[k].spec_end() < bound by {
            let k0 = if k < i { k } else { k + 1 };
            assert(t[k] == rs[k0]);
        }
    } else {
        let c = cut_front(rs[i], n);
        lemma_cut_end(rs[i], n);
        let t = rs.update(i, c);
        assert forall|a: int, b: int| 0 <= a < b < t.len() implies t[a].spec_end() <= t[b].base by {
            assert(rs[a].spec_end() <= rs[b].base);
        }
        assert forall|a: int| 0 <= a && a + 1 < t.len() implies #[trigger] t[a].spec_end() < t[a + 1].base by {
            assert(rs[a].spec_end() < rs[a + 1].base);
        }
        assert forall|k: int| 0 <= k < t.len() implies #[trigger] t[k].spec_end() < bound by {
            assert(rs[k].spec_end() < bound);
        }
    }
}

/// Law: an allocation keeps the layout valloc keeps.
pub proof fn law_alloc_keeps_layout(before: VAddrSpace, after: VAddrSpace, n_pages: usize, r: Option<u64>)
    requires
        before.laid_out(),
        after.wf(),
        alloc_post(before, after, n_pages, r),
    ensures
        after.laid_out(),
{
    let rs = before.regions();
    let n = n_pages as int;
    if n_pages == 0 {
        lemma_same_layout(before, after);
    } else if no_fit(rs, n) {
        if before.bump + n * PAGE_SIZE > VSPACE_TOP {
            lemma_same_layout(before, after);
        } else {
            lemma_mul_page(n);
            assert(after.regions() == rs);
        }
    } else {
        let j = choose|j: int| 0 <= j < rs.len() && #[trigger] rs[j].pages >= n;
        let i = lemma_first_fit_exists(rs, n, j);
        assert(after.regions() == take_from(rs, i, n) && after.bump == before.bump);
        assert(forall|k: int| 0 <= k < rs.len() ==> #[trigger] rs[k].spec_end() < before.bump);
        lemma_take_layout(rs, i, n, before.bump as int);
    }
}

/// A region taken whole comes back to its place.
proof fn lemma_reinsert_whole(rs: Seq<FreeRegion>, i: int)
    requires
        0 <= i < rs.len(),
        regions_disjoint(rs),
        forall|k: int| 0 <= k < rs.len() ==> #[trigger] rs[k].pages > 0,
    ensures
        insert_sorted(rs.remove(i), rs[i]) == rs,
{
    let s = rs.remove(i);
    let a = rs[i].base as int;
    lemma_insert_pos(s, a, 0);
    let p = insert_pos(s, a, 0);
    assert(p == i) by {
        if p < i {
            assert(s[p] == rs[p]);
            assert(rs[p].spec_end() <= rs[i].base);
            lemma_mul_page(rs[p].pages as int);
        } else if p > i {
            assert(s[i] == rs[i + 1]);
            assert(rs[i].spec_end() <= rs[i + 1].base);
            lemma_mul_page(rs[i].pages as int);
        }
    }
    assert(s.insert(i, rs[i]) =~= rs);
}

/// The front pages cut off a region come back and are merged into it.
proof fn lemma_reinsert_cut(rs: Seq<FreeRegion>, i: int, n: int)
    requires
        0 <= i < rs.len(),
        0 < n < rs[i].pages,
        rs[i].spec_end() <= u64::MAX,
        regions_disjoint(rs),
        regions_separated(rs),
        forall|k: int| 0 <= k < rs.len() ==> #[trigger] rs[k].pages > 0,
    ensures
        coalesce_from(insert_sorted(rs.update(i, cut_front(rs[i], n)), FreeRegion { base: rs[i].base, pages: n as usize }), 0) == rs,
{
    let ri = rs[i];
    let c = cut_front(ri, n);
    let r = FreeRegion { base: ri.base, pages: n as usize };
    lemma_cut_end(ri, n);
    lemma_mul_page(n);
    let s = rs.update(i, c);
    let a = ri.base as int;
    lemma_insert_pos(s, a, 0);
    let p = insert_pos(s, a, 0);
    assert(p == i) by {
        if p < i {
            assert(s[p] == rs[p]);
            assert(rs[p].spec_end() <= rs[i].base);
            lemma_mul_page(rs[p].pages as int);
        } else if p > i {
            assert(s[i] == c);
        }
    }
    let t = s.insert(i, r);
    assert forall|k: int| 0 <= k < i implies #[trigger] t[k].spec_end() != t[k + 1].base by {
        assert(t[k] == rs[k]);
        assert(rs[k].spec_end() < rs[k + 1].base);
        if k + 1 < i {
            assert(t[k + 1] == rs[k + 1]);
        } else {
            assert(t[k + 1] == r);
        }
    }
    lemma_coalesce_skip(t, 0, i);
    assert(t[i] == r && t[i + 1] == c);
    assert(r.spec_end() == c.base);
    let m = merged(t, i);
    assert(m == ri);
    assert(t.update(i, m).remove(i + 1) =~= rs);
    assert(coalesce_from(t, i) == coalesce_from(rs, i));
    lemma_coalesce_separated(rs, i);
}

/// Law: in the layout valloc keeps, returning a range just taken first-fit
/// from the returned regions restores the state exactly (the list had room
/// for the range to come back).
pub proof fn law_first_fit_alloc_free_roundtrip(
    s0: VAddrSpace,
    s1: VAddrSpace,
    s2: VAddrSpace,
    n_pages: usize,
    a: u64,
)
    requires
        s0.laid_out(),
        s0.free_len < MAX_FREE,
        s1.wf(),
        s2.wf(),
        n_pages > 0,
        !no_fit(s0.regions(), n_pages as int),
        alloc_post(s0, s1, n_pages, Some(a)),
        free_post(s1, s2, a, n_pages),
    ensures
        s2.same_state(&s0),
{
    let rs = s0.regions();
    let n = n_pages as int;
    let j = choose|j: int| 0 <= j < rs.len() && #[trigger] rs[j].pages >= n;
    let i = lemma_first_fit_exists(rs, n, j);
    let ri = rs[i];
    assert(a == ri.base && s1.bump == s0.bump && s1.regions() == take_from(rs, i, n));
    assert(ri.spec_end() < s0.bump && ri.spec_end() <= u64::MAX);
    lemma_mul_page(n);
    vstd::arithmetic::mul::lemma_mul_inequality(n, ri.pages as int, PAGE_SIZE as int);
    assert(free_guard(a, n_pages));
    if ri.pages == n {
        assert(s1.regions() == rs.remove(i));
        assert(FreeRegion { base: a, pages: n_pages } == ri);
        lemma_reinsert_whole(rs, i);
        lemma_coalesce_separated(rs, 0);
    } else {
        lemma_reinsert_cut(rs, i, n);
    }
    assert(s2.regions() == rs);
    assert(s2.free_len == s0.free_len) by {
        assert(s2.regions().len() == rs.len());
    }
    lemma_same_slots(s2, s0);
}

/// Law: in a state with the layout valloc keeps and room in the list of
/// returned regions, freeing a range right after allocating it, whether it
/// came from a returned region or from the bump pointer, restores the
/// state.
pub proof fn law_alloc_free_roundtrip(s0: VAddrSpace, s1: VAddrSpace, s2: VAddrSpace, n_pages: usize, a: u64)
    requires
        s0.laid_out(),
        s0.free_len < MAX_FREE,
        s1.wf(),
        s2.wf(),
        n_pages > 0,
        alloc_post(s0, s1, n_pages, Some(a)),
        free_post(s1, s2, a, n_pages),
    ensures
        s2.same_state(&s0),
{
    if no_fit(s0.regions(), n_pages as int) {
        law_bump_alloc_free_roundtrip(s0, s1, s2, n_pages, a);
    } else {
        law_first_fit_alloc_free_roundtrip(s0, s1, s2, n_pages, a);
    }
}

} // verus!
