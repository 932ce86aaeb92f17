//! Address spaces of user processes: a new one inherits the kernel's
//! mappings; a fork clones one copy-on-write (the lower half of the
//! top-level table shared as it is, the upper half copied table by table,
//! every user page read-only and marked copy-on-write in both trees, with
//! one more owner); an exit gives the user half back.
use vstd::prelude::*;
use crate::mm::{PhysAddr, PAGE_SIZE};
use crate::mm::pmm::{Pmm, dec_step, MAX_FRAMES};
use crate::vmm::{pte_make, PTE_P, PTE_W, PTE_U, PTE_PS, PTE_COW, PTE_ADDR};
use crate::vmm::tables::{
    TableMem, ENTRIES, HUGE_ADDR, PTE_WU, ent, present, user, huge, addr, made, zeros, tables_held, aligned_pool,
    lemma_entry_bits, lemma_pool_addr, lemma_zero_absent, translate, idx4, idx3, idx2, idx1, frees_frame,
};

verus! {

/// A shared user entry: read-only and marked copy-on-write.
pub open spec fn cowed(e: u64) -> u64 {
    (e & !PTE_W) | PTE_COW
}

/// Intermediate entries of a copied tree: present, writable and
/// user-accessible.
pub open spec fn link(a: u64) -> u64 {
    made(a, PTE_WU)
}

/// A last-level table of the parent after the clone.
pub open spec fn l1_parent(s: Seq<u64>) -> Seq<u64> {
    Seq::new(s.len(), |j: int| if present(s[j]) && user(s[j]) { cowed(s[j]) } else { s[j] })
}

/// The child's copy of a last-level table: user pages shared copy-on-write,
/// other present entries as they are, nothing else.
pub open spec fn l1_child(s: Seq<u64>) -> Seq<u64> {
    Seq::new(
        s.len(),
        |j: int|
            if !present(s[j]) {
                0u64
            } else if user(s[j]) {
                cowed(s[j])
            } else {
                s[j]
            },
    )
}

/// A user leaf's frame can have its owners counted.
pub open spec fn leaves_ok(s: Seq<u64>, base: int) -> bool {
    forall|j: int| 0 <= j < s.len() && present(#[trigger] s[j]) && user(s[j]) ==> base <= addr(s[j])
}

proof fn lemma_cowed_bits(e: u64)
    by (bit_vector)
    ensures
        ((e & !2u64) | 512u64) & 1u64 == e & 1u64,
        ((e & !2u64) | 512u64) & 4u64 == e & 4u64,
        ((e & !2u64) | 512u64) & 0x80u64 == e & 0x80u64,
        ((e & !2u64) | 512u64) & 0x000F_FFFF_FFFF_F000u64 == e & 0x000F_FFFF_FFFF_F000u64,
        ((e & !2u64) | 512u64) & 0x000F_FFFF_FFE0_0000u64 == e & 0x000F_FFFF_FFE0_0000u64,
        (e & 0x000F_FFFF_FFFF_F000u64) & 0x000F_FFFF_FFFF_F000u64 == e & 0x000F_FFFF_FFFF_F000u64,
        e & 0x000F_FFFF_FFFF_F000u64 <= 0x000F_FFFF_FFFF_F000u64,
{
}

/// A shared entry keeps its presence, user bit, size and frame.
proof fn lemma_cowed(e: u64)
    ensures
        present(cowed(e)) == present(e),
        user(cowed(e)) == user(e),
        huge(cowed(e)) == huge(e),
        addr(cowed(e)) == addr(e),
        cowed(e) & HUGE_ADDR == e & HUGE_ADDR,
        addr(addr(e)) == addr(e),
        addr(e) <= PTE_ADDR,
{
    lemma_cowed_bits(e);
}

/// A link leads to its (aligned) table and is a plain present entry.
proof fn lemma_link(a: u64)
    requires
        a & PTE_ADDR == a,
    ensures
        present(link(a)),
        !huge(link(a)),
        addr(link(a)) == a,
{
    lemma_entry_bits(0, 6, a);
}


/// Entry `i` of a middle-level table leads to a last-level table.
pub open spec fn child2(s: Seq<u64>, i: int) -> bool {
    present(s[i]) && !huge(s[i])
}

/// Entries below `n` that lead to last-level tables.
pub open spec fn cnt2(s: Seq<u64>, n: int) -> int
    decreases n,
{
    if n <= 0 {
        0
    } else {
        cnt2(s, n - 1) + if child2(s, n - 1) { 1int } else { 0int }
    }
}

/// A middle-level table of the parent after the clone: huge pages shared
/// copy-on-write, links to last-level tables made writable and user.
pub open spec fn l2_parent(s: Seq<u64>) -> Seq<u64> {
    Seq::new(
        s.len(),
        |j: int|
            if !present(s[j]) {
                s[j]
            } else if huge(s[j]) {
                cowed(s[j])
            } else {
                link(addr(s[j]))
            },
    )
}

/// The tables under the middle-level table `s2`: itself and its children.
pub open spec fn nodes2(m: Map<u64, Seq<u64>>, s2: u64) -> Set<u64> {
    Set::new(|a: u64| a == s2 || exists|i: int| 0 <= i < ENTRIES && child2(m[s2], i) && a == addr(m[s2][i]))
}

/// The subtree under `s2` is a tree of tables whose frames can be counted.
pub open spec fn tree2(m: Map<u64, Seq<u64>>, s2: u64, base: int) -> bool {
    &&& m.dom().contains(s2)
    &&& m[s2].len() == ENTRIES
    &&& forall|i: int|
        0 <= i < ENTRIES && #[trigger] child2(m[s2], i) ==> m.dom().contains(addr(m[s2][i])) && addr(m[s2][i])
            != s2 && leaves_ok(m[addr(m[s2][i])], base)
    &&& forall|i: int, j: int|
        0 <= i < j < ENTRIES && #[trigger] child2(m[s2], i) && #[trigger] child2(m[s2], j) ==> addr(m[s2][i]) != addr(
            m[s2][j],
        )
    &&& forall|i: int| 0 <= i < ENTRIES && present(#[trigger] m[s2][i]) && huge(m[s2][i]) ==> base <= addr(m[s2][i])
}

/// A last-level table was cloned from `s1` (as it was in `m`) into `d1`.
pub open spec fn done1(m: Map<u64, Seq<u64>>, f: Map<u64, Seq<u64>>, s1: u64, d1: u64) -> bool {
    &&& f.dom().contains(s1)
    &&& f.dom().contains(d1)
    &&& f[s1] == l1_parent(m[s1])
    &&& f[d1] == l1_child(m[s1])
}

/// Entry `i` of the child's middle-level table `d2`, cloned from `s2`.
pub open spec fn done2_at(m: Map<u64, Seq<u64>>, f: Map<u64, Seq<u64>>, s2: u64, d2: u64, i: int) -> bool {
    let e = m[s2][i];
    let d = f[d2][i];
    &&& !present(e) ==> d == 0
    &&& present(e) && huge(e) ==> d == cowed(e)
    &&& child2(m[s2], i) ==> d == link(addr(d)) && !m.dom().contains(addr(d)) && done1(m, f, addr(e), addr(d))
}

/// A middle-level table was cloned from `s2` into `d2`.
pub open spec fn done2(m: Map<u64, Seq<u64>>, f: Map<u64, Seq<u64>>, s2: u64, d2: u64) -> bool {
    &&& f.dom().contains(s2)
    &&& f.dom().contains(d2)
    &&& f[s2] == l2_parent(m[s2])
    &&& f[d2].len() == ENTRIES
    &&& forall|i: int| 0 <= i < ENTRIES ==> #[trigger] done2_at(m, f, s2, d2, i)
}

proof fn lemma_cnt2(s: Seq<u64>, a: int, b: int)
    requires
        0 <= a <= b,
    ensures
        0 <= cnt2(s, a) <= cnt2(s, b),
        cnt2(s, b) - cnt2(s, a) <= b - a,
    decreases b,
{
    if a < b {
        lemma_cnt2(s, a, b - 1);
    } else if a > 0 {
        lemma_cnt2(s, a - 1, a - 1);
    }
}

/// Tables a clone of the subtree under the middle-level table `s2` creates.
pub open spec fn need2(m: Map<u64, Seq<u64>>, s2: u64) -> int {
    cnt2(m[s2], ENTRIES as int)
}

/// Tables a clone of the entries below `n` of the upper-level table `s3`
/// creates: one for each present entry and those of its subtree.
pub open spec fn cnt3(m: Map<u64, Seq<u64>>, s3: u64, n: int) -> int
    decreases n,
{
    if n <= 0 {
        0
    } else {
        cnt3(m, s3, n - 1) + if present(m[s3][n - 1]) { 1 + need2(m, addr(m[s3][n - 1])) } else { 0int }
    }
}

/// An upper-level table of the parent after the clone, from entry `from`
/// on: links made writable and user.
pub open spec fn linked_from(s: Seq<u64>, from: int) -> Seq<u64> {
    Seq::new(s.len(), |j: int| if j >= from && present(s[j]) { link(addr(s[j])) } else { s[j] })
}

/// The tables under the upper-level table `s3`.
pub open spec fn nodes3(m: Map<u64, Seq<u64>>, s3: u64) -> Set<u64> {
    Set::new(
        |a: u64|
            a == s3 || exists|i: int|
                0 <= i < ENTRIES && present(m[s3][i]) && #[trigger] nodes2(m, addr(m[s3][i])).contains(a),
    )
}

/// The subtree under `s3` is a tree of tables, with no huge page at its
/// level, whose frames can be counted.
pub open spec fn tree3(m: Map<u64, Seq<u64>>, s3: u64, base: int) -> bool {
    &&& m.dom().contains(s3)
    &&& m[s3].len() == ENTRIES
    &&& forall|i: int|
        0 <= i < ENTRIES && present(#[trigger] m[s3][i]) ==> !huge(m[s3][i]) && tree2(m, addr(m[s3][i]), base)
            && !nodes2(m, addr(m[s3][i])).contains(s3)
    &&& forall|i: int, j: int|
        0 <= i < j < ENTRIES && present(#[trigger] m[s3][i]) && present(#[trigger] m[s3][j]) ==> nodes2(
            m,
            addr(m[s3][i]),
        ).disjoint(nodes2(m, addr(m[s3][j])))
}

/// Entry `i` of the child's upper-level table `d3`, cloned from `s3`.
pub open spec fn done3_at(m: Map<u64, Seq<u64>>, f: Map<u64, Seq<u64>>, s3: u64, d3: u64, i: int) -> bool {
    let e = m[s3][i];
    let d = f[d3][i];
    &&& !present(e) ==> d == 0
    &&& present(e) ==> d == link(addr(d)) && !m.dom().contains(addr(d)) && done2(m, f, addr(e), addr(d))
}

/// An upper-level table was cloned from `s3` into `d3`.
pub open spec fn done3(m: Map<u64, Seq<u64>>, f: Map<u64, Seq<u64>>, s3: u64, d3: u64) -> bool {
    &&& f.dom().contains(s3)
    &&& f.dom().contains(d3)
    &&& f[s3] == linked_from(m[s3], 0)
    &&& f[d3].len() == ENTRIES
    &&& forall|i: int| 0 <= i < ENTRIES ==> #[trigger] done3_at(m, f, s3, d3, i)
}

proof fn lemma_cnt3(m: Map<u64, Seq<u64>>, s3: u64, a: int, b: int)
    requires
        0 <= a <= b,
    ensures
        0 <= cnt3(m, s3, a) <= cnt3(m, s3, b),
    decreases b,
{
    if a < b {
        lemma_cnt3(m, s3, a, b - 1);
        if present(m[s3][b - 1]) {
            lemma_cnt2(m[addr(m[s3][b - 1])], 0, ENTRIES as int);
        }
    } else if a > 0 {
        lemma_cnt3(m, s3, a - 1, a - 1);
        if present(m[s3][a - 1]) {
            lemma_cnt2(m[addr(m[s3][a - 1])], 0, ENTRIES as int);
        }
    }
}

/// The tables under a middle-level table are tables.
proof fn lemma_nodes2_dom(m: Map<u64, Seq<u64>>, s2: u64, base: int)
    requires
        tree2(m, s2, base),
    ensures
        forall|a: u64| #[trigger] nodes2(m, s2).contains(a) ==> m.dom().contains(a),
{
    assert forall|a: u64| #[trigger] nodes2(m, s2).contains(a) implies m.dom().contains(a) by {
        if a != s2 {
            let i = choose|i: int| 0 <= i < ENTRIES && child2(m[s2], i) && a == addr(m[s2][i]);
            assert(child2(m[s2], i));
        }
    }
}

/// A subtree whose tables are unchanged is the same tree.
proof fn lemma_tree2_same(m: Map<u64, Seq<u64>>, g: Map<u64, Seq<u64>>, s2: u64, base: int)
    requires
        tree2(m, s2, base),
        forall|a: u64| #[trigger] nodes2(m, s2).contains(a) ==> g.dom().contains(a) && g[a] == m[a],
    ensures
        tree2(g, s2, base),
        nodes2(g, s2) == nodes2(m, s2),
        need2(g, s2) == need2(m, s2),
{
    assert(nodes2(m, s2).contains(s2));
    assert(g[s2] == m[s2]);
    assert(nodes2(g, s2) =~= nodes2(m, s2));
    assert forall|i: int| 0 <= i < ENTRIES && #[trigger] child2(g[s2], i) implies g.dom().contains(addr(g[s2][i]))
        && addr(g[s2][i]) != s2 && leaves_ok(g[addr(g[s2][i])], base) by {
        assert(child2(m[s2], i));
        assert(nodes2(m, s2).contains(addr(m[s2][i])));
    }
}

/// A cloned subtree stays cloned while its tables, and the tables made
/// since `m`, are left alone.
/// `f2` agrees with `f` on the tables of `f` that are under `s2` in `m` or
/// were made since `m`.
pub open spec fn keeps2(m: Map<u64, Seq<u64>>, f: Map<u64, Seq<u64>>, f2: Map<u64, Seq<u64>>, s2: u64) -> bool {
    forall|a: u64|
        #![trigger f2[a]]
        #![trigger f2.dom().contains(a)]
        f.dom().contains(a) && (nodes2(m, s2).contains(a) || !m.dom().contains(a)) ==> f2.dom().contains(a) && f2[a]
            == f[a]
}

proof fn lemma_done2_stable(m: Map<u64, Seq<u64>>, f: Map<u64, Seq<u64>>, f2: Map<u64, Seq<u64>>, s2: u64, d2: u64)
    requires
        done2(m, f, s2, d2),
        !m.dom().contains(d2),
        keeps2(m, f, f2, s2),
    ensures
        done2(m, f2, s2, d2),
{
    assert(nodes2(m, s2).contains(s2));
    assert(f2[s2] == f[s2]);
    assert(f2[d2] == f[d2]);
    assert forall|i: int| 0 <= i < ENTRIES implies #[trigger] done2_at(m, f2, s2, d2, i) by {
        assert(done2_at(m, f, s2, d2, i));
        if child2(m[s2], i) {
            let c = addr(m[s2][i]);
            let n = addr(f[d2][i]);
            assert(nodes2(m, s2).contains(c));
            assert(f2[c] == f[c]);
            assert(f2[n] == f[n]);
        }
    }
}

/// Tables a clone of the upper half of the top-level table `s4` creates
/// for its entries below `n`.
pub open spec fn cnt4(m: Map<u64, Seq<u64>>, s4: u64, n: int) -> int
    decreases n,
{
    if n <= 256 {
        0
    } else {
        cnt4(m, s4, n - 1) + if present(m[s4][n - 1]) { 1 + cnt3(m, addr(m[s4][n - 1]), ENTRIES as int) } else { 0int }
    }
}

/// Tables a clone of the address space under `s4` creates, its own new
/// top-level table included.
pub open spec fn clone_need(m: Map<u64, Seq<u64>>, s4: u64) -> int {
    1 + cnt4(m, s4, ENTRIES as int)
}

/// The tables of the user half of the address space under `s4`.
pub open spec fn nodes4(m: Map<u64, Seq<u64>>, s4: u64) -> Set<u64> {
    Set::new(
        |a: u64|
            a == s4 || exists|i: int|
                256 <= i < ENTRIES && present(m[s4][i]) && #[trigger] nodes3(m, addr(m[s4][i])).contains(a),
    )
}

/// The user half of the address space under `s4` is a tree of tables,
/// with no huge page above the middle level, whose frames can be counted.
pub open spec fn tree4(m: Map<u64, Seq<u64>>, s4: u64, base: int) -> bool {
    &&& m.dom().contains(s4)
    &&& m[s4].len() == ENTRIES
    &&& forall|i: int|
        256 <= i < ENTRIES && present(#[trigger] m[s4][i]) ==> !huge(m[s4][i]) && tree3(m, addr(m[s4][i]), base)
            && !nodes3(m, addr(m[s4][i])).contains(s4)
    &&& forall|i: int, j: int|
        256 <= i < j < ENTRIES && present(#[trigger] m[s4][i]) && present(#[trigger] m[s4][j]) ==> nodes3(
            m,
            addr(m[s4][i]),
        ).disjoint(nodes3(m, addr(m[s4][j])))
}

/// Entry `i` of the child's top-level table `d4`, cloned from `s4`: the
/// lower half shared, the upper half copied.
pub open spec fn done4_at(m: Map<u64, Seq<u64>>, f: Map<u64, Seq<u64>>, s4: u64, d4: u64, i: int) -> bool {
    let e = m[s4][i];
    let d = f[d4][i];
    &&& i < 256 ==> d == if present(e) { e } else { 0u64 }
    &&& i >= 256 && !present(e) ==> d == 0
    &&& i >= 256 && present(e) ==> d == link(addr(d)) && !m.dom().contains(addr(d)) && done3(m, f, addr(e), addr(d))
}

/// The address space under `s4` was cloned into the new top-level table
/// `d4`.
pub open spec fn done4(m: Map<u64, Seq<u64>>, f: Map<u64, Seq<u64>>, s4: u64, d4: u64) -> bool {
    &&& f.dom().contains(s4)
    &&& f.dom().contains(d4)
    &&& f[s4] == linked_from(m[s4], 256)
    &&& f[d4].len() == ENTRIES
    &&& forall|i: int| 0 <= i < ENTRIES ==> #[trigger] done4_at(m, f, s4, d4, i)
}

proof fn lemma_cnt4(m: Map<u64, Seq<u64>>, s4: u64, a: int, b: int)
    requires
        256 <= a <= b,
    ensures
        0 <= cnt4(m, s4, a) <= cnt4(m, s4, b),
    decreases b,
{
    if a < b {
        lemma_cnt4(m, s4, a, b - 1);
        if present(m[s4][b - 1]) {
            lemma_cnt3(m, addr(m[s4][b - 1]), 0, ENTRIES as int);
        }
    } else if a > 256 {
        lemma_cnt4(m, s4, a - 1, a - 1);
        if present(m[s4][a - 1]) {
            lemma_cnt3(m, addr(m[s4][a - 1]), 0, ENTRIES as int);
        }
    }
}

/// The tables under an upper-level table are tables.
proof fn lemma_nodes3_dom(m: Map<u64, Seq<u64>>, s3: u64, base: int)
    requires
        tree3(m, s3, base),
    ensures
        forall|a: u64| #[trigger] nodes3(m, s3).contains(a) ==> m.dom().contains(a),
{
    assert forall|a: u64| #[trigger] nodes3(m, s3).contains(a) implies m.dom().contains(a) by {
        if a != s3 {
            let i = choose|i: int|
                0 <= i < ENTRIES && present(m[s3][i]) && #[trigger] nodes2(m, addr(m[s3][i])).contains(a);
            assert(present(m[s3][i]));
            lemma_nodes2_dom(m, addr(m[s3][i]), base);
        }
    }
}

/// A subtree whose tables are unchanged is the same tree.
proof fn lemma_tree3_same(m: Map<u64, Seq<u64>>, g: Map<u64, Seq<u64>>, s3: u64, base: int)
    requires
        tree3(m, s3, base),
        forall|a: u64| #[trigger] nodes3(m, s3).contains(a) ==> g.dom().contains(a) && g[a] == m[a],
    ensures
        tree3(g, s3, base),
        nodes3(g, s3) == nodes3(m, s3),
        cnt3(g, s3, ENTRIES as int) == cnt3(m, s3, ENTRIES as int),
{
    assert(nodes3(m, s3).contains(s3));
    assert(g[s3] == m[s3]);
    assert forall|i: int| 0 <= i < ENTRIES && present(#[trigger] m[s3][i]) implies nodes2(g, addr(m[s3][i])) == nodes2(
        m,
        addr(m[s3][i]),
    ) && tree2(g, addr(m[s3][i]), base) && need2(g, addr(m[s3][i])) == need2(m, addr(m[s3][i])) by {
        let c = addr(m[s3][i]);
        assert forall|a: u64| #[trigger] nodes2(m, c).contains(a) implies g.dom().contains(a) && g[a] == m[a] by {
            assert(nodes3(m, s3).contains(a)) by {
                assert(present(m[s3][i]) && nodes2(m, addr(m[s3][i])).contains(a));
            }
        }
        lemma_tree2_same(m, g, c, base);
    }
    assert(nodes3(g, s3) =~= nodes3(m, s3)) by {
        assert forall|a: u64| nodes3(g, s3).contains(a) implies nodes3(m, s3).contains(a) by {
            if a != s3 {
                let i = choose|i: int|
                    0 <= i < ENTRIES && present(g[s3][i]) && #[trigger] nodes2(g, addr(g[s3][i])).contains(a);
                assert(present(m[s3][i]));
            }
        }
        assert forall|a: u64| nodes3(m, s3).contains(a) implies nodes3(g, s3).contains(a) by {
            if a != s3 {
                let i = choose|i: int|
                    0 <= i < ENTRIES && present(m[s3][i]) && #[trigger] nodes2(m, addr(m[s3][i])).contains(a);
                assert(present(g[s3][i]) && nodes2(g, addr(g[s3][i])).contains(a));
            }
        }
    }
    assert forall|i: int, j: int|
        0 <= i < j < ENTRIES && present(#[trigger] g[s3][i]) && present(#[trigger] g[s3][j]) implies nodes2(
        g,
        addr(g[s3][i]),
    ).disjoint(nodes2(g, addr(g[s3][j]))) by {
        assert(present(m[s3][i]) && present(m[s3][j]));
    }
    assert forall|n: int| 0 <= n <= ENTRIES implies cnt3(g, s3, n) == cnt3(m, s3, n) by {
        lemma_cnt3_same(m, g, s3, base, n);
    }
}

proof fn lemma_cnt3_same(m: Map<u64, Seq<u64>>, g: Map<u64, Seq<u64>>, s3: u64, base: int, n: int)
    requires
        0 <= n <= ENTRIES,
        g[s3] == m[s3],
        forall|i: int|
            0 <= i < ENTRIES && present(#[trigger] m[s3][i]) ==> need2(g, addr(m[s3][i])) == need2(m, addr(m[s3][i])),
    ensures
        cnt3(g, s3, n) == cnt3(m, s3, n),
    decreases n,
{
    if n > 0 {
        lemma_cnt3_same(m, g, s3, base, n - 1);
    }
}

/// `f2` agrees with `f` on the tables of `f` that are under `s3` in `m` or
/// were made since `m`.
pub open spec fn keeps3(m: Map<u64, Seq<u64>>, f: Map<u64, Seq<u64>>, f2: Map<u64, Seq<u64>>, s3: u64) -> bool {
    forall|a: u64|
        #![trigger f2[a]]
        #![trigger f2.dom().contains(a)]
        f.dom().contains(a) && (nodes3(m, s3).contains(a) || !m.dom().contains(a)) ==> f2.dom().contains(a) && f2[a]
            == f[a]
}

proof fn lemma_keeps3(m: Map<u64, Seq<u64>>, f: Map<u64, Seq<u64>>, f2: Map<u64, Seq<u64>>, s3: u64, a: u64)
    requires
        keeps3(m, f, f2, s3),
        f.dom().contains(a),
        nodes3(m, s3).contains(a) || !m.dom().contains(a),
    ensures
        f2.dom().contains(a) && f2[a] == f[a],
{
    assert(f2[a] == f2[a]);
}

proof fn lemma_done3_stable(m: Map<u64, Seq<u64>>, f: Map<u64, Seq<u64>>, f2: Map<u64, Seq<u64>>, s3: u64, d3: u64)
    requires
        done3(m, f, s3, d3),
        !m.dom().contains(d3),
        keeps3(m, f, f2, s3),
    ensures
        done3(m, f2, s3, d3),
{
    assert(nodes3(m, s3).contains(s3));
    assert(f2[s3] == f[s3]);
    assert(f2[d3] == f[d3]);
    assert forall|i: int| 0 <= i < ENTRIES implies #[trigger] done3_at(m, f2, s3, d3, i) by {
        assert(done3_at(m, f, s3, d3, i));
        if present(m[s3][i]) {
            let c = addr(m[s3][i]);
            let n = addr(f[d3][i]);
            assert(keeps2(m, f, f2, c)) by {
                assert forall|a: u64|
                    #![trigger f2[a]]
                    #![trigger f2.dom().contains(a)]
                    f.dom().contains(a) && (nodes2(m, c).contains(a) || !m.dom().contains(a)) implies f2.dom().contains(
                    a,
                ) && f2[a] == f[a] by {
                    if nodes2(m, c).contains(a) {
                        assert(nodes3(m, s3).contains(a)) by {
                            assert(present(m[s3][i]) && nodes2(m, addr(m[s3][i])).contains(a));
                        }
                    }
                    lemma_keeps3(m, f, f2, s3, a);
                }
            }
            lemma_done2_stable(m, f, f2, c, n);
        }
    }
}

/// The tables of the user half under a top-level table are tables.
proof fn lemma_nodes4_dom(m: Map<u64, Seq<u64>>, s4: u64, base: int)
    requires
        tree4(m, s4, base),
    ensures
        forall|a: u64| #[trigger] nodes4(m, s4).contains(a) ==> m.dom().contains(a),
{
    assert forall|a: u64| #[trigger] nodes4(m, s4).contains(a) implies m.dom().contains(a) by {
        if a != s4 {
            let i = choose|i: int|
                256 <= i < ENTRIES && present(m[s4][i]) && #[trigger] nodes3(m, addr(m[s4][i])).contains(a);
            assert(present(m[s4][i]));
            lemma_nodes3_dom(m, addr(m[s4][i]), base);
        }
    }
}

proof fn lemma_cnt4_same(m: Map<u64, Seq<u64>>, g: Map<u64, Seq<u64>>, s4: u64, n: int)
    requires
        n <= ENTRIES,
        g[s4] == m[s4],
        forall|i: int|
            256 <= i < ENTRIES && present(#[trigger] m[s4][i]) ==> cnt3(g, addr(m[s4][i]), ENTRIES as int) == cnt3(
                m,
                addr(m[s4][i]),
                ENTRIES as int,
            ),
    ensures
        cnt4(g, s4, n) == cnt4(m, s4, n),
    decreases n,
{
    if n > 256 {
        lemma_cnt4_same(m, g, s4, n - 1);
    }
}

/// An address space whose user-half tables are unchanged is the same tree.
proof fn lemma_tree4_same(m: Map<u64, Seq<u64>>, g: Map<u64, Seq<u64>>, s4: u64, base: int)
    requires
        tree4(m, s4, base),
        forall|a: u64| #[trigger] nodes4(m, s4).contains(a) ==> g.dom().contains(a) && g[a] == m[a],
    ensures
        tree4(g, s4, base),
        nodes4(g, s4) == nodes4(m, s4),
        cnt4(g, s4, ENTRIES as int) == cnt4(m, s4, ENTRIES as int),
{
    assert(nodes4(m, s4).contains(s4));
    assert(g[s4] == m[s4]);
    assert forall|i: int| 256 <= i < ENTRIES && present(#[trigger] m[s4][i]) implies nodes3(g, addr(m[s4][i])) == nodes3(
        m,
        addr(m[s4][i]),
    ) && tree3(g, addr(m[s4][i]), base) && cnt3(g, addr(m[s4][i]), ENTRIES as int) == cnt3(
        m,
        addr(m[s4][i]),
        ENTRIES as int,
    ) by {
        let c = addr(m[s4][i]);
        assert forall|a: u64| #[trigger] nodes3(m, c).contains(a) implies g.dom().contains(a) && g[a] == m[a] by {
            assert(nodes4(m, s4).contains(a)) by {
                assert(256 <= i && present(m[s4][i]) && nodes3(m, addr(m[s4][i])).contains(a));
            }
        }
        lemma_tree3_same(m, g, c, base);
    }
    assert(nodes4(g, s4) =~= nodes4(m, s4)) by {
        assert forall|a: u64| nodes4(g, s4).contains(a) implies nodes4(m, s4).contains(a) by {
            if a != s4 {
                let i = choose|i: int|
                    256 <= i < ENTRIES && present(g[s4][i]) && #[trigger] nodes3(g, addr(g[s4][i])).contains(a);
                assert(present(m[s4][i]));
            }
        }
        assert forall|a: u64| nodes4(m, s4).contains(a) implies nodes4(g, s4).contains(a) by {
            if a != s4 {
                let i = choose|i: int|
                    256 <= i < ENTRIES && present(m[s4][i]) && #[trigger] nodes3(m, addr(m[s4][i])).contains(a);
                assert(present(g[s4][i]) && nodes3(g, addr(g[s4][i])).contains(a));
            }
        }
    }
    assert forall|i: int, j: int|
        256 <= i < j < ENTRIES && present(#[trigger] g[s4][i]) && present(#[trigger] g[s4][j]) implies nodes3(
        g,
        addr(g[s4][i]),
    ).disjoint(nodes3(g, addr(g[s4][j]))) by {
        assert(present(m[s4][i]) && present(m[s4][j]));
    }
    lemma_cnt4_same(m, g, s4, ENTRIES as int);
}

/// `m1` extends `m` and agrees with it on the tables under `s`.
pub open spec fn extends_on(m: Map<u64, Seq<u64>>, m1: Map<u64, Seq<u64>>, nodes: Set<u64>) -> bool {
    &&& forall|a: u64| #[trigger] m.dom().contains(a) ==> m1.dom().contains(a)
    &&& forall|a: u64| #[trigger] nodes.contains(a) ==> m1.dom().contains(a) && m1[a] == m[a]
}

proof fn lemma_done2_shrink(m: Map<u64, Seq<u64>>, m1: Map<u64, Seq<u64>>, f: Map<u64, Seq<u64>>, s2: u64, d2: u64)
    requires
        extends_on(m, m1, nodes2(m, s2)),
        done2(m1, f, s2, d2),
    ensures
        done2(m, f, s2, d2),
{
    assert(nodes2(m, s2).contains(s2));
    assert forall|i: int| 0 <= i < ENTRIES implies #[trigger] done2_at(m, f, s2, d2, i) by {
        assert(done2_at(m1, f, s2, d2, i));
        if child2(m[s2], i) {
            assert(nodes2(m, s2).contains(addr(m[s2][i])));
        }
    }
}

proof fn lemma_done3_shrink(m: Map<u64, Seq<u64>>, m1: Map<u64, Seq<u64>>, f: Map<u64, Seq<u64>>, s3: u64, d3: u64)
    requires
        extends_on(m, m1, nodes3(m, s3)),
        done3(m1, f, s3, d3),
    ensures
        done3(m, f, s3, d3),
{
    assert(nodes3(m, s3).contains(s3));
    assert forall|i: int| 0 <= i < ENTRIES implies #[trigger] done3_at(m, f, s3, d3, i) by {
        assert(done3_at(m1, f, s3, d3, i));
        if present(m[s3][i]) {
            let c = addr(m[s3][i]);
            assert forall|a: u64| #[trigger] nodes2(m, c).contains(a) implies m1.dom().contains(a) && m1[a] == m[a] by {
                assert(nodes3(m, s3).contains(a)) by {
                    assert(present(m[s3][i]) && nodes2(m, addr(m[s3][i])).contains(a));
                }
            }
            assert(nodes2(m, c).contains(c));
            assert(nodes2(m1, c) == nodes2(m, c));
            lemma_done2_shrink(m, m1, f, c, addr(f[d3][i]));
        }
    }
}

proof fn lemma_done4_shrink(m: Map<u64, Seq<u64>>, m1: Map<u64, Seq<u64>>, f: Map<u64, Seq<u64>>, s4: u64, d4: u64)
    requires
        extends_on(m, m1, nodes4(m, s4)),
        done4(m1, f, s4, d4),
    ensures
        done4(m, f, s4, d4),
{
    assert(nodes4(m, s4).contains(s4));
    assert forall|i: int| 0 <= i < ENTRIES implies #[trigger] done4_at(m, f, s4, d4, i) by {
        assert(done4_at(m1, f, s4, d4, i));
        if i >= 256 && present(m[s4][i]) {
            let c = addr(m[s4][i]);
            assert forall|a: u64| #[trigger] nodes3(m, c).contains(a) implies m1.dom().contains(a) && m1[a] == m[a] by {
                assert(nodes4(m, s4).contains(a)) by {
                    assert(256 <= i && present(m[s4][i]) && nodes3(m, addr(m[s4][i])).contains(a));
                }
            }
            lemma_done3_shrink(m, m1, f, c, addr(f[d4][i]));
        }
    }
}

/// Every table holds 512 entries.
pub open spec fn full_tables(m: Map<u64, Seq<u64>>) -> bool {
    forall|a: u64| #[trigger] m.dom().contains(a) ==> m[a].len() == ENTRIES
}

/// After a clone, the child's tree leads every upper-half address where
/// the parent's tree led it before, and so does the parent's tree; a
/// lower-half address leads in the child where it leads in the parent.
pub proof fn law_clone_translates(m: Map<u64, Seq<u64>>, f: Map<u64, Seq<u64>>, src: u64, dst: u64, base: int, v: u64)
    requires
        tree4(m, src, base),
        done4(m, f, src, dst),
        full_tables(m),
        full_tables(f),
        src != 0,
        dst != 0,
    ensures
        idx4(v) >= 256 ==> translate(f, dst, v) == translate(m, src, v) && translate(f, src, v) == translate(
            m,
            src,
            v,
        ),
        idx4(v) < 256 ==> translate(f, dst, v) == translate(f, src, v),
{
    lemma_zero_absent();
    let i4 = idx4(v);
    let i3 = idx3(v);
    let i2 = idx2(v);
    let i1 = idx1(v);
    let e4 = m[src][i4];
    assert(done4_at(m, f, src, dst, i4));
    assert(f[src][i4] == linked_from(m[src], 256)[i4]);
    if i4 >= 256 && present(e4) {
        assert(!huge(e4) && tree3(m, addr(e4), base));
        let c3 = addr(e4);
        let n3 = addr(f[dst][i4]);
        lemma_cowed(e4);
        lemma_cowed(f[dst][i4]);
        lemma_link(c3);
        lemma_link(n3);
        assert(done3(m, f, c3, n3));
        let e3 = m[c3][i3];
        assert(done3_at(m, f, c3, n3, i3));
        assert(f[c3][i3] == linked_from(m[c3], 0)[i3]);
        if present(e3) {
            assert(!huge(e3) && tree2(m, addr(e3), base));
            let c2 = addr(e3);
            let n2 = addr(f[n3][i3]);
            lemma_cowed(e3);
            lemma_cowed(f[n3][i3]);
            lemma_link(c2);
            lemma_link(n2);
            assert(done2(m, f, c2, n2));
            let e2 = m[c2][i2];
            assert(done2_at(m, f, c2, n2, i2));
            assert(f[c2][i2] == l2_parent(m[c2])[i2]);
            lemma_cowed(e2);
            if present(e2) && !huge(e2) {
                assert(child2(m[c2], i2));
                let c1 = addr(e2);
                let n1 = addr(f[n2][i2]);
                lemma_cowed(f[n2][i2]);
                lemma_link(c1);
                lemma_link(n1);
                assert(done1(m, f, c1, n1));
                let e1 = m[c1][i1];
                assert(f[c1][i1] == l1_parent(m[c1])[i1]);
                assert(f[n1][i1] == l1_child(m[c1])[i1]);
                lemma_cowed(e1);
            }
        }
    }
}

/// Step `j` of giving back the user pages of the last-level table `s`:
/// the frame manager `ps[j + 1]` is `ps[j]` with one owner fewer of the
/// page of entry `j` when that entry is a present user page, else the same.
pub open spec fn release_step(s: Seq<u64>, ps: Seq<Pmm>, j: int) -> bool {
    if present(s[j]) && user(s[j]) {
        dec_step(ps[j], ps[j + 1], addr(s[j]))
    } else {
        ps[j + 1] == ps[j]
    }
}

/// `ps` runs through the frame manager's states while the user pages of
/// `s` each lose an owner, entry by entry.
pub open spec fn released(s: Seq<u64>, ps: Seq<Pmm>) -> bool {
    &&& ps.len() == s.len() + 1
    &&& forall|j: int| 0 <= j < s.len() ==> #[trigger] release_step(s, ps, j)
}

/// The frame number of the physical address `a` in a frame manager whose
/// memory starts at `base` (as `Pmm::frame_of` computes it).
pub open spec fn frame_at(base: int, a: u64) -> int {
    ((a - base) / PAGE_SIZE as int) as usize as int
}

/// `c` raised by `n`, held at the maximum: `n` increments of an owner count.
pub open spec fn sat_add(c: u16, n: nat) -> u16 {
    if c + n >= u16::MAX {
        u16::MAX
    } else {
        (c + n) as u16
    }
}

/// Owners that a clone adds to frame `k` through the entries below `n` of
/// the last-level table `s`: one for each present user page in frame `k`.
pub open spec fn own1(s: Seq<u64>, base: int, n: int, k: int) -> nat
    decreases n,
{
    if n <= 0 {
        0
    } else {
        own1(s, base, n - 1, k) + if present(s[n - 1]) && user(s[n - 1]) && frame_at(base, addr(s[n - 1])) == k {
            1nat
        } else {
            0nat
        }
    }
}

/// Owners that a shared huge page at `a` adds to frame `k` through its
/// first `n` frames.
pub open spec fn own_huge(base: int, a: u64, n: int, k: int) -> nat
    decreases n,
{
    if n <= 0 {
        0
    } else {
        own_huge(base, a, n - 1, k) + if frame_at(base, (a + (n - 1) * PAGE_SIZE) as u64) == k {
            1nat
        } else {
            0nat
        }
    }
}

/// Owners that a clone adds to frame `k` through the entries below `n` of
/// the middle-level table `s2`: huge pages and the last-level tables below.
pub open spec fn own2(m: Map<u64, Seq<u64>>, s2: u64, base: int, n: int, k: int) -> nat
    decreases n,
{
    if n <= 0 {
        0
    } else {
        let e = m[s2][n - 1];
        own2(m, s2, base, n - 1, k) + if !present(e) {
            0nat
        } else if huge(e) {
            own_huge(base, addr(e), ENTRIES as int, k)
        } else {
            own1(m[addr(e)], base, ENTRIES as int, k)
        }
    }
}

/// Owners that a clone adds to frame `k` through the entries below `n` of
/// the upper-level table `s3`.
pub open spec fn own3(m: Map<u64, Seq<u64>>, s3: u64, base: int, n: int, k: int) -> nat
    decreases n,
{
    if n <= 0 {
        0
    } else {
        own3(m, s3, base, n - 1, k) + if present(m[s3][n - 1]) {
            own2(m, addr(m[s3][n - 1]), base, ENTRIES as int, k)
        } else {
            0nat
        }
    }
}

/// Owners that a clone adds to frame `k` through the upper-half entries
/// below `n` of the top-level table `s4`.
pub open spec fn own4(m: Map<u64, Seq<u64>>, s4: u64, base: int, n: int, k: int) -> nat
    decreases n,
{
    if n <= 256 {
        0
    } else {
        own4(m, s4, base, n - 1, k) + if present(m[s4][n - 1]) {
            own3(m, addr(m[s4][n - 1]), base, ENTRIES as int, k)
        } else {
            0nat
        }
    }
}

/// Owners that a clone of the address space under `s4` adds to frame `k`:
/// one per user page mapped in frame `k` under the upper half.
pub open spec fn clone_owners(m: Map<u64, Seq<u64>>, s4: u64, base: int, k: int) -> nat {
    own4(m, s4, base, ENTRIES as int, k)
}

proof fn lemma_sat_add(c: u16, a: nat, b: nat)
    ensures
        sat_add(sat_add(c, a), b) == sat_add(c, a + b),
{
}

proof fn lemma_own2_same(m: Map<u64, Seq<u64>>, g: Map<u64, Seq<u64>>, s2: u64, base: int, n: int, k: int)
    requires
        forall|a: u64| #[trigger] nodes2(m, s2).contains(a) ==> g[a] == m[a],
        n <= ENTRIES,
    ensures
        own2(g, s2, base, n, k) == own2(m, s2, base, n, k),
    decreases n,
{
    assert(nodes2(m, s2).contains(s2));
    if n > 0 {
        lemma_own2_same(m, g, s2, base, n - 1, k);
        let e = m[s2][n - 1];
        if present(e) && !huge(e) {
            assert(child2(m[s2], n - 1));
            assert(nodes2(m, s2).contains(addr(e)));
        }
    }
}

proof fn lemma_own3_same(m: Map<u64, Seq<u64>>, g: Map<u64, Seq<u64>>, s3: u64, base: int, n: int, k: int)
    requires
        forall|a: u64| #[trigger] nodes3(m, s3).contains(a) ==> g[a] == m[a],
        n <= ENTRIES,
    ensures
        own3(g, s3, base, n, k) == own3(m, s3, base, n, k),
    decreases n,
{
    assert(nodes3(m, s3).contains(s3));
    if n > 0 {
        lemma_own3_same(m, g, s3, base, n - 1, k);
        let e = m[s3][n - 1];
        if present(e) {
            let c = addr(e);
            assert forall|a: u64| #[trigger] nodes2(m, c).contains(a) implies g[a] == m[a] by {
                assert(present(m[s3][n - 1]) && nodes2(m, addr(m[s3][n - 1])).contains(a));
                assert(nodes3(m, s3).contains(a));
            }
            lemma_own2_same(m, g, c, base, ENTRIES as int, k);
        }
    }
}

proof fn lemma_own4_same(m: Map<u64, Seq<u64>>, g: Map<u64, Seq<u64>>, s4: u64, base: int, n: int, k: int)
    requires
        forall|a: u64| #[trigger] nodes4(m, s4).contains(a) ==> g[a] == m[a],
        n <= ENTRIES,
    ensures
        own4(g, s4, base, n, k) == own4(m, s4, base, n, k),
    decreases n,
{
    assert(nodes4(m, s4).contains(s4));
    if n > 256 {
        lemma_own4_same(m, g, s4, base, n - 1, k);
        let e = m[s4][n - 1];
        if present(e) {
            let c = addr(e);
            assert forall|a: u64| #[trigger] nodes3(m, c).contains(a) implies g[a] == m[a] by {
                assert(256 <= n - 1 && present(m[s4][n - 1]) && nodes3(m, addr(m[s4][n - 1])).contains(a));
                assert(nodes4(m, s4).contains(a));
            }
            lemma_own3_same(m, g, c, base, ENTRIES as int, k);
        }
    }
}

impl TableMem {
    /// Clone one last-level table `s1` into the empty table `d1`: user pages
    /// are shared copy-on-write (one more owner each), other present entries
    /// are copied.
    fn clone_l1(&mut self, pmm: &mut Pmm, s1: PhysAddr, d1: PhysAddr)
        requires
            old(self).wf(),
            old(pmm).wf(),
            old(self)@.dom().contains(s1),
            old(self)@.dom().contains(d1),
            s1 != d1,
            old(self)@[d1] == zeros(),
            leaves_ok(old(self)@[s1], old(pmm).base()),
        ensures
            final(self).wf(),
            final(pmm).wf(),
            final(pmm).free_set() == old(pmm).free_set(),
            final(pmm).base() == old(pmm).base(),
            final(pmm).size() == old(pmm).size(),
            final(self)@ == old(self)@.insert(s1, l1_parent(old(self)@[s1])).insert(d1, l1_child(old(self)@[s1])),
            forall|k: int|
                0 <= k < MAX_FRAMES ==> #[trigger] final(pmm).refcount(k) == sat_add(
                    old(pmm).refcount(k),
                    own1(old(self)@[s1], old(pmm).base(), ENTRIES as int, k),
                ),
    {
        let ghost m = self@;
        let ghost s = m[s1];
        let ghost p0 = *pmm;
        proof {
            self.lemma_wf();
        }
        let mut i: usize = 0;
        proof {
            assert(Seq::new(ENTRIES as nat, |j: int| if j < i { l1_parent(s)[j] } else { s[j] }) =~= s);
            assert(Seq::new(ENTRIES as nat, |j: int| if j < i { l1_child(s)[j] } else { 0u64 }) =~= zeros());
            assert(m.insert(s1, s).insert(d1, zeros()) =~= m);
        }
        while i < ENTRIES
            invariant
                self.wf(),
                pmm.wf(),
                pmm.free_set() == old(pmm).free_set(),
                pmm.base() == old(pmm).base(),
                pmm.size() == old(pmm).size(),
                i <= ENTRIES,
                s1 != d1,
                m == old(self)@,
                s == m[s1],
                s.len() == ENTRIES,
                m.dom().contains(s1) && m.dom().contains(d1),
                leaves_ok(s, old(pmm).base()),
                p0 == *old(pmm),
                forall|k: int|
                    0 <= k < MAX_FRAMES ==> #[trigger] pmm.refcount(k) == sat_add(
                        p0.refcount(k),
                        own1(s, p0.base(), i as int, k),
                    ),
                self@ == m.insert(
                    s1,
                    Seq::new(ENTRIES as nat, |j: int| if j < i { l1_parent(s)[j] } else { s[j] }),
                ).insert(d1, Seq::new(ENTRIES as nat, |j: int| if j < i { l1_child(s)[j] } else { 0u64 })),
            decreases ENTRIES - i,
        {
            let ghost g = self@;
            let e = self.entry(s1, i);
            assert(e == s[i as int]);
            if e & PTE_P == 0 {
                assert(l1_parent(s)[i as int] == s[i as int]);
                assert(l1_child(s)[i as int] == 0);
            } else if e & PTE_U == 0 {
                self.set_entry(d1, i, e);
                assert(l1_parent(s)[i as int] == s[i as int]);
                assert(l1_child(s)[i as int] == e);
            } else {
                let phys = e & PTE_ADDR;
                let ghost q = *pmm;
                pmm.frame_inc(phys);
                proof {
                    pmm.lemma_same_frames(q);
                }
                let c = (e & !PTE_W) | PTE_COW;
                self.set_entry(s1, i, c);
                self.set_entry(d1, i, c);
                assert(l1_parent(s)[i as int] == c);
                assert(l1_child(s)[i as int] == c);
            }
            proof {
                assert forall|k: int| 0 <= k < MAX_FRAMES implies #[trigger] pmm.refcount(k) == sat_add(
                    p0.refcount(k),
                    own1(s, p0.base(), i + 1, k),
                ) by {
                    lemma_sat_add(p0.refcount(k), own1(s, p0.base(), i as int, k), 1);
                }
            }
            i = i + 1;
            proof {
                assert(self@[s1] =~= Seq::new(ENTRIES as nat, |j: int| if j < i { l1_parent(s)[j] } else { s[j] }));
                assert(self@[d1] =~= Seq::new(ENTRIES as nat, |j: int| if j < i { l1_child(s)[j] } else { 0u64 }));
                assert(self@ =~= m.insert(
                    s1,
                    Seq::new(ENTRIES as nat, |j: int| if j < i { l1_parent(s)[j] } else { s[j] }),
                ).insert(d1, Seq::new(ENTRIES as nat, |j: int| if j < i { l1_child(s)[j] } else { 0u64 })));
            }
        }
        proof {
            assert(Seq::new(ENTRIES as nat, |j: int| if j < ENTRIES { l1_parent(s)[j] } else { s[j] }) =~= l1_parent(s));
            assert(Seq::new(ENTRIES as nat, |j: int| if j < ENTRIES { l1_child(s)[j] } else { 0u64 }) =~= l1_child(s));
        }
    }

    /// Clone the middle-level table `s2` into the empty table `d2`: a huge
    /// page is shared copy-on-write (each of its frames gains an owner);
    /// each last-level table is cloned into a new table.
    fn clone_l2(&mut self, pmm: &mut Pmm, s2: PhysAddr, d2: PhysAddr)
        requires
            old(self).wf(),
            old(pmm).wf(),
            tables_held(old(self)@, *old(pmm)),
            aligned_pool(*old(pmm)),
            tree2(old(self)@, s2, old(pmm).base()),
            old(self)@.dom().contains(d2),
            old(self)@[d2] == zeros(),
            !nodes2(old(self)@, s2).contains(d2),
            old(pmm).free_set().len() >= cnt2(old(self)@[s2], ENTRIES as int),
        ensures
            final(self).wf(),
            final(pmm).wf(),
            final(pmm).base() == old(pmm).base(),
            final(pmm).size() == old(pmm).size(),
            tables_held(final(self)@, *final(pmm)),
            final(pmm).free_set().subset_of(old(pmm).free_set()),
            final(pmm).free_set().len() == old(pmm).free_set().len() - cnt2(old(self)@[s2], ENTRIES as int),
            forall|a: u64| #[trigger] old(self)@.dom().contains(a) ==> final(self)@.dom().contains(a),
            forall|a: u64|
                #![trigger final(self)@[a]]
                old(self)@.dom().contains(a) && !nodes2(old(self)@, s2).contains(a) && a != d2 ==> final(self)@[a]
                    == old(self)@[a],
            done2(old(self)@, final(self)@, s2, d2),
            forall|k: int|
                0 <= k < MAX_FRAMES && (final(pmm).free_set().contains(k) || !old(pmm).free_set().contains(k))
                    ==> #[trigger] final(pmm).refcount(k) == sat_add(
                    old(pmm).refcount(k),
                    own2(old(self)@, s2, old(pmm).base(), ENTRIES as int, k),
                ),
    {
        let ghost m = self@;
        let ghost s = m[s2];
        let ghost p0 = *pmm;
        proof {
            self.lemma_wf();
            lemma_cnt2(s, 0, ENTRIES as int);
        }
        let mut i: usize = 0;
        proof {
            assert(Seq::new(ENTRIES as nat, |j: int| if j < i { l2_parent(s)[j] } else { s[j] }) =~= s);
        }
        while i < ENTRIES
            invariant
                self.wf(),
                pmm.wf(),
                pmm.base() == p0.base(),
                pmm.size() == p0.size(),
                tables_held(self@, *pmm),
                aligned_pool(*pmm),
                pmm.free_set().subset_of(p0.free_set()),
                pmm.free_set().len() == p0.free_set().len() - cnt2(s, i as int),
                p0.free_set().len() >= cnt2(s, ENTRIES as int),
                p0 == *old(pmm),
                forall|k: int|
                    0 <= k < MAX_FRAMES && (pmm.free_set().contains(k) || !p0.free_set().contains(k))
                        ==> #[trigger] pmm.refcount(k) == sat_add(p0.refcount(k), own2(m, s2, p0.base(), i as int, k)),
                m == old(self)@,
                s == m[s2],
                i <= ENTRIES,
                tree2(m, s2, p0.base()),
                m.dom().contains(d2),
                m[d2] == zeros(),
                !nodes2(m, s2).contains(d2),
                forall|a: u64| #[trigger] m.dom().contains(a) ==> self@.dom().contains(a),
                forall|a: u64|
                    #![trigger self@[a]]
                    m.dom().contains(a) && !nodes2(m, s2).contains(a) && a != d2 ==> self@[a] == m[a],
                self@[s2] == Seq::new(ENTRIES as nat, |j: int| if j < i { l2_parent(s)[j] } else { s[j] }),
                self@[d2].len() == ENTRIES,
                forall|j: int| i <= j < ENTRIES ==> #[trigger] self@[d2][j] == 0,
                forall|j: int| 0 <= j < i ==> #[trigger] done2_at(m, self@, s2, d2, j),
                forall|j: int| i <= j < ENTRIES && #[trigger] child2(s, j) ==> self@[addr(s[j])] == m[addr(s[j])],
            decreases ENTRIES - i,
        {
            let ghost g = self@;
            let ghost pg = *pmm;
            proof {
                self.lemma_wf();
                lemma_cnt2(s, i as int, i as int + 1);
                lemma_cnt2(s, i as int + 1, ENTRIES as int);
            }
            let e = self.entry(s2, i);
            assert(e == s[i as int]);
            if e & PTE_P == 0 {
                proof {
                    assert(l2_parent(s)[i as int] == s[i as int]);
                    assert(done2_at(m, self@, s2, d2, i as int));
                }
            } else if e & PTE_PS != 0 {
                let phys = e & PTE_ADDR;
                proof {
                    lemma_cowed(e);
                }
                let mut k: usize = 0;
                while k < ENTRIES
                    invariant
                        pmm.wf(),
                        pmm.free_set() == pg.free_set(),
                        pmm.base() == pg.base(),
                        pmm.size() == pg.size(),
                        k <= ENTRIES,
                        phys <= PTE_ADDR,
                        pg.base() <= phys,
                        forall|x: int|
                            0 <= x < MAX_FRAMES ==> #[trigger] pmm.refcount(x) == sat_add(
                                pg.refcount(x),
                                own_huge(pg.base(), phys, k as int, x),
                            ),
                    decreases ENTRIES - k,
                {
                    let ghost q = *pmm;
                    assert(k * PAGE_SIZE <= 511 * 4096) by (nonlinear_arith)
                        requires
                            k < 512,
                            PAGE_SIZE == 4096,
                    ;
                    let a = phys + (k as u64) * (PAGE_SIZE as u64);
                    pmm.frame_inc(a);
                    proof {
                        pmm.lemma_same_frames(q);
                        assert(a == (phys + k * PAGE_SIZE) as u64);
                        assert forall|x: int| 0 <= x < MAX_FRAMES implies #[trigger] pmm.refcount(x) == sat_add(
                            pg.refcount(x),
                            own_huge(pg.base(), phys, k + 1, x),
                        ) by {
                            lemma_sat_add(pg.refcount(x), own_huge(pg.base(), phys, k as int, x), 1);
                        }
                    }
                    k = k + 1;
                }
                proof {
                    assert(phys == addr(e));
                    assert forall|x: int|
                        0 <= x < MAX_FRAMES && (pmm.free_set().contains(x) || !p0.free_set().contains(x)) implies #[trigger] pmm.refcount(x)
                        == sat_add(p0.refcount(x), own2(m, s2, p0.base(), i + 1, x)) by {
                        lemma_sat_add(p0.refcount(x), own2(m, s2, p0.base(), i as int, x), own_huge(pg.base(), phys, ENTRIES as int, x));
                    }
                }
                let c = (e & !PTE_W) | PTE_COW;
                self.set_entry(s2, i, c);
                self.set_entry(d2, i, c);
                proof {
                    assert(self@.dom() =~= g.dom());
                    assert(l2_parent(s)[i as int] == c);
                    assert(done2_at(m, self@, s2, d2, i as int));
                }
            } else {
                let p1 = e & PTE_ADDR;
                proof {
                    lemma_cowed(e);
                    assert(child2(s, i as int));
                }
                let n1 = self.zpg(pmm);
                let ghost g1 = self@;
                let ghost pz = *pmm;
                proof {
                    pg.lemma_free_set_finite();
                    pg.lemma_free_frame(pg.frame_of(n1 as int));
                    lemma_pool_addr(pg, pg.frame_of(n1 as int));
                    lemma_entry_bits(0, 6, n1);
                    lemma_link(n1);
                    lemma_link(p1);
                }
                self.set_entry(d2, i, pte_make(n1, PTE_WU));
                self.set_entry(s2, i, pte_make(p1, PTE_WU));
                let ghost g2 = self@;
                proof {
                    assert(g2.dom() =~= g1.dom());
                    assert(p1 != s2 && p1 != d2);
                    assert(self@[p1] == m[p1]);
                }
                self.clone_l1(pmm, p1, n1);
                proof {
                    let t = pg.frame_of(n1 as int);
                    assert(p1 == addr(e));
                    assert forall|x: int|
                        0 <= x < MAX_FRAMES && (pmm.free_set().contains(x) || !p0.free_set().contains(x)) implies #[trigger] pmm.refcount(x)
                        == sat_add(p0.refcount(x), own2(m, s2, p0.base(), i + 1, x)) by {
                        assert(x != t);
                        assert(pz.refcount(x) == pg.refcount(x));
                        assert(pg.free_set().contains(x) || !p0.free_set().contains(x));
                        lemma_sat_add(p0.refcount(x), own2(m, s2, p0.base(), i as int, x), own1(m[p1], p0.base(), ENTRIES as int, x));
                    }
                    assert(self@.dom() =~= g1.dom());
                    assert(l2_parent(s)[i as int] == link(p1));
                    assert(done1(m, self@, p1, n1));
                    assert(done2_at(m, self@, s2, d2, i as int));
                }
            }
            proof {
                let f = self@;
                assert forall|j: int| 0 <= j < i implies #[trigger] done2_at(m, f, s2, d2, j) by {
                    assert(done2_at(m, g, s2, d2, j));
                    assert(f[d2][j] == g[d2][j]);
                    if child2(s, j) {
                        let c = addr(s[j]);
                        let n = addr(g[d2][j]);
                        assert(c != addr(s[i as int]) || !child2(s, i as int));
                        assert(done1(m, g, c, n));
                    }
                }
            }
            i = i + 1;
            proof {
                assert(self@[s2] =~= Seq::new(ENTRIES as nat, |j: int| if j < i { l2_parent(s)[j] } else { s[j] }));
            }
        }
        proof {
            assert(self@[s2] =~= l2_parent(s));
        }
    }

    /// Clone the upper-level table `s3` into the empty table `d3`: each
    /// middle-level table is cloned into a new table.
    fn clone_l3(&mut self, pmm: &mut Pmm, s3: PhysAddr, d3: PhysAddr)
        requires
            old(self).wf(),
            old(pmm).wf(),
            tables_held(old(self)@, *old(pmm)),
            aligned_pool(*old(pmm)),
            tree3(old(self)@, s3, old(pmm).base()),
            old(self)@.dom().contains(d3),
            old(self)@[d3] == zeros(),
            !nodes3(old(self)@, s3).contains(d3),
            old(pmm).free_set().len() >= cnt3(old(self)@, s3, ENTRIES as int),
        ensures
            final(self).wf(),
            final(pmm).wf(),
            final(pmm).base() == old(pmm).base(),
            final(pmm).size() == old(pmm).size(),
            tables_held(final(self)@, *final(pmm)),
            final(pmm).free_set().subset_of(old(pmm).free_set()),
            final(pmm).free_set().len() == old(pmm).free_set().len() - cnt3(old(self)@, s3, ENTRIES as int),
            forall|a: u64| #[trigger] old(self)@.dom().contains(a) ==> final(self)@.dom().contains(a),
            forall|a: u64|
                #![trigger final(self)@[a]]
                old(self)@.dom().contains(a) && !nodes3(old(self)@, s3).contains(a) && a != d3 ==> final(self)@[a]
                    == old(self)@[a],
            done3(old(self)@, final(self)@, s3, d3),
            forall|k: int|
                0 <= k < MAX_FRAMES && (final(pmm).free_set().contains(k) || !old(pmm).free_set().contains(k))
                    ==> #[trigger] final(pmm).refcount(k) == sat_add(
                    old(pmm).refcount(k),
                    own3(old(self)@, s3, old(pmm).base(), ENTRIES as int, k),
                ),
    {
        let ghost m = self@;
        let ghost s = m[s3];
        let ghost p0 = *pmm;
        let ghost base = p0.base();
        proof {
            self.lemma_wf();
            lemma_cnt3(m, s3, 0, ENTRIES as int);
        }
        let mut i: usize = 0;
        proof {
            assert(Seq::new(ENTRIES as nat, |j: int| if j < i { linked_from(s, 0)[j] } else { s[j] }) =~= s);
        }
        while i < ENTRIES
            invariant
                self.wf(),
                pmm.wf(),
                pmm.base() == p0.base(),
                pmm.size() == p0.size(),
                tables_held(self@, *pmm),
                aligned_pool(*pmm),
                pmm.free_set().subset_of(p0.free_set()),
                pmm.free_set().len() == p0.free_set().len() - cnt3(m, s3, i as int),
                p0.free_set().len() >= cnt3(m, s3, ENTRIES as int),
                p0 == *old(pmm),
                base == p0.base(),
                forall|k: int|
                    0 <= k < MAX_FRAMES && (pmm.free_set().contains(k) || !p0.free_set().contains(k))
                        ==> #[trigger] pmm.refcount(k) == sat_add(p0.refcount(k), own3(m, s3, base, i as int, k)),
                m == old(self)@,
                s == m[s3],
                i <= ENTRIES,
                tree3(m, s3, base),
                m.dom().contains(d3),
                m[d3] == zeros(),
                !nodes3(m, s3).contains(d3),
                forall|a: u64| #[trigger] m.dom().contains(a) ==> self@.dom().contains(a),
                forall|a: u64|
                    #![trigger self@[a]]
                    m.dom().contains(a) && !nodes3(m, s3).contains(a) && a != d3 ==> self@[a] == m[a],
                self@[s3] == Seq::new(ENTRIES as nat, |j: int| if j < i { linked_from(s, 0)[j] } else { s[j] }),
                self@[d3].len() == ENTRIES,
                forall|j: int| i <= j < ENTRIES ==> #[trigger] self@[d3][j] == 0,
                forall|j: int| 0 <= j < i ==> #[trigger] done3_at(m, self@, s3, d3, j),
                forall|j: int, a: u64|
                    #![trigger present(s[j]), nodes2(m, addr(s[j])).contains(a)]
                    i <= j < ENTRIES && present(s[j]) && nodes2(m, addr(s[j])).contains(a) ==> self@.dom().contains(a)
                        && self@[a] == m[a],
            decreases ENTRIES - i,
        {
            let ghost g = self@;
            let ghost pg = *pmm;
            proof {
                self.lemma_wf();
                lemma_cnt3(m, s3, i as int + 1, ENTRIES as int);
            }
            let e = self.entry(s3, i);
            assert(e == s[i as int]);
            if e & PTE_P == 0 {
                proof {
                    assert(linked_from(s, 0)[i as int] == s[i as int]);
                    assert(done3_at(m, self@, s3, d3, i as int));
                }
            } else {
                let p2 = e & PTE_ADDR;
                let ghost c = addr(s[i as int]);
                proof {
                    lemma_cowed(e);
                    assert(present(s[i as int]));
                    assert(tree2(m, c, base) && !nodes2(m, c).contains(s3));
                    lemma_nodes2_dom(m, c, base);
                    lemma_cnt2(m[c], 0, ENTRIES as int);
                    assert forall|a: u64| #[trigger] nodes2(m, c).contains(a) implies nodes3(m, s3).contains(a) by {
                        assert(present(m[s3][i as int]) && nodes2(m, addr(m[s3][i as int])).contains(a));
                    }
                }
                let n2 = self.zpg(pmm);
                let ghost pz = *pmm;
                proof {
                    pg.lemma_free_set_finite();
                    pg.lemma_free_frame(pg.frame_of(n2 as int));
                    lemma_pool_addr(pg, pg.frame_of(n2 as int));
                    lemma_entry_bits(0, 6, n2);
                    lemma_link(n2);
                    lemma_link(p2);
                }
                self.set_entry(d3, i, pte_make(n2, PTE_WU));
                self.set_entry(s3, i, pte_make(p2, PTE_WU));
                let ghost g2 = self@;
                proof {
                    assert(nodes2(m, c).contains(c));
                    assert forall|a: u64| #[trigger] nodes2(m, c).contains(a) implies g2.dom().contains(a) && g2[a]
                        == m[a] by {
                        assert(present(s[i as int]) && nodes2(m, addr(s[i as int])).contains(a));
                        assert(a != s3 && a != d3 && a != n2);
                    }
                    lemma_tree2_same(m, g2, c, base);
                    assert(!nodes2(g2, c).contains(n2));
                    assert(g2[n2] == zeros());
                }
                self.clone_l2(pmm, p2, n2);
                proof {
                    let t = pg.frame_of(n2 as int);
                    assert(p2 == c);
                    assert forall|x: int|
                        0 <= x < MAX_FRAMES && (pmm.free_set().contains(x) || !p0.free_set().contains(x)) implies #[trigger] pmm.refcount(x)
                        == sat_add(p0.refcount(x), own3(m, s3, base, i + 1, x)) by {
                        assert(x != t);
                        assert(pz.refcount(x) == pg.refcount(x));
                        assert(pg.free_set().contains(x) || !p0.free_set().contains(x));
                        lemma_own2_same(m, g2, c, base, ENTRIES as int, x);
                        lemma_sat_add(p0.refcount(x), own3(m, s3, base, i as int, x), own2(m, c, base, ENTRIES as int, x));
                    }
                    let f = self@;
                    assert forall|a: u64| #[trigger] g.dom().contains(a) implies f.dom().contains(a) by {
                        assert(g2.dom().contains(a));
                    }
                    assert(f[s3] == g2[s3]);
                    assert(f[d3] == g2[d3]);
                    assert(linked_from(s, 0)[i as int] == link(p2));
                    assert(done2(g2, f, c, n2));
                    assert(done2(m, f, c, n2)) by {
                        assert(nodes2(m, c).contains(c));
                        assert(g2[c] == m[c]);
                        assert forall|k: int| 0 <= k < ENTRIES implies #[trigger] done2_at(m, f, c, n2, k) by {
                            assert(done2_at(g2, f, c, n2, k));
                            if child2(m[c], k) {
                                assert(nodes2(m, c).contains(addr(m[c][k])));
                                assert(g2[addr(m[c][k])] == m[addr(m[c][k])]);
                            }
                        }
                        assert(f[c] == l2_parent(m[c]));
                    }
                    assert(done3_at(m, f, s3, d3, i as int));
                    assert forall|a: u64|
                        #![trigger f[a]]
                        g.dom().contains(a) && a != s3 && a != d3 && !nodes2(m, c).contains(a) implies f.dom().contains(a)
                            && f[a] == g[a] by {
                        assert(a != n2);
                        assert(g2.dom().contains(a));
                        assert(g2[a] == g[a]);
                        assert(!nodes2(g2, c).contains(a));
                        assert(p2 == c);
                        assert(f[a] == g2[a]);
                    }
                    assert forall|j: int| 0 <= j < i implies #[trigger] done3_at(m, f, s3, d3, j) by {
                        assert(done3_at(m, g, s3, d3, j));
                        assert(f[d3][j] == g[d3][j]);
                        if present(s[j]) {
                            let cj = addr(s[j]);
                            let nj = addr(g[d3][j]);
                            assert(tree2(m, cj, base) && !nodes2(m, cj).contains(s3));
                            assert(nodes2(m, cj).disjoint(nodes2(m, c)));
                            assert(keeps2(m, g, f, cj)) by {
                                assert forall|a: u64|
                                    #![trigger f[a]]
                                    g.dom().contains(a) && (nodes2(m, cj).contains(a) || !m.dom().contains(a)) implies f.dom().contains(
                                    a,
                                ) && f[a] == g[a] by {
                                    if nodes2(m, cj).contains(a) {
                                        assert(nodes3(m, s3).contains(a)) by {
                                            assert(present(m[s3][j]) && nodes2(m, addr(m[s3][j])).contains(a));
                                        }
                                        assert(a != d3);
                                        assert(a != s3);
                                        assert(!nodes2(m, c).contains(a));
                                    } else {
                                        assert(a != d3);
                                        assert(a != s3);
                                        assert(!nodes2(m, c).contains(a));
                                    }
                                    assert(g2.dom().contains(a));
                                    assert(f[a] == g[a]);
                                }
                            }
                            lemma_done2_stable(m, g, f, cj, nj);
                        }
                    }
                    assert forall|j: int, a: u64|
                        #![trigger present(s[j]), nodes2(m, addr(s[j])).contains(a)]
                        i + 1 <= j < ENTRIES && present(s[j]) && nodes2(m, addr(s[j])).contains(a) implies f.dom().contains(
                        a,
                    ) && f[a] == m[a] by {
                        assert(g.dom().contains(a) && g[a] == m[a]);
                        assert(tree2(m, addr(s[j]), base) && !nodes2(m, addr(s[j])).contains(s3));
                        assert(nodes3(m, s3).contains(a)) by {
                            assert(present(m[s3][j]) && nodes2(m, addr(m[s3][j])).contains(a));
                        }
                        assert(nodes2(m, c).disjoint(nodes2(m, addr(s[j]))));
                        assert(g2.dom().contains(a));
                        assert(a != d3 && a != s3);
                        assert(f[a] == g[a]);
                    }
                }
            }
            i = i + 1;
            proof {
                assert(self@[s3] =~= Seq::new(ENTRIES as nat, |j: int| if j < i { linked_from(s, 0)[j] } else { s[j] }));
            }
        }
        proof {
            assert(self@[s3] =~= linked_from(s, 0));
        }
    }

    /// Clone the top-level table `s4` into the empty table `d4`: the lower
    /// half is shared, each upper-level table of the upper half is cloned
    /// into a new table.
    fn clone_top(&mut self, pmm: &mut Pmm, s4: PhysAddr, d4: PhysAddr)
        requires
            old(self).wf(),
            old(pmm).wf(),
            tables_held(old(self)@, *old(pmm)),
            aligned_pool(*old(pmm)),
            tree4(old(self)@, s4, old(pmm).base()),
            old(self)@.dom().contains(d4),
            old(self)@[d4] == zeros(),
            !nodes4(old(self)@, s4).contains(d4),
            old(pmm).free_set().len() >= cnt4(old(self)@, s4, ENTRIES as int),
        ensures
            final(self).wf(),
            final(pmm).wf(),
            final(pmm).base() == old(pmm).base(),
            final(pmm).size() == old(pmm).size(),
            tables_held(final(self)@, *final(pmm)),
            final(pmm).free_set().subset_of(old(pmm).free_set()),
            final(pmm).free_set().len() == old(pmm).free_set().len() - cnt4(old(self)@, s4, ENTRIES as int),
            forall|a: u64| #[trigger] old(self)@.dom().contains(a) ==> final(self)@.dom().contains(a),
            forall|a: u64|
                #![trigger final(self)@[a]]
                old(self)@.dom().contains(a) && !nodes4(old(self)@, s4).contains(a) && a != d4 ==> final(self)@[a]
                    == old(self)@[a],
            done4(old(self)@, final(self)@, s4, d4),
            forall|k: int|
                0 <= k < MAX_FRAMES && (final(pmm).free_set().contains(k) || !old(pmm).free_set().contains(k))
                    ==> #[trigger] final(pmm).refcount(k) == sat_add(
                    old(pmm).refcount(k),
                    own4(old(self)@, s4, old(pmm).base(), ENTRIES as int, k),
                ),
    {
        let ghost m = self@;
        let ghost s = m[s4];
        let ghost p0 = *pmm;
        let ghost base = p0.base();
        proof {
            self.lemma_wf();
            lemma_cnt4(m, s4, 256, ENTRIES as int);
        }
        let mut i: usize = 0;
        proof {
            assert(Seq::new(ENTRIES as nat, |j: int| if j < i { linked_from(s, 256)[j] } else { s[j] }) =~= s);
        }
        while i < ENTRIES
            invariant
                self.wf(),
                pmm.wf(),
                pmm.base() == p0.base(),
                pmm.size() == p0.size(),
                tables_held(self@, *pmm),
                aligned_pool(*pmm),
                pmm.free_set().subset_of(p0.free_set()),
                pmm.free_set().len() == p0.free_set().len() - cnt4(m, s4, i as int),
                p0.free_set().len() >= cnt4(m, s4, ENTRIES as int),
                p0 == *old(pmm),
                base == p0.base(),
                forall|k: int|
                    0 <= k < MAX_FRAMES && (pmm.free_set().contains(k) || !p0.free_set().contains(k))
                        ==> #[trigger] pmm.refcount(k) == sat_add(p0.refcount(k), own4(m, s4, base, i as int, k)),
                m == old(self)@,
                s == m[s4],
                i <= ENTRIES,
                tree4(m, s4, base),
                m.dom().contains(d4),
                m[d4] == zeros(),
                !nodes4(m, s4).contains(d4),
                forall|a: u64| #[trigger] m.dom().contains(a) ==> self@.dom().contains(a),
                forall|a: u64|
                    #![trigger self@[a]]
                    m.dom().contains(a) && !nodes4(m, s4).contains(a) && a != d4 ==> self@[a] == m[a],
                self@[s4] == Seq::new(ENTRIES as nat, |j: int| if j < i { linked_from(s, 256)[j] } else { s[j] }),
                self@[d4].len() == ENTRIES,
                forall|j: int| i <= j < ENTRIES ==> #[trigger] self@[d4][j] == 0,
                forall|j: int| 0 <= j < i ==> #[trigger] done4_at(m, self@, s4, d4, j),
                forall|j: int, a: u64|
                    #![trigger present(s[j]), nodes3(m, addr(s[j])).contains(a)]
                    i <= j < ENTRIES && 256 <= j && present(s[j]) && nodes3(m, addr(s[j])).contains(a)
                        ==> self@.dom().contains(a) && self@[a] == m[a],
            decreases ENTRIES - i,
        {
            let ghost g = self@;
            let ghost pg = *pmm;
            proof {
                self.lemma_wf();
                if i >= 256 {
                    lemma_cnt4(m, s4, i as int + 1, ENTRIES as int);
                }
            }
            let e = self.entry(s4, i);
            assert(e == s[i as int]);
            if e & PTE_P == 0 {
                proof {
                    assert(linked_from(s, 256)[i as int] == s[i as int]);
                    assert(done4_at(m, self@, s4, d4, i as int));
                }
            } else if i < 256 {
                self.set_entry(d4, i, e);
                proof {
                    let f = self@;
                    assert(f.dom() =~= g.dom());
                    assert(linked_from(s, 256)[i as int] == s[i as int]);
                    assert(done4_at(m, f, s4, d4, i as int));
                    assert forall|j: int| 0 <= j < i implies #[trigger] done4_at(m, f, s4, d4, j) by {
                        assert(done4_at(m, g, s4, d4, j));
                        assert(f[d4][j] == g[d4][j]);
                        if j >= 256 && present(s[j]) {
                            let cj = addr(s[j]);
                            let nj = addr(g[d4][j]);
                            assert(keeps3(m, g, f, cj)) by {
                                assert forall|a: u64|
                                    #![trigger f[a]]
                                    #![trigger f.dom().contains(a)]
                                    g.dom().contains(a) && (nodes3(m, cj).contains(a) || !m.dom().contains(a)) implies f.dom().contains(
                                    a,
                                ) && f[a] == g[a] by {
                                    if nodes3(m, cj).contains(a) {
                                        assert(nodes4(m, s4).contains(a)) by {
                                            assert(256 <= j && present(m[s4][j]) && nodes3(m, addr(m[s4][j])).contains(a));
                                        }
                                    }
                                }
                            }
                            lemma_done3_stable(m, g, f, cj, nj);
                        }
                    }
                }
            } else {
                let p3 = e & PTE_ADDR;
                let ghost c = addr(s[i as int]);
                proof {
                    lemma_cowed(e);
                    assert(present(s[i as int]));
                    assert(tree3(m, c, base) && !nodes3(m, c).contains(s4));
                    lemma_nodes3_dom(m, c, base);
                    lemma_cnt3(m, c, 0, ENTRIES as int);
                    assert forall|a: u64| #[trigger] nodes3(m, c).contains(a) implies nodes4(m, s4).contains(a) by {
                        assert(256 <= i as int && present(m[s4][i as int]) && nodes3(m, addr(m[s4][i as int])).contains(a));
                    }
                }
                let n3 = self.zpg(pmm);
                let ghost pz = *pmm;
                proof {
                    pg.lemma_free_set_finite();
                    pg.lemma_free_frame(pg.frame_of(n3 as int));
                    lemma_pool_addr(pg, pg.frame_of(n3 as int));
                    lemma_entry_bits(0, 6, n3);
                    lemma_link(n3);
                    lemma_link(p3);
                }
                self.set_entry(d4, i, pte_make(n3, PTE_WU));
                self.set_entry(s4, i, pte_make(p3, PTE_WU));
                let ghost g2 = self@;
                proof {
                    assert(nodes3(m, c).contains(c));
                    assert forall|a: u64| #[trigger] nodes3(m, c).contains(a) implies g2.dom().contains(a) && g2[a]
                        == m[a] by {
                        assert(256 <= i && present(s[i as int]) && nodes3(m, addr(s[i as int])).contains(a));
                        assert(a != s4 && a != d4 && a != n3);
                    }
                    lemma_tree3_same(m, g2, c, base);
                    assert(!nodes3(g2, c).contains(n3));
                    assert(g2[n3] == zeros());
                }
                self.clone_l3(pmm, p3, n3);
                proof {
                    let t = pg.frame_of(n3 as int);
                    assert(p3 == c);
                    assert forall|x: int|
                        0 <= x < MAX_FRAMES && (pmm.free_set().contains(x) || !p0.free_set().contains(x)) implies #[trigger] pmm.refcount(x)
                        == sat_add(p0.refcount(x), own4(m, s4, base, i + 1, x)) by {
                        assert(x != t);
                        assert(pz.refcount(x) == pg.refcount(x));
                        assert(pg.free_set().contains(x) || !p0.free_set().contains(x));
                        lemma_own3_same(m, g2, c, base, ENTRIES as int, x);
                        lemma_sat_add(p0.refcount(x), own4(m, s4, base, i as int, x), own3(m, c, base, ENTRIES as int, x));
                    }
                    let f = self@;
                    assert forall|a: u64| #[trigger] g.dom().contains(a) implies f.dom().contains(a) by {
                        assert(g2.dom().contains(a));
                    }
                    assert(f[s4] == g2[s4]);
                    assert(f[d4] == g2[d4]);
                    assert(linked_from(s, 256)[i as int] == link(p3));
                    assert(done3(g2, f, c, n3));
                    assert(done3(m, f, c, n3)) by {
                        assert(nodes3(m, c).contains(c));
                        assert(g2[c] == m[c]);
                        assert forall|k: int| 0 <= k < ENTRIES implies #[trigger] done3_at(m, f, c, n3, k) by {
                            assert(done3_at(g2, f, c, n3, k));
                            if present(m[c][k]) {
                                let c2 = addr(m[c][k]);
                                assert(nodes2(m, c2).contains(c2));
                                assert(nodes3(m, c).contains(c2)) by {
                                    assert(present(m[c][k]) && nodes2(m, addr(m[c][k])).contains(c2));
                                }
                                assert(g2[c2] == m[c2]);
                                assert forall|q: int| 0 <= q < ENTRIES implies #[trigger] done2_at(m, f, c2, addr(f[n3][k]), q) by {
                                    assert(done2_at(g2, f, c2, addr(f[n3][k]), q));
                                    if child2(m[c2], q) {
                                        let c1 = addr(m[c2][q]);
                                        assert(nodes2(m, c2).contains(c1));
                                        assert(nodes3(m, c).contains(c1)) by {
                                            assert(present(m[c][k]) && nodes2(m, addr(m[c][k])).contains(c1));
                                        }
                                        assert(g2[c1] == m[c1]);
                                    }
                                }
                            }
                        }
                        assert(f[c] == linked_from(m[c], 0));
                    }
                    assert(done4_at(m, f, s4, d4, i as int));
                    assert forall|a: u64|
                        #![trigger f[a]]
                        g.dom().contains(a) && a != s4 && a != d4 && !nodes3(m, c).contains(a) implies f.dom().contains(a)
                            && f[a] == g[a] by {
                        assert(a != n3);
                        assert(g2.dom().contains(a));
                        assert(g2[a] == g[a]);
                        assert(!nodes3(g2, c).contains(a));
                        assert(p3 == c);
                        assert(f[a] == g2[a]);
                    }
                    assert forall|j: int| 0 <= j < i implies #[trigger] done4_at(m, f, s4, d4, j) by {
                        assert(done4_at(m, g, s4, d4, j));
                        assert(f[d4][j] == g[d4][j]);
                        if j >= 256 && present(s[j]) {
                            let cj = addr(s[j]);
                            let nj = addr(g[d4][j]);
                            assert(tree3(m, cj, base) && !nodes3(m, cj).contains(s4));
                            assert(nodes3(m, cj).disjoint(nodes3(m, c)));
                            assert(keeps3(m, g, f, cj)) by {
                                assert forall|a: u64|
                                    #![trigger f[a]]
                                    #![trigger f.dom().contains(a)]
                                    g.dom().contains(a) && (nodes3(m, cj).contains(a) || !m.dom().contains(a)) implies f.dom().contains(
                                    a,
                                ) && f[a] == g[a] by {
                                    if nodes3(m, cj).contains(a) {
                                        assert(nodes4(m, s4).contains(a)) by {
                                            assert(256 <= j && present(m[s4][j]) && nodes3(m, addr(m[s4][j])).contains(a));
                                        }
                                        assert(a != d4);
                                        assert(a != s4);
                                        assert(!nodes3(m, c).contains(a));
                                    } else {
                                        assert(a != s4 && a != d4);
                                        assert(!nodes3(m, c).contains(a));
                                    }
                                    assert(g2.dom().contains(a));
                                }
                            }
                            lemma_done3_stable(m, g, f, cj, nj);
                        }
                    }
                    assert forall|j: int, a: u64|
                        #![trigger present(s[j]), nodes3(m, addr(s[j])).contains(a)]
                        i + 1 <= j < ENTRIES && 256 <= j && present(s[j]) && nodes3(m, addr(s[j])).contains(a) implies f.dom().contains(
                        a,
                    ) && f[a] == m[a] by {
                        assert(g.dom().contains(a) && g[a] == m[a]);
                        assert(tree3(m, addr(s[j]), base) && !nodes3(m, addr(s[j])).contains(s4));
                        lemma_nodes3_dom(m, addr(s[j]), base);
                        assert(nodes3(m, c).disjoint(nodes3(m, addr(s[j]))));
                        assert(g2.dom().contains(a));
                        assert(a != d4 && a != s4);
                        assert(f[a] == g[a]);
                    }
                }
            }
            i = i + 1;
            proof {
                assert(self@[s4] =~= Seq::new(ENTRIES as nat, |j: int| if j < i { linked_from(s, 256)[j] } else { s[j] }));
            }
        }
        proof {
            assert(self@[s4] =~= linked_from(s, 256));
        }
    }

    /// Copy-on-write clone of the address space under `src_p4`, for fork;
    /// returns the child's new top-level table. The lower half of the
    /// top-level table is shared as it is; the upper half is copied table
    /// by table (`done4`): every user page becomes read-only and marked
    /// copy-on-write in both trees and gains an owner (each frame of a huge
    /// page too): each frame's count rises by the number of such mappings
    /// of it (`clone_owners`), held at the maximum; only the frames taken
    /// for the new tables are left out of that. Both trees then lead every
    /// upper-half address where the parent's did, and the child every
    /// lower-half address where the parent does.
    pub fn clone_user_p4(&mut self, pmm: &mut Pmm, src_p4: PhysAddr) -> (dst: PhysAddr)
        requires
            old(self).wf(),
            old(pmm).wf(),
            tables_held(old(self)@, *old(pmm)),
            aligned_pool(*old(pmm)),
            tree4(old(self)@, src_p4, old(pmm).base()),
            old(pmm).free_set().len() >= clone_need(old(self)@, src_p4),
        ensures
            final(self).wf(),
            final(pmm).wf(),
            final(pmm).base() == old(pmm).base(),
            final(pmm).size() == old(pmm).size(),
            tables_held(final(self)@, *final(pmm)),
            final(pmm).free_set().subset_of(old(pmm).free_set()),
            final(pmm).free_set().len() == old(pmm).free_set().len() - clone_need(old(self)@, src_p4),
            !old(self)@.dom().contains(dst),
            forall|a: u64| #[trigger] old(self)@.dom().contains(a) ==> final(self)@.dom().contains(a),
            forall|a: u64|
                #![trigger final(self)@[a]]
                old(self)@.dom().contains(a) && !nodes4(old(self)@, src_p4).contains(a) ==> final(self)@[a] == old(
                    self,
                )@[a],
            done4(old(self)@, final(self)@, src_p4, dst),
            forall|k: int|
                0 <= k < MAX_FRAMES && (final(pmm).free_set().contains(k) || !old(pmm).free_set().contains(k))
                    ==> #[trigger] final(pmm).refcount(k) == sat_add(
                    old(pmm).refcount(k),
                    clone_owners(old(self)@, src_p4, old(pmm).base(), k),
                ),
            src_p4 != 0 && dst != 0 ==> forall|v: u64|
                #![trigger translate(final(self)@, dst, v)]
                idx4(v) >= 256 ==> translate(final(self)@, dst, v) == translate(old(self)@, src_p4, v) && translate(
                    final(self)@,
                    src_p4,
                    v,
                ) == translate(old(self)@, src_p4, v),
            src_p4 != 0 && dst != 0 ==> forall|v: u64|
                #![trigger translate(final(self)@, dst, v)]
                idx4(v) < 256 ==> translate(final(self)@, dst, v) == translate(final(self)@, src_p4, v),
    {
        let ghost m = self@;
        let ghost p0 = *pmm;
        let ghost base = p0.base();
        proof {
            self.lemma_wf();
            lemma_cnt4(m, src_p4, 256, ENTRIES as int);
            lemma_nodes4_dom(m, src_p4, base);
            p0.lemma_free_set_finite();
        }
        let dst = self.zpg(pmm);
        let ghost m1 = self@;
        let ghost pz = *pmm;
        proof {
            assert forall|a: u64| #[trigger] nodes4(m, src_p4).contains(a) implies m1.dom().contains(a) && m1[a] == m[a] by {
                assert(a != dst);
            }
            lemma_tree4_same(m, m1, src_p4, base);
            assert(!nodes4(m1, src_p4).contains(dst));
        }
        self.clone_top(pmm, src_p4, dst);
        proof {
            let t = p0.frame_of(dst as int);
            assert forall|x: int|
                0 <= x < MAX_FRAMES && (pmm.free_set().contains(x) || !p0.free_set().contains(x)) implies #[trigger] pmm.refcount(x)
                == sat_add(p0.refcount(x), clone_owners(m, src_p4, base, x)) by {
                assert(x != t);
                assert(pz.refcount(x) == p0.refcount(x));
                lemma_own4_same(m, m1, src_p4, base, ENTRIES as int, x);
            }
            let f = self@;
            assert(extends_on(m, m1, nodes4(m, src_p4)));
            lemma_done4_shrink(m, m1, f, src_p4, dst);
            assert forall|a: u64| #[trigger] m.dom().contains(a) implies f.dom().contains(a) by {
                assert(m1.dom().contains(a));
            }
            assert forall|a: u64|
                #![trigger f[a]]
                m.dom().contains(a) && !nodes4(m, src_p4).contains(a) implies f[a] == m[a] by {
                assert(m1.dom().contains(a) && a != dst && m1[a] == m[a]);
                assert(!nodes4(m1, src_p4).contains(a));
            }
            self.lemma_wf();
            if src_p4 != 0 && dst != 0 {
                assert forall|v: u64|
                    #![trigger translate(f, dst, v)]
                    idx4(v) >= 256 implies translate(f, dst, v) == translate(m, src_p4, v) && translate(f, src_p4, v)
                        == translate(m, src_p4, v) by {
                    law_clone_translates(m, f, src_p4, dst, base, v);
                }
                assert forall|v: u64|
                    #![trigger translate(f, dst, v)]
                    idx4(v) < 256 implies translate(f, dst, v) == translate(f, src_p4, v) by {
                    law_clone_translates(m, f, src_p4, dst, base, v);
                }
            }
        }
        dst
    }

    /// Each user page of the last-level table `p1` loses an owner.
    fn release_l1(&self, pmm: &mut Pmm, p1: PhysAddr)
        requires
            self.wf(),
            old(pmm).wf(),
            self@.dom().contains(p1),
            leaves_ok(self@[p1], old(pmm).base()),
        ensures
            final(pmm).wf(),
            final(pmm).base() == old(pmm).base(),
            final(pmm).size() == old(pmm).size(),
            old(pmm).free_set().subset_of(final(pmm).free_set()),
            exists|ps: Seq<Pmm>|
                #[trigger] released(self@[p1], ps) && ps[0] == *old(pmm) && ps.last() == *final(pmm),
    {
        proof {
            self.lemma_wf();
        }
        let ghost p0 = *pmm;
        let ghost s = self@[p1];
        let ghost mut ps: Seq<Pmm> = seq![p0];
        let mut i: usize = 0;
        while i < ENTRIES
            invariant
                self.wf(),
                self@.dom().contains(p1),
                s == self@[p1],
                s.len() == ENTRIES,
                leaves_ok(s, p0.base()),
                pmm.wf(),
                pmm.base() == p0.base(),
                pmm.size() == p0.size(),
                p0.free_set().subset_of(pmm.free_set()),
                i <= ENTRIES,
                ps.len() == i + 1,
                ps[0] == p0,
                ps.last() == *pmm,
                forall|j: int| 0 <= j < i ==> #[trigger] release_step(s, ps, j),
            decreases ENTRIES - i,
        {
            let e = self.entry(p1, i);
            let ghost before = *pmm;
            if e & PTE_P != 0 && e & PTE_U != 0 {
                proof {
                    assert(present(s[i as int]) && user(s[i as int]));
                }
                pmm.frame_dec(e & PTE_ADDR);
            }
            proof {
                let ps2 = ps.push(*pmm);
                assert(release_step(s, ps2, i as int));
                assert forall|j: int| 0 <= j < i + 1 implies #[trigger] release_step(s, ps2, j) by {
                    if j < i {
                        assert(release_step(s, ps, j));
                        assert(ps2[j] == ps[j] && ps2[j + 1] == ps[j + 1]);
                    }
                }
                ps = ps2;
            }
            i = i + 1;
        }
        proof {
            assert(released(s, ps));
        }
    }

    /// Give back the subtree under the middle-level table `p2`: each frame
    /// of a huge page and each user page loses an owner, and each
    /// last-level table is freed.
    fn release_l2(&mut self, pmm: &mut Pmm, p2: PhysAddr)
        requires
            old(self).wf(),
            old(pmm).wf(),
            tree2(old(self)@, p2, old(pmm).base()),
        ensures
            final(self).wf(),
            final(pmm).wf(),
            final(pmm).base() == old(pmm).base(),
            final(pmm).size() == old(pmm).size(),
            old(pmm).free_set().subset_of(final(pmm).free_set()),
            forall|a: u64|
                #[trigger] final(self)@.dom().contains(a) <==> old(self)@.dom().contains(a) && (a == p2 || !nodes2(
                    old(self)@,
                    p2,
                ).contains(a)),
            forall|a: u64| #[trigger] final(self)@.dom().contains(a) ==> final(self)@[a] == old(self)@[a],
            forall|a: u64|
                #[trigger] nodes2(old(self)@, p2).contains(a) && a != p2 && frees_frame(*old(pmm), a)
                    ==> final(pmm).free_set().contains(old(pmm).frame_of(a as int)),
    {
        let ghost m = self@;
        let ghost s = m[p2];
        let ghost p0 = *pmm;
        let ghost base = p0.base();
        proof {
            self.lemma_wf();
            lemma_nodes2_dom(m, p2, base);
        }
        let mut i: usize = 0;
        while i < ENTRIES
            invariant
                self.wf(),
                pmm.wf(),
                pmm.base() == p0.base(),
                pmm.size() == p0.size(),
                p0.free_set().subset_of(pmm.free_set()),
                m == old(self)@,
                p0 == *old(pmm),
                base == p0.base(),
                s == m[p2],
                tree2(m, p2, base),
                i <= ENTRIES,
                forall|a: u64|
                    #[trigger] self@.dom().contains(a) <==> m.dom().contains(a) && !(exists|j: int|
                        0 <= j < i && child2(s, j) && a == addr(s[j])),
                forall|a: u64| #[trigger] self@.dom().contains(a) ==> self@[a] == m[a],
                forall|j: int|
                    0 <= j < i && #[trigger] child2(s, j) && frees_frame(p0, addr(s[j])) ==> pmm.free_set().contains(
                        p0.frame_of(addr(s[j]) as int),
                    ),
            decreases ENTRIES - i,
        {
            let ghost g = self@;
            let ghost pg = *pmm;
            proof {
                self.lemma_wf();
                assert(nodes2(m, p2).contains(p2));
                assert(self@.dom().contains(p2)) by {
                    if exists|j: int| 0 <= j < i && child2(s, j) && p2 == addr(s[j]) {
                        let j = choose|j: int| 0 <= j < i && child2(s, j) && p2 == addr(s[j]);
                        assert(child2(m[p2], j));
                    }
                }
            }
            let e = self.entry(p2, i);
            assert(e == s[i as int]);
            if e & PTE_P == 0 {
            } else if e & PTE_PS != 0 {
                let phys = e & PTE_ADDR;
                proof {
                    lemma_cowed(e);
                }
                let mut k: usize = 0;
                while k < ENTRIES
                    invariant
                        pmm.wf(),
                        pmm.base() == pg.base(),
                        pmm.size() == pg.size(),
                        pg.free_set().subset_of(pmm.free_set()),
                        k <= ENTRIES,
                        phys <= PTE_ADDR,
                        pg.base() <= phys,
                    decreases ENTRIES - k,
                {
                    assert(k * PAGE_SIZE <= 511 * 4096) by (nonlinear_arith)
                        requires
                            k < 512,
                            PAGE_SIZE == 4096,
                    ;
                    pmm.frame_dec(phys + (k as u64) * (PAGE_SIZE as u64));
                    k = k + 1;
                }
            } else {
                let p1 = e & PTE_ADDR;
                proof {
                    assert(child2(s, i as int));
                    assert(m.dom().contains(p1) && p1 != p2 && leaves_ok(m[p1], base));
                    assert(self@.dom().contains(p1)) by {
                        if exists|j: int| 0 <= j < i && child2(s, j) && p1 == addr(s[j]) {
                            let j = choose|j: int| 0 <= j < i && child2(s, j) && p1 == addr(s[j]);
                            assert(child2(m[p2], j) && child2(m[p2], i as int));
                        }
                    }
                }
                self.release_l1(pmm, p1);
                let ghost pm1 = *pmm;
                pmm.mm_free_nolock(p1);
                self.drop_table(p1);
                proof {
                    assert(frees_frame(p0, p1) ==> pmm.free_set().contains(p0.frame_of(p1 as int)));
                }
            }
            proof {
                assert forall|a: u64|
                    #[trigger] self@.dom().contains(a) <==> m.dom().contains(a) && !(exists|j: int|
                        0 <= j < i + 1 && child2(s, j) && a == addr(s[j])) by {
                    if m.dom().contains(a) && !(exists|j: int| 0 <= j < i + 1 && child2(s, j) && a == addr(s[j])) {
                        assert(!(exists|j: int| 0 <= j < i && child2(s, j) && a == addr(s[j])));
                    }
                    if exists|j: int| 0 <= j < i && child2(s, j) && a == addr(s[j]) {
                        let j = choose|j: int| 0 <= j < i && child2(s, j) && a == addr(s[j]);
                        assert(0 <= j < i + 1 && child2(s, j) && a == addr(s[j]));
                    }
                }
            }
            i = i + 1;
        }
        proof {
            assert forall|a: u64|
                #[trigger] self@.dom().contains(a) <==> m.dom().contains(a) && (a == p2 || !nodes2(m, p2).contains(a)) by {
                if exists|j: int| 0 <= j < ENTRIES && child2(s, j) && a == addr(s[j]) {
                    let j = choose|j: int| 0 <= j < ENTRIES && child2(s, j) && a == addr(s[j]);
                    assert(child2(m[p2], j));
                    assert(nodes2(m, p2).contains(a));
                }
                if nodes2(m, p2).contains(a) && a != p2 {
                    let j = choose|j: int| 0 <= j < ENTRIES && child2(m[p2], j) && a == addr(m[p2][j]);
                    assert(child2(s, j));
                }
            }
            assert forall|a: u64|
                #[trigger] nodes2(m, p2).contains(a) && a != p2 && frees_frame(p0, a) implies pmm.free_set().contains(
                p0.frame_of(a as int),
            ) by {
                let j = choose|j: int| 0 <= j < ENTRIES && child2(m[p2], j) && a == addr(m[p2][j]);
                assert(child2(s, j));
            }
        }
    }

    /// Give back the subtree under the upper-level table `p3`: each
    /// middle-level table's subtree is given back and the table freed.
    fn release_l3(&mut self, pmm: &mut Pmm, p3: PhysAddr)
        requires
            old(self).wf(),
            old(pmm).wf(),
            tree3(old(self)@, p3, old(pmm).base()),
        ensures
            final(self).wf(),
            final(pmm).wf(),
            final(pmm).base() == old(pmm).base(),
            final(pmm).size() == old(pmm).size(),
            old(pmm).free_set().subset_of(final(pmm).free_set()),
            forall|a: u64|
                #[trigger] final(self)@.dom().contains(a) <==> old(self)@.dom().contains(a) && (a == p3 || !nodes3(
                    old(self)@,
                    p3,
                ).contains(a)),
            forall|a: u64| #[trigger] final(self)@.dom().contains(a) ==> final(self)@[a] == old(self)@[a],
            forall|a: u64|
                #[trigger] nodes3(old(self)@, p3).contains(a) && a != p3 && frees_frame(*old(pmm), a)
                    ==> final(pmm).free_set().contains(old(pmm).frame_of(a as int)),
    {
        let ghost m = self@;
        let ghost s = m[p3];
        let ghost p0 = *pmm;
        let ghost base = p0.base();
        proof {
            self.lemma_wf();
            lemma_nodes3_dom(m, p3, base);
        }
        let mut i: usize = 0;
        while i < ENTRIES
            invariant
                self.wf(),
                pmm.wf(),
                pmm.base() == p0.base(),
                pmm.size() == p0.size(),
                p0.free_set().subset_of(pmm.free_set()),
                m == old(self)@,
                p0 == *old(pmm),
                base == p0.base(),
                s == m[p3],
                tree3(m, p3, base),
                i <= ENTRIES,
                forall|a: u64|
                    #[trigger] self@.dom().contains(a) <==> m.dom().contains(a) && !(exists|j: int|
                        0 <= j < i && present(s[j]) && #[trigger] nodes2(m, addr(s[j])).contains(a)),
                forall|a: u64| #[trigger] self@.dom().contains(a) ==> self@[a] == m[a],
                forall|j: int, a: u64|
                    #![trigger present(s[j]), nodes2(m, addr(s[j])).contains(a)]
                    0 <= j < i && present(s[j]) && nodes2(m, addr(s[j])).contains(a) && frees_frame(p0, a)
                        ==> pmm.free_set().contains(p0.frame_of(a as int)),
            decreases ENTRIES - i,
        {
            let ghost g = self@;
            let ghost pg = *pmm;
            proof {
                self.lemma_wf();
                assert(self@.dom().contains(p3)) by {
                    if exists|j: int| 0 <= j < i && present(s[j]) && #[trigger] nodes2(m, addr(s[j])).contains(p3) {
                        let j = choose|j: int| 0 <= j < i && present(s[j]) && #[trigger] nodes2(m, addr(s[j])).contains(p3);
                        assert(present(m[p3][j]));
                    }
                }
            }
            let e = self.entry(p3, i);
            assert(e == s[i as int]);
            if e & PTE_P != 0 {
                let c2 = e & PTE_ADDR;
                proof {
                    assert(present(s[i as int]));
                    assert(tree2(m, c2, base));
                    lemma_nodes2_dom(m, c2, base);
                    assert(c2 == addr(s[i as int]));
                    assert forall|a: u64| #[trigger] nodes2(m, c2).contains(a) implies g.dom().contains(a) && g[a] == m[a] by {
                        assert(m.dom().contains(a));
                        if exists|j: int| 0 <= j < i && present(s[j]) && #[trigger] nodes2(m, addr(s[j])).contains(a) {
                            let j = choose|j: int| 0 <= j < i && present(s[j]) && #[trigger] nodes2(m, addr(s[j])).contains(a);
                            assert(present(m[p3][j]) && present(m[p3][i as int]));
                            assert(nodes2(m, addr(s[j])).disjoint(nodes2(m, addr(s[i as int]))));
                            assert(!nodes2(m, addr(s[i as int])).contains(a));
                        }
                        assert(g.dom().contains(a));
                        assert(g[a] == m[a]);
                    }
                    lemma_tree2_same(m, g, c2, base);
                }
                self.release_l2(pmm, c2);
                let ghost g1 = self@;
                let ghost pm1 = *pmm;
                proof {
                    assert(nodes2(m, c2).contains(c2));
                }
                pmm.mm_free_nolock(c2);
                self.drop_table(c2);
                proof {
                    let f = self@;
                    assert forall|a: u64|
                        #[trigger] f.dom().contains(a) <==> m.dom().contains(a) && !(exists|j: int|
                            0 <= j < i + 1 && present(s[j]) && #[trigger] nodes2(m, addr(s[j])).contains(a)) by {
                        if exists|j: int| 0 <= j < i + 1 && present(s[j]) && #[trigger] nodes2(m, addr(s[j])).contains(a) {
                            let j = choose|j: int| 0 <= j < i + 1 && present(s[j]) && #[trigger] nodes2(m, addr(s[j])).contains(a);
                            if j < i {
                                assert(!g.dom().contains(a));
                            } else {
                                assert(nodes2(g, c2).contains(a));
                            }
                        } else {
                            assert(!nodes2(m, c2).contains(a));
                            assert(!(exists|j: int| 0 <= j < i && present(s[j]) && #[trigger] nodes2(m, addr(s[j])).contains(a)));
                        }
                    }
                    assert forall|j: int, a: u64|
                        #![trigger present(s[j]), nodes2(m, addr(s[j])).contains(a)]
                        0 <= j < i + 1 && present(s[j]) && nodes2(m, addr(s[j])).contains(a) && frees_frame(p0, a) implies pmm.free_set().contains(
                        p0.frame_of(a as int),
                    ) by {
                        if j == i {
                            if a != c2 {
                                assert(nodes2(g, c2).contains(a));
                                assert(pm1.free_set().contains(pg.frame_of(a as int)));
                            }
                        }
                    }
                }
            } else {
                proof {
                    assert forall|a: u64|
                        #[trigger] self@.dom().contains(a) <==> m.dom().contains(a) && !(exists|j: int|
                            0 <= j < i + 1 && present(s[j]) && #[trigger] nodes2(m, addr(s[j])).contains(a)) by {
                        if exists|j: int| 0 <= j < i + 1 && present(s[j]) && #[trigger] nodes2(m, addr(s[j])).contains(a) {
                            let j = choose|j: int| 0 <= j < i + 1 && present(s[j]) && #[trigger] nodes2(m, addr(s[j])).contains(a);
                            assert(j < i);
                        }
                    }
                }
            }
            i = i + 1;
        }
        proof {
            assert forall|a: u64|
                #[trigger] self@.dom().contains(a) <==> m.dom().contains(a) && (a == p3 || !nodes3(m, p3).contains(a)) by {
                if exists|j: int| 0 <= j < ENTRIES && present(s[j]) && #[trigger] nodes2(m, addr(s[j])).contains(a) {
                    let j = choose|j: int| 0 <= j < ENTRIES && present(s[j]) && #[trigger] nodes2(m, addr(s[j])).contains(a);
                    assert(present(m[p3][j]) && nodes2(m, addr(m[p3][j])).contains(a));
                    assert(nodes3(m, p3).contains(a));
                    assert(a != p3);
                }
                if nodes3(m, p3).contains(a) && a != p3 {
                    let j = choose|j: int| 0 <= j < ENTRIES && present(m[p3][j]) && #[trigger] nodes2(m, addr(m[p3][j])).contains(a);
                    assert(present(s[j]) && nodes2(m, addr(s[j])).contains(a));
                }
            }
            assert forall|a: u64|
                #[trigger] nodes3(m, p3).contains(a) && a != p3 && frees_frame(p0, a) implies pmm.free_set().contains(
                p0.frame_of(a as int),
            ) by {
                let j = choose|j: int| 0 <= j < ENTRIES && present(m[p3][j]) && #[trigger] nodes2(m, addr(m[p3][j])).contains(a);
                assert(present(s[j]) && nodes2(m, addr(s[j])).contains(a));
            }
        }
    }

    /// Free the user half of the address space under `p4` and `p4` itself:
    /// each user page and each frame of a huge page loses an owner, and
    /// every table of the user half is freed. Nothing happens for a null
    /// `p4` or the kernel's own top-level table `k_p4`; the lower half of
    /// the top-level table is left alone.
    pub fn free_user_p4(&mut self, pmm: &mut Pmm, p4: PhysAddr, k_p4: PhysAddr)
        requires
            old(self).wf(),
            old(pmm).wf(),
            p4 != 0 && p4 != k_p4 ==> tree4(old(self)@, p4, old(pmm).base()),
        ensures
            final(self).wf(),
            final(pmm).wf(),
            p4 == 0 || p4 == k_p4 ==> final(self)@ == old(self)@ && *final(pmm) == *old(pmm),
            final(pmm).base() == old(pmm).base(),
            final(pmm).size() == old(pmm).size(),
            old(pmm).free_set().subset_of(final(pmm).free_set()),
            p4 != 0 && p4 != k_p4 ==> forall|a: u64|
                #[trigger] final(self)@.dom().contains(a) <==> old(self)@.dom().contains(a) && !nodes4(
                    old(self)@,
                    p4,
                ).contains(a),
            forall|a: u64| #[trigger] final(self)@.dom().contains(a) ==> final(self)@[a] == old(self)@[a],
            p4 != 0 && p4 != k_p4 ==> forall|a: u64|
                #[trigger] nodes4(old(self)@, p4).contains(a) && frees_frame(*old(pmm), a)
                    ==> final(pmm).free_set().contains(old(pmm).frame_of(a as int)),
    {
        if p4 == 0 || p4 == k_p4 {
            return;
        }
        let ghost m = self@;
        let ghost s = m[p4];
        let ghost p0 = *pmm;
        let ghost base = p0.base();
        proof {
            self.lemma_wf();
            lemma_nodes4_dom(m, p4, base);
            assert(nodes4(m, p4).contains(p4));
        }
        let mut i: usize = 256;
        while i < ENTRIES
            invariant
                self.wf(),
                pmm.wf(),
                pmm.base() == p0.base(),
                pmm.size() == p0.size(),
                p0.free_set().subset_of(pmm.free_set()),
                m == old(self)@,
                p0 == *old(pmm),
                base == p0.base(),
                s == m[p4],
                tree4(m, p4, base),
                256 <= i <= ENTRIES,
                forall|a: u64|
                    #[trigger] self@.dom().contains(a) <==> m.dom().contains(a) && !(exists|j: int|
                        256 <= j < i && present(s[j]) && #[trigger] nodes3(m, addr(s[j])).contains(a)),
                forall|a: u64| #[trigger] self@.dom().contains(a) ==> self@[a] == m[a],
                forall|j: int, a: u64|
                    #![trigger present(s[j]), nodes3(m, addr(s[j])).contains(a)]
                    256 <= j < i && present(s[j]) && nodes3(m, addr(s[j])).contains(a) && frees_frame(p0, a)
                        ==> pmm.free_set().contains(p0.frame_of(a as int)),
            decreases ENTRIES - i,
        {
            let ghost g = self@;
            let ghost pg = *pmm;
            proof {
                self.lemma_wf();
                assert(self@.dom().contains(p4)) by {
                    if exists|j: int| 256 <= j < i && present(s[j]) && #[trigger] nodes3(m, addr(s[j])).contains(p4) {
                        let j = choose|j: int| 256 <= j < i && present(s[j]) && #[trigger] nodes3(m, addr(s[j])).contains(p4);
                        assert(present(m[p4][j]));
                    }
                }
            }
            let e = self.entry(p4, i);
            assert(e == s[i as int]);
            if e & PTE_P != 0 {
                let c3 = e & PTE_ADDR;
                proof {
                    assert(present(s[i as int]));
                    assert(tree3(m, c3, base));
                    lemma_nodes3_dom(m, c3, base);
                    assert(c3 == addr(s[i as int]));
                    assert forall|a: u64| #[trigger] nodes3(m, c3).contains(a) implies g.dom().contains(a) && g[a] == m[a] by {
                        assert(m.dom().contains(a));
                        if exists|j: int| 256 <= j < i && present(s[j]) && #[trigger] nodes3(m, addr(s[j])).contains(a) {
                            let j = choose|j: int| 256 <= j < i && present(s[j]) && #[trigger] nodes3(m, addr(s[j])).contains(a);
                            assert(present(m[p4][j]) && present(m[p4][i as int]));
                            assert(nodes3(m, addr(s[j])).disjoint(nodes3(m, addr(s[i as int]))));
                            assert(!nodes3(m, addr(s[i as int])).contains(a));
                        }
                        assert(g.dom().contains(a));
                        assert(g[a] == m[a]);
                    }
                    lemma_tree3_same(m, g, c3, base);
                }
                self.release_l3(pmm, c3);
                let ghost pm1 = *pmm;
                proof {
                    assert(nodes3(m, c3).contains(c3));
                }
                pmm.mm_free_nolock(c3);
                self.drop_table(c3);
                proof {
                    let f = self@;
                    assert forall|a: u64|
                        #[trigger] f.dom().contains(a) <==> m.dom().contains(a) && !(exists|j: int|
                            256 <= j < i + 1 && present(s[j]) && #[trigger] nodes3(m, addr(s[j])).contains(a)) by {
                        if exists|j: int| 256 <= j < i + 1 && present(s[j]) && #[trigger] nodes3(m, addr(s[j])).contains(a) {
                            let j = choose|j: int| 256 <= j < i + 1 && present(s[j]) && #[trigger] nodes3(m, addr(s[j])).contains(a);
                            if j < i {
                                assert(!g.dom().contains(a));
                            } else {
                                assert(nodes3(g, c3).contains(a));
                            }
                        } else {
                            assert(!nodes3(m, c3).contains(a));
                            assert(!(exists|j: int| 256 <= j < i && present(s[j]) && #[trigger] nodes3(m, addr(s[j])).contains(a)));
                        }
                    }
                    assert forall|j: int, a: u64|
                        #![trigger present(s[j]), nodes3(m, addr(s[j])).contains(a)]
                        256 <= j < i + 1 && present(s[j]) && nodes3(m, addr(s[j])).contains(a) && frees_frame(p0, a) implies pmm.free_set().contains(
                        p0.frame_of(a as int),
                    ) by {
                        if j == i {
                            if a != c3 {
                                assert(nodes3(g, c3).contains(a));
                                assert(pm1.free_set().contains(pg.frame_of(a as int)));
                            }
                        }
                    }
                }
            } else {
                proof {
                    assert forall|a: u64|
                        #[trigger] self@.dom().contains(a) <==> m.dom().contains(a) && !(exists|j: int|
                            256 <= j < i + 1 && present(s[j]) && #[trigger] nodes3(m, addr(s[j])).contains(a)) by {
                        if exists|j: int| 256 <= j < i + 1 && present(s[j]) && #[trigger] nodes3(m, addr(s[j])).contains(a) {
                            let j = choose|j: int| 256 <= j < i + 1 && present(s[j]) && #[trigger] nodes3(m, addr(s[j])).contains(a);
                            assert(j < i);
                        }
                    }
                }
            }
            i = i + 1;
        }
        proof {
            assert(self@.dom().contains(p4)) by {
                if exists|j: int| 256 <= j < ENTRIES && present(s[j]) && #[trigger] nodes3(m, addr(s[j])).contains(p4) {
                    let j = choose|j: int| 256 <= j < ENTRIES && present(s[j]) && #[trigger] nodes3(m, addr(s[j])).contains(p4);
                    assert(present(m[p4][j]));
                }
            }
        }
        let ghost g = self@;
        let ghost pg = *pmm;
        pmm.mm_free_nolock(p4);
        self.drop_table(p4);
        proof {
            let f = self@;
            assert forall|a: u64|
                #[trigger] f.dom().contains(a) <==> m.dom().contains(a) && !nodes4(m, p4).contains(a) by {
                if exists|j: int| 256 <= j < ENTRIES && present(s[j]) && #[trigger] nodes3(m, addr(s[j])).contains(a) {
                    let j = choose|j: int| 256 <= j < ENTRIES && present(s[j]) && #[trigger] nodes3(m, addr(s[j])).contains(a);
                    assert(256 <= j && present(m[p4][j]) && nodes3(m, addr(m[p4][j])).contains(a));
                    assert(nodes4(m, p4).contains(a));
                }
                if nodes4(m, p4).contains(a) && a != p4 {
                    let j = choose|j: int| 256 <= j < ENTRIES && present(m[p4][j]) && #[trigger] nodes3(m, addr(m[p4][j])).contains(a);
                    assert(present(s[j]) && nodes3(m, addr(s[j])).contains(a));
                }
            }
            assert forall|a: u64| #[trigger] f.dom().contains(a) implies f[a] == m[a] by {
                assert(g.dom().contains(a));
            }
            assert forall|a: u64|
                #[trigger] nodes4(m, p4).contains(a) && frees_frame(p0, a) implies pmm.free_set().contains(
                p0.frame_of(a as int),
            ) by {
                if a != p4 {
                    let j = choose|j: int| 256 <= j < ENTRIES && present(m[p4][j]) && #[trigger] nodes3(m, addr(m[p4][j])).contains(a);
                    assert(present(s[j]) && nodes3(m, addr(s[j])).contains(a));
                    assert(pg.free_set().contains(p0.frame_of(a as int)));
                }
            }
        }
    }

    /// A new top-level table whose entries from `from` on are those of the
    /// kernel's table `k_p4` (zero where it holds no table), the others zero.
    fn p4_from_kernel(&mut self, pmm: &mut Pmm, k_p4: PhysAddr, from: usize) -> (r: PhysAddr)
        requires
            old(self).wf(),
            old(pmm).wf(),
            tables_held(old(self)@, *old(pmm)),
            old(pmm).free_set().len() > 0,
            from <= ENTRIES,
        ensures
            final(self).wf(),
            final(pmm).wf(),
            final(pmm).base() == old(pmm).base(),
            final(pmm).size() == old(pmm).size(),
            tables_held(final(self)@, *final(pmm)),
            !old(self)@.dom().contains(r),
            final(pmm).free_set() == old(pmm).free_set().remove(old(pmm).frame_of(r as int)),
            final(self)@ == old(self)@.insert(
                r,
                Seq::new(ENTRIES as nat, |j: int| if j >= from { ent(old(self)@, k_p4, j) } else { 0u64 }),
            ),
    {
        let ghost m = self@;
        let r = self.zpg(pmm);
        let mut i: usize = from;
        proof {
            assert(Seq::new(ENTRIES as nat, |j: int| if from <= j < i { ent(m, k_p4, j) } else { 0u64 }) =~= zeros());
        }
        while i < ENTRIES
            invariant
                self.wf(),
                from <= i <= ENTRIES,
                !m.dom().contains(r),
                self@ == m.insert(r, Seq::new(ENTRIES as nat, |j: int| if from <= j < i { ent(m, k_p4, j) } else { 0u64 })),
            decreases ENTRIES - i,
        {
            let e = self.entry(k_p4, i);
            assert(e == ent(m, k_p4, i as int));
            self.set_entry(r, i, e);
            i = i + 1;
            proof {
                assert(self@[r] =~= Seq::new(ENTRIES as nat, |j: int| if from <= j < i { ent(m, k_p4, j) } else { 0u64 }));
                assert(self@ =~= m.insert(
                    r,
                    Seq::new(ENTRIES as nat, |j: int| if from <= j < i { ent(m, k_p4, j) } else { 0u64 }),
                ));
            }
        }
        proof {
            assert(Seq::new(ENTRIES as nat, |j: int| if from <= j < ENTRIES { ent(m, k_p4, j) } else { 0u64 })
                =~= Seq::new(ENTRIES as nat, |j: int| if j >= from { ent(m, k_p4, j) } else { 0u64 }));
        }
        r
    }

    /// A new top-level table for a user process: a copy of the kernel's
    /// table `k_p4`, so that it inherits all kernel mappings.
    pub fn new_user_p4(&mut self, pmm: &mut Pmm, k_p4: PhysAddr) -> (r: PhysAddr)
        requires
            old(self).wf(),
            old(pmm).wf(),
            tables_held(old(self)@, *old(pmm)),
            old(pmm).free_set().len() > 0,
        ensures
            final(self).wf(),
            final(pmm).wf(),
            final(pmm).base() == old(pmm).base(),
            final(pmm).size() == old(pmm).size(),
            tables_held(final(self)@, *final(pmm)),
            !old(self)@.dom().contains(r),
            final(pmm).free_set() == old(pmm).free_set().remove(old(pmm).frame_of(r as int)),
            final(self)@ == old(self)@.insert(r, Seq::new(ENTRIES as nat, |j: int| ent(old(self)@, k_p4, j))),
    {
        let r = self.p4_from_kernel(pmm, k_p4, 0);
        proof {
            assert(Seq::new(ENTRIES as nat, |j: int| if j >= 0 { ent(old(self)@, k_p4, j) } else { 0u64 })
                =~= Seq::new(ENTRIES as nat, |j: int| ent(old(self)@, k_p4, j)));
        }
        r
    }

    /// A new top-level table for a user thread of the boot kernel: the
    /// kernel's higher half (entries 256 to 511 of `k_p4`) and nothing else.
    pub fn create_user_p4(&mut self, pmm: &mut Pmm, k_p4: PhysAddr) -> (r: PhysAddr)
        requires
            old(self).wf(),
            old(pmm).wf(),
            tables_held(old(self)@, *old(pmm)),
            old(pmm).free_set().len() > 0,
        ensures
            final(self).wf(),
            final(pmm).wf(),
            final(pmm).base() == old(pmm).base(),
            final(pmm).size() == old(pmm).size(),
            tables_held(final(self)@, *final(pmm)),
            !old(self)@.dom().contains(r),
            final(pmm).free_set() == old(pmm).free_set().remove(old(pmm).frame_of(r as int)),
            final(self)@ == old(self)@.insert(
                r,
                Seq::new(ENTRIES as nat, |j: int| if j >= 256 { ent(old(self)@, k_p4, j) } else { 0u64 }),
            ),
    {
        self.p4_from_kernel(pmm, k_p4, 256)
    }
}

} // verus!
