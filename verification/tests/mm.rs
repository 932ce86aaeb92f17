use lib::mm::heap::KernelHeap;
use lib::mm::pmm::Pmm;
use lib::mm::slab::{class_for, round_up_pages, slab_pages, slab_size, Slab, MAX_LARGE};
use lib::mm::user::{make_swap_pte, swap_pte_slot, PTE_SWAP};
use lib::mm::vma::{AddressSpace, Vma, VmaType, USER_MMAP_BASE, VMA_DEMAND, VMA_R, VMA_USER, VMA_W, VMA_X};
use lib::mm::PAGE_SIZE;
use lib::vmm::tables::{CowFix, TableMem};
use lib::vmm::{pte_addr, pte_cow, pte_huge, pte_make, pte_present, pte_user, pte_writable, PTE_COW, PTE_NX, PTE_U, PTE_W};

const BASE: u64 = 0x10_0000;
const PG: u64 = PAGE_SIZE as u64;

fn pmm_with(frames: usize) -> Pmm {
    let mut p = Pmm::new();
    p.mm_init(BASE, frames * PAGE_SIZE);
    p
}

// ── Page-table entries ───────────────────────────────────────────────────────

#[test]
fn pte_make_roundtrip() {
    let e = pte_make(0x1234_5000, PTE_W | PTE_U);
    assert_eq!(e, 0x1234_5007);
    assert!(pte_present(e));
    assert!(pte_user(e));
    assert!(pte_writable(e));
    assert!(!pte_huge(e));
    assert!(!pte_cow(e));
    assert_eq!(pte_addr(e), 0x1234_5000);
    // Offset bits of the address are dropped.
    assert_eq!(pte_addr(pte_make(0x1234_5678, 0)), 0x1234_5000);
}

#[test]
fn kernel_pte_helpers_agree() {
    let e = lib::mm::pte_make(0xABC_D000, lib::mm::PTE_W);
    assert_eq!(e, 0xABC_D003);
    assert!(lib::mm::pte_present(e));
    assert!(!lib::mm::pte_user(e));
    assert_eq!(lib::mm::pte_addr(e), 0xABC_D000);
}

#[test]
fn swap_pte_roundtrip() {
    let e = make_swap_pte(42);
    assert!(!pte_present(e));
    assert_ne!(e & PTE_SWAP, 0);
    assert_eq!(swap_pte_slot(e), 42);
    assert_eq!(swap_pte_slot(make_swap_pte(0)), 0);
}

// ── Physical frames ──────────────────────────────────────────────────────────

#[test]
fn pmm_init_reserves_frame_zero() {
    let p = pmm_with(16);
    assert_eq!(p.mm_free_pages(), 15);
    assert_eq!(p.mm_total_kb(), 64);
    assert_eq!(p.mm_free_kb(), 60);
    assert_eq!(p.mm_used_kb(), 4);
    assert!(p.has_free_frame());
}

#[test]
fn pmm_alloc_takes_lowest_free_frame() {
    let mut p = pmm_with(16);
    let a = p.mm_alloc();
    assert_eq!(a, BASE + PG);
    let b = p.mm_alloc_nolock();
    assert_eq!(b, BASE + 2 * PG);
    assert_eq!(p.mm_free_pages(), 13);
    assert_eq!(p.frame_ref(a), 1);
}

#[test]
fn pmm_free_undoes_alloc() {
    let mut p = pmm_with(16);
    let a = p.mm_alloc();
    p.mm_free_nolock(a);
    assert_eq!(p.mm_free_pages(), 15);
    let a2 = p.mm_alloc();
    assert_eq!(a2, a);
}

#[test]
fn pmm_exhaustion() {
    let mut p = pmm_with(4);
    for _ in 0..3 {
        p.mm_alloc();
    }
    assert!(!p.has_free_frame());
    assert_eq!(p.mm_free_kb(), 0);
}

#[test]
fn pmm_refcount_inc_dec() {
    let mut p = pmm_with(16);
    let a = p.mm_alloc();
    p.frame_inc(a);
    assert_eq!(p.frame_ref(a), 2);
    assert!(p.frame_shared(a));
    assert!(!p.frame_dec(a));
    assert_eq!(p.frame_ref(a), 1);
    assert!(!p.frame_shared(a));
    let before = p.mm_free_pages();
    assert!(p.frame_dec(a));
    assert_eq!(p.mm_free_pages(), before + 1);
}

#[test]
fn pmm_cow_copy_takes_a_fresh_frame() {
    let mut p = pmm_with(16);
    let a = p.mm_alloc();
    p.frame_inc(a);
    let c = p.frame_cow_copy(a);
    assert_ne!(c, 0);
    assert_ne!(c, a);
    assert_eq!(p.frame_ref(a), 1);
    assert_eq!(p.frame_ref(c), 1);
    assert_eq!(p.frame_cow_inplace(a), a);
}

#[test]
fn pmm_huge_pages() {
    let mut p = Pmm::new();
    p.mm_init(0x20_0000, 0x80_0000);
    assert_eq!(p.mm_free_pages(), 2047);
    let h = p.mm_alloc_huge();
    assert_eq!(h, 0x40_0000);
    assert_eq!(p.mm_free_pages(), 2047 - 512);
    p.mm_free_huge(h);
    assert_eq!(p.mm_free_pages(), 2047);
}

#[test]
fn pmm_huge_page_needs_room() {
    let mut p = pmm_with(16);
    assert_eq!(p.mm_alloc_huge(), 0);
    assert_eq!(p.mm_free_pages(), 15);
}

// ── Slab ─────────────────────────────────────────────────────────────────────

#[test]
fn slab_classes() {
    assert_eq!(slab_size(0), 8);
    assert_eq!(slab_size(11), 16384);
    assert_eq!(slab_pages(0), 1);
    assert_eq!(slab_pages(6), 2);
    assert_eq!(slab_pages(9), 4);
    assert_eq!(slab_pages(11), 8);
    assert_eq!(class_for(1), Some(0));
    assert_eq!(class_for(8), Some(0));
    assert_eq!(class_for(9), Some(1));
    assert_eq!(class_for(MAX_LARGE), Some(11));
    assert_eq!(class_for(MAX_LARGE + 1), None);
    assert_eq!(round_up_pages(1), 1);
    assert_eq!(round_up_pages(4096), 1);
    assert_eq!(round_up_pages(4097), 2);
}

#[test]
fn kmalloc_hands_out_lowest_slot_first() {
    let mut p = pmm_with(64);
    let mut s = Slab::new();
    let a = s.kmalloc(&mut p, 8);
    assert_eq!(a, BASE + PG);
    let b = s.kmalloc(&mut p, 5);
    assert_eq!(b, BASE + PG + 8);
    let st = s.slab_stats(0).unwrap();
    assert_eq!(st.class_size, 8);
    assert_eq!(st.alloc_count, 2);
    assert_eq!(st.slab_count, 1);
    assert_eq!(st.live_objects, 2);
}

#[test]
fn kfree_undoes_kmalloc() {
    let mut p = pmm_with(64);
    let mut s = Slab::new();
    let a = s.kmalloc(&mut p, 100);
    s.kfree(&mut p, a, 100);
    let b = s.kmalloc(&mut p, 100);
    assert_eq!(a, b);
    let st = s.slab_stats(4).unwrap();
    assert_eq!(st.free_count, 1);
    assert_eq!(st.live_objects, 1);
}

#[test]
fn kmalloc_zero_and_stats_past_classes() {
    let mut p = pmm_with(64);
    let mut s = Slab::new();
    assert_eq!(s.kmalloc(&mut p, 0), 0);
    assert!(s.slab_stats(12).is_none());
}

#[test]
fn kmalloc_large_takes_frames() {
    let mut p = pmm_with(64);
    let mut s = Slab::new();
    let before = p.mm_free_pages();
    let a = s.kmalloc(&mut p, MAX_LARGE + 1);
    assert_eq!(a, BASE + PG);
    assert_eq!(p.mm_free_pages(), before - 5);
    s.kfree(&mut p, a, MAX_LARGE + 1);
    assert_eq!(p.mm_free_pages(), before);
}

#[test]
fn krealloc_same_class_keeps_pointer() {
    let mut p = pmm_with(64);
    let mut s = Slab::new();
    let a = s.kmalloc(&mut p, 20);
    assert_eq!(s.krealloc(&mut p, a, 20, 30), a);
    let b = s.krealloc(&mut p, a, 30, 100);
    assert_ne!(b, 0);
    assert_ne!(b, a);
}

// ── Virtual memory areas ─────────────────────────────────────────────────────

#[test]
fn vma_basics() {
    let v = Vma { base: 0x1000, size: 0x2000, flags: VMA_W | VMA_USER, typ: VmaType::Anonymous, mapped_pages: 0 };
    assert_eq!(v.end(), 0x3000);
    assert!(v.contains(0x1000));
    assert!(v.contains(0x2fff));
    assert!(!v.contains(0x3000));
    assert!(v.overlaps(0x2000, 0x2000));
    assert!(!v.overlaps(0x3000, 0x1000));
    assert_eq!(v.pte_flags(), PTE_W | PTE_U | PTE_NX);
    let x = Vma { flags: VMA_X, ..v };
    assert_eq!(x.pte_flags(), 0);
    assert!(Vma::empty().typ == VmaType::Unused);
}

#[test]
fn mmap_anon_places_after_random_offset() {
    let mut a = AddressSpace::new(0x1000);
    let r = a.mmap_anon(0, 0x1800, VMA_W, false, 1);
    assert_eq!(r, USER_MMAP_BASE + PG);
    let v = *a.find_vma(r + 0x1000).unwrap();
    assert_eq!(v.size, 0x2000);
    assert_eq!(v.flags, VMA_W | VMA_R | VMA_USER);
    assert!(v.typ == VmaType::Anonymous);
    assert_eq!(a.mmap_next, r + 0x3000);
}

#[test]
fn mmap_anon_zero_size_fails() {
    let mut a = AddressSpace::new(0x1000);
    assert_eq!(a.mmap_anon(0, 0, VMA_W, false, 1), 0);
    assert_eq!(a.vma_count, 0);
}

#[test]
fn demand_fault_flags_follow_the_area() {
    let mut a = AddressSpace::new(0x1000);
    let r = a.mmap_anon(0, 0x1000, VMA_W, true, 1);
    assert_ne!(r, 0);
    assert_eq!(a.demand_fault_flags(r), Some(PTE_W | PTE_U | PTE_NX));
    assert_eq!(a.demand_fault_flags(r + 0x1000), None);
    let v = *a.find_vma(r).unwrap();
    assert_ne!(v.flags & VMA_DEMAND, 0);
}

#[test]
fn munmap_and_remove() {
    let mut a = AddressSpace::new(0x1000);
    let r = a.mmap_anon(0, 0x2000, VMA_W, false, 1);
    assert!(a.munmap_target(r, 0x2000).is_some());
    assert!(a.munmap_target(r, 0x1000).is_none());
    assert!(a.remove_vma(r));
    assert!(a.find_vma(r).is_none());
    assert!(!a.remove_vma(r));
}

#[test]
fn add_vma_keeps_areas_sorted() {
    let mut a = AddressSpace::new(0x1000);
    let mk = |base: u64| Vma { base, size: 0x1000, flags: VMA_R, typ: VmaType::Data, mapped_pages: 0 };
    assert!(a.add_vma(mk(0x5000)));
    assert!(a.add_vma(mk(0x1000)));
    assert!(a.add_vma(mk(0x3000)));
    assert_eq!(a.vmas[0].base, 0x1000);
    assert_eq!(a.vmas[1].base, 0x3000);
    assert_eq!(a.vmas[2].base, 0x5000);
    assert!(a.has_overlap(0x3800, 0x100));
    assert!(!a.has_overlap(0x2000, 0x1000));
    assert_eq!(a.find_free_range(0x1000, 0x1000), Some(0x2000));
}

#[test]
fn sbrk_target_rounds_up() {
    let mut a = AddressSpace::new(0x1000);
    a.heap_start = 0x1000_0000;
    a.heap_end = 0x1000_0000;
    assert_eq!(a.sbrk_target(1), 0x1000_1000);
    assert_eq!(a.sbrk_target(0), 0x1000_0000);
    a.sbrk_commit(0x1000_0000, 0x1000_2000, true);
    assert_eq!(a.heap_end, 0x1000_2000);
    let v = *a.find_vma(0x1000_0000).unwrap();
    assert!(v.typ == VmaType::Heap);
    assert_eq!(v.size, 0x2000);
    assert_eq!(a.sbrk_target(-0x1000), 0x1000_1000);
}

#[test]
fn aslr_uses_hardware_value() {
    let mut a = AddressSpace::new(0x1000);
    assert_eq!(a.aslr_rand(7), 7);
    assert_eq!(a.aslr_offset(4, 0x13), 3 * PG);
}

// ── Page tables ──────────────────────────────────────────────────────────────

fn space() -> (Pmm, TableMem, u64) {
    let mut p = pmm_with(64);
    let mut t = TableMem::new();
    let p4 = p.mm_alloc();
    t.add_table(p4);
    (p, t, p4)
}

#[test]
fn vmap_then_translate() {
    let (mut p, mut t, p4) = space();
    let frame = p.mm_alloc();
    assert_eq!(t.vmap(&mut p, p4, 0x40_0000, frame, PTE_W | PTE_U), 0);
    assert_eq!(t.virt_to_phys(p4, 0x40_0123), Some(frame | 0x123));
    assert_eq!(t.virt_to_phys(p4, 0x40_1000), None);
    assert_eq!(t.virt_to_phys(0, 0x40_0000), None);
    // Three new tables were taken from the frame manager.
    assert_eq!(p.mm_free_pages(), 63 - 2 - 3);
}

#[test]
fn vmap_refuses_misaligned() {
    let (mut p, mut t, p4) = space();
    assert_eq!(t.vmap(&mut p, p4, 0x40_0010, 0x20_0000, PTE_W), -1);
    assert_eq!(t.vmap(&mut p, p4, 0x40_0000, 0x20_0010, PTE_W), -1);
    assert_eq!(t.vmap(&mut p, 0, 0x40_0000, 0x20_0000, PTE_W), -1);
    assert_eq!(t.virt_to_phys(p4, 0x40_0000), None);
}

#[test]
fn vmap_reuses_tables() {
    let (mut p, mut t, p4) = space();
    assert_eq!(t.vmap(&mut p, p4, 0x40_0000, 0x30_0000, PTE_W), 0);
    let free = p.mm_free_pages();
    assert_eq!(t.vmap(&mut p, p4, 0x40_1000, 0x30_1000, PTE_W), 0);
    assert_eq!(p.mm_free_pages(), free);
    assert_eq!(t.virt_to_phys(p4, 0x40_0000), Some(0x30_0000));
    assert_eq!(t.virt_to_phys(p4, 0x40_1fff), Some(0x30_1fff));
}

#[test]
fn valid_user_and_buffers() {
    let (mut p, mut t, p4) = space();
    assert_eq!(t.vmap(&mut p, p4, 0x40_0000, 0x30_0000, PTE_W | PTE_U), 0);
    assert_eq!(t.vmap(&mut p, p4, 0x40_2000, 0x30_2000, PTE_W), 0);
    assert!(t.valid_user(p4, 0x40_0000));
    assert!(!t.valid_user(p4, 0x40_1000));
    assert!(!t.valid_user(0, 0x40_0000));
    assert!(t.valid_buf(p4, 0x40_0ff0, 0x10));
    assert!(!t.valid_buf(p4, 0x40_0ff0, 0x11));
    assert!(t.valid_buf(p4, 0x1234, 0));
    // The page is mapped but only for the kernel: the intermediate tables
    // carry the user bit from the first mapping, the leaf does not.
    assert!(!t.valid_user(p4, 0x40_2000));
}

#[test]
fn cow_fault_sole_owner_becomes_writable() {
    let (mut p, mut t, p4) = space();
    let frame = p.mm_alloc();
    assert_eq!(t.vmap(&mut p, p4, 0x40_0000, frame, PTE_U | PTE_COW), 0);
    assert_eq!(t.handle_cow_fault(&mut p, p4, 0x40_0abc), CowFix::Writable);
    assert_eq!(t.virt_to_phys(p4, 0x40_0000), Some(frame));
    // The entry is no longer marked: a second fault is a real violation.
    assert_eq!(t.handle_cow_fault(&mut p, p4, 0x40_0abc), CowFix::Violation);
}

#[test]
fn cow_fault_shared_frame_gets_a_copy() {
    let (mut p, mut t, p4) = space();
    let frame = p.mm_alloc();
    p.frame_inc(frame);
    assert_eq!(t.vmap(&mut p, p4, 0x40_0000, frame, PTE_U | PTE_COW), 0);
    let fix = t.handle_cow_fault(&mut p, p4, 0x40_0000);
    assert!(fix.resolved());
    let now = t.virt_to_phys(p4, 0x40_0000).unwrap();
    assert_ne!(now, frame);
    assert_eq!(fix, CowFix::Copy { from: frame, to: now, len: 4096 });
    assert_eq!(p.frame_ref(frame), 1);
    assert_eq!(p.frame_ref(now), 1);
}

#[test]
fn cow_fault_on_unmapped_address() {
    let (mut p, mut t, p4) = space();
    assert!(!t.handle_cow_fault(&mut p, p4, 0x40_0000).resolved());
    let frame = p.mm_alloc();
    assert_eq!(t.vmap(&mut p, p4, 0x40_0000, frame, PTE_U | PTE_W), 0);
    assert_eq!(t.handle_cow_fault(&mut p, p4, 0x40_0000), CowFix::Violation);
}

#[test]
fn table_mem_entries() {
    let mut t = TableMem::new();
    assert!(!t.has_table(0x5000));
    assert_eq!(t.entry(0x5000, 3), 0);
    t.add_table(0x5000);
    assert!(t.has_table(0x5000));
    t.set_entry(0x5000, 3, 0x1234);
    assert_eq!(t.entry(0x5000, 3), 0x1234);
    assert_eq!(t.entry(0x5000, 4), 0);
    t.add_table(0x5000);
    assert_eq!(t.entry(0x5000, 3), 0);
}

#[test]
fn vunmap_undoes_vmap() {
    let (mut p, mut t, p4) = space();
    let frame = p.mm_alloc();
    assert_eq!(t.vmap(&mut p, p4, 0x40_0000, frame, PTE_W | PTE_U), 0);
    assert_eq!(p.mm_free_pages(), 58);
    t.vunmap(&mut p, p4, 0x40_0000);
    assert_eq!(t.virt_to_phys(p4, 0x40_0000), None);
    // The frame lost its only owner and the three emptied tables went back.
    assert_eq!(p.mm_free_pages(), 62);
    assert!(t.has_table(p4));
    assert_eq!(t.entry(p4, 0), 0);
}

#[test]
fn vunmap_keeps_tables_in_use() {
    let (mut p, mut t, p4) = space();
    assert_eq!(t.vmap(&mut p, p4, 0x40_0000, 0x30_0000, PTE_W), 0);
    assert_eq!(t.vmap(&mut p, p4, 0x40_1000, 0x30_1000, PTE_W), 0);
    let free = p.mm_free_pages();
    t.vunmap(&mut p, p4, 0x40_0000);
    assert_eq!(t.virt_to_phys(p4, 0x40_0000), None);
    assert_eq!(t.virt_to_phys(p4, 0x40_1000), Some(0x30_1000));
    assert_eq!(p.mm_free_pages(), free);
    // Unmapping what is not mapped changes nothing.
    t.vunmap(&mut p, p4, 0x80_0000);
    t.vunmap(&mut p, 0, 0x40_1000);
    assert_eq!(t.virt_to_phys(p4, 0x40_1000), Some(0x30_1000));
}

#[test]
fn write_entry_creates_a_table() {
    let mut t = TableMem::new();
    t.write_entry(0x7000, 5, 0x99);
    assert!(t.has_table(0x7000));
    assert_eq!(t.entry(0x7000, 5), 0x99);
    t.drop_table(0x7000);
    assert!(!t.has_table(0x7000));
    assert_eq!(t.entry(0x7000, 5), 0);
}

// ── Fork: copy-on-write clone and release of an address space ─────────────────

const UPPER: u64 = 0x0000_8000_0000_0000;

fn forked() -> (Pmm, TableMem, u64, u64, u64) {
    let (mut p, mut t, p4) = space();
    let frame = p.mm_alloc();
    assert_eq!(t.vmap(&mut p, p4, UPPER + 0x40_0000, frame, PTE_W | PTE_U), 0);
    // A lower-half entry, shared as it is.
    t.set_entry(p4, 3, 0x7000 | PTE_W | 1);
    let before = p.mm_free_pages();
    let child = t.clone_user_p4(&mut p, p4);
    // The child's top-level table and one table at each level below.
    assert_eq!(p.mm_free_pages(), before - 4);
    (p, t, p4, child, frame)
}

#[test]
fn clone_shares_pages_copy_on_write() {
    let (p, t, p4, child, frame) = forked();
    assert_ne!(child, p4);
    assert_eq!(t.virt_to_phys(child, UPPER + 0x40_0123), Some(frame | 0x123));
    assert_eq!(t.virt_to_phys(p4, UPPER + 0x40_0123), Some(frame | 0x123));
    assert_eq!(t.virt_to_phys(child, UPPER + 0x50_0000), None);
    assert_eq!(p.frame_ref(frame), 2);
    assert_eq!(t.entry(child, 3), t.entry(p4, 3));
    // Both leaves are read-only and marked copy-on-write.
    for root in [p4, child] {
        let l3 = t.entry(root, 256) & 0x000F_FFFF_FFFF_F000;
        let l2 = t.entry(l3, 0) & 0x000F_FFFF_FFFF_F000;
        let l1 = t.entry(l2, 2) & 0x000F_FFFF_FFFF_F000;
        let leaf = t.entry(l1, 0);
        assert!(pte_cow(leaf));
        assert!(!pte_writable(leaf));
        assert!(pte_user(leaf));
        assert_eq!(pte_addr(leaf), frame);
    }
    // The two trees have their own tables.
    assert_ne!(t.entry(child, 256) & 0x000F_FFFF_FFFF_F000, t.entry(p4, 256) & 0x000F_FFFF_FFFF_F000);
}

#[test]
fn free_user_p4_gives_back_the_tree() {
    let (mut p, mut t, p4, child, frame) = forked();
    let before = p.mm_free_pages();
    t.free_user_p4(&mut p, child, p4);
    assert!(!t.has_table(child));
    assert_eq!(p.frame_ref(frame), 1);
    // The child's four tables are free again; the parent still maps the page.
    assert_eq!(p.mm_free_pages(), before + 4);
    assert_eq!(t.virt_to_phys(p4, UPPER + 0x40_0000), Some(frame));
    // The kernel's own table and a null table are left alone.
    t.free_user_p4(&mut p, p4, p4);
    assert!(t.has_table(p4));
    t.free_user_p4(&mut p, 0, p4);
    assert_eq!(p.mm_free_pages(), before + 4);
}

#[test]
fn clone_adds_an_owner_per_mapping() {
    let (mut p, mut t, p4) = space();
    let frame = p.mm_alloc();
    assert_eq!(t.vmap(&mut p, p4, UPPER + 0x40_0000, frame, PTE_W | PTE_U), 0);
    assert_eq!(t.vmap(&mut p, p4, UPPER + 0x40_1000, frame, PTE_W | PTE_U), 0);
    // A kernel-only page is copied without a new owner.
    let kframe = p.mm_alloc();
    assert_eq!(t.vmap(&mut p, p4, UPPER + 0x40_2000, kframe, PTE_W), 0);
    let r0 = p.frame_ref(frame);
    let k0 = p.frame_ref(kframe);
    let _child = t.clone_user_p4(&mut p, p4);
    assert_eq!(p.frame_ref(frame), r0 + 2);
    assert_eq!(p.frame_ref(kframe), k0);
}

#[test]
fn kernel_heap_serves_the_larger_of_size_and_alignment() {
    let mut p = pmm_with(64);
    let mut s = Slab::new();
    let h = KernelHeap;
    // Three bytes aligned to 64 come from the 64-byte class.
    let a = h.alloc_block(&mut s, &mut p, 3, 64);
    assert_eq!(a, BASE + PG);
    let b = h.alloc_block(&mut s, &mut p, 64, 8);
    assert_eq!(b, BASE + PG + 64);
    h.dealloc(&mut s, &mut p, a, 3, 64);
    assert_eq!(h.alloc_block(&mut s, &mut p, 60, 4), a);
    // Growing within the class keeps the block.
    assert_eq!(h.realloc(&mut s, &mut p, b, 64, 8, 40), b);
    assert_eq!(h.alloc_block(&mut s, &mut p, 0, 0), 0);
}

#[test]
fn map_fresh_backs_each_page_with_a_new_frame() {
    let (mut p, mut t, p4) = space();
    let free0 = p.mm_free_pages();
    let frames = t.map_fresh(&mut p, p4, 0x40_0000, 3, PTE_W | PTE_U);
    assert_eq!(frames.len(), 3);
    for (k, f) in frames.iter().enumerate() {
        assert_eq!(t.virt_to_phys(p4, 0x40_0000 + k as u64 * PG), Some(*f));
    }
    assert_ne!(frames[0], frames[1]);
    // Three data frames and three new tables.
    assert_eq!(p.mm_free_pages(), free0 - 6);
}

#[test]
fn mmap_anon_backed_maps_eager_areas_at_once() {
    let (mut p, mut t, p4) = space();
    let mut a = AddressSpace::new(p4);
    let r = a.mmap_anon_backed(&mut t, &mut p, 0, 0x1800, VMA_W, false, 1);
    assert_eq!(r, USER_MMAP_BASE + PG);
    assert!(t.virt_to_phys(p4, r).is_some());
    assert!(t.virt_to_phys(p4, r + 0x1000).is_some());
    assert!(t.virt_to_phys(p4, r + 0x2000).is_none());
    let v = *a.find_vma(r).unwrap();
    assert_eq!(v.mapped_pages, 2);
    // A demand-paged area is only recorded.
    let free = p.mm_free_pages();
    let d = a.mmap_anon_backed(&mut t, &mut p, 0, 0x1000, VMA_W, true, 1);
    assert_ne!(d, 0);
    assert!(t.virt_to_phys(p4, d).is_none());
    assert_eq!(p.mm_free_pages(), free);
    assert_eq!(a.find_vma(d).unwrap().mapped_pages, 0);
}

#[test]
fn sbrk_grows_by_whole_pages_and_shrinks_back() {
    let (mut p, mut t, p4) = space();
    let mut a = AddressSpace::new(p4);
    a.heap_start = 0x1000_0000;
    a.heap_end = 0x1000_0000;
    let free0 = p.mm_free_pages();
    assert_eq!(a.sbrk(&mut t, &mut p, 0x1800), 0x1000_0000);
    assert_eq!(a.heap_end, 0x1000_2000);
    assert!(t.virt_to_phys(p4, 0x1000_0000).is_some());
    assert!(t.virt_to_phys(p4, 0x1000_1000).is_some());
    assert!(t.virt_to_phys(p4, 0x1000_2000).is_none());
    // Two heap frames and three tables on the way.
    assert_eq!(p.mm_free_pages(), free0 - 5);
    let v = *a.find_vma(0x1000_0000).unwrap();
    assert!(v.typ == VmaType::Heap);
    assert_eq!(v.size, 0x2000);
    assert_eq!(v.mapped_pages, 2);
    // A zero increment only reports the break.
    assert_eq!(a.sbrk(&mut t, &mut p, 0), 0x1000_2000);
    assert_eq!(a.heap_end, 0x1000_2000);
    // Shrinking unmaps the pages above the new break.
    assert_eq!(a.sbrk(&mut t, &mut p, -0x1000), 0x1000_2000);
    assert_eq!(a.heap_end, 0x1000_1000);
    assert!(t.virt_to_phys(p4, 0x1000_1000).is_none());
    assert!(t.virt_to_phys(p4, 0x1000_0000).is_some());
    let v = *a.find_vma(0x1000_0000).unwrap();
    assert_eq!(v.size, 0x1000);
    assert_eq!(v.mapped_pages, 1);
}

#[test]
fn sbrk_growth_stops_below_an_area_in_use() {
    let (mut p, mut t, p4) = space();
    let mut a = AddressSpace::new(p4);
    assert!(a.add_vma(Vma { base: 0x2000_3000, size: 0x1000, flags: VMA_R, typ: VmaType::Anonymous, mapped_pages: 0 }));
    a.heap_start = 0x2000_0000;
    a.heap_end = 0x2000_0000;
    assert_eq!(a.sbrk(&mut t, &mut p, 0x5000), 0x2000_0000);
    assert_eq!(a.heap_end, 0x2000_3000);
    assert!(t.virt_to_phys(p4, 0x2000_2000).is_some());
    assert!(t.virt_to_phys(p4, 0x2000_3000).is_none());
}

#[test]
fn handle_demand_fault_backs_the_faulting_page() {
    let (mut p, mut t, p4) = space();
    let mut a = AddressSpace::new(p4);
    let r = a.mmap_anon(0, 0x2000, VMA_W, true, 1);
    assert_ne!(r, 0);
    assert!(a.handle_demand_fault(&mut t, &mut p, r + 0x1234));
    assert!(t.virt_to_phys(p4, r + 0x1000).is_some());
    assert!(t.virt_to_phys(p4, r).is_none());
    assert_eq!(a.find_vma(r).unwrap().mapped_pages, 1);
    // Outside any area, or in an area that is not demand-paged, the fault is genuine.
    assert!(!a.handle_demand_fault(&mut t, &mut p, r + 0x3000));
    let e = a.mmap_anon(0, 0x1000, VMA_W, false, 1);
    assert!(!a.handle_demand_fault(&mut t, &mut p, e));
    assert!(t.virt_to_phys(p4, e).is_none());
}

#[test]
fn sbrk_reports_zero_when_memory_runs_out() {
    let mut p = pmm_with(2);
    let mut t = TableMem::new();
    let p4 = p.mm_alloc();
    t.add_table(p4);
    let mut a = AddressSpace::new(p4);
    a.heap_start = 0x1000_0000;
    a.heap_end = 0x1000_0000;
    let free = p.mm_free_pages();
    assert_eq!(a.sbrk(&mut t, &mut p, 0x1000), 0);
    assert_eq!(a.heap_end, 0x1000_0000);
    assert_eq!(p.mm_free_pages(), free);
    assert!(a.find_vma(0x1000_0000).is_none());
}

#[test]
fn backing_stops_where_frames_run_out_or_a_page_is_mapped() {
    // Three tables and one frame per page: five free frames back two pages.
    let mut p = pmm_with(7);
    let mut t = TableMem::new();
    let p4 = p.mm_alloc();
    t.add_table(p4);
    assert_eq!(p.mm_free_pages(), 5);
    let frames = t.map_fresh(&mut p, p4, 0x40_0000, 3, PTE_W | PTE_U);
    assert_eq!(frames.len(), 2);
    assert_eq!(p.mm_free_pages(), 0);
    // A page already mapped is not mapped again.
    let (mut q, mut u, q4) = space();
    let f = q.mm_alloc();
    assert_eq!(u.vmap(&mut q, q4, 0x40_1000, f, PTE_W), 0);
    let got = u.map_fresh(&mut q, q4, 0x40_0000, 3, PTE_W | PTE_U);
    assert_eq!(got.len(), 1);
    assert_eq!(u.virt_to_phys(q4, 0x40_1000), Some(f));
}

#[test]
fn mmap_anon_backed_fails_when_frames_run_out() {
    let mut p = pmm_with(3);
    let mut t = TableMem::new();
    let p4 = p.mm_alloc();
    t.add_table(p4);
    let mut a = AddressSpace::new(p4);
    let r = a.mmap_anon_backed(&mut t, &mut p, 0, 0x1000, VMA_W, false, 1);
    assert_eq!(r, 0);
    // The area stays recorded with no page counted.
    let v = *a.find_vma(USER_MMAP_BASE + PG).unwrap();
    assert_eq!(v.mapped_pages, 0);
}

#[test]
fn handle_demand_fault_fails_without_frames() {
    let mut p = pmm_with(2);
    let mut t = TableMem::new();
    let p4 = p.mm_alloc();
    t.add_table(p4);
    let mut a = AddressSpace::new(p4);
    let r = a.mmap_anon(0, 0x1000, VMA_W, true, 1);
    assert!(!a.handle_demand_fault(&mut t, &mut p, r));
    assert_eq!(a.find_vma(r).unwrap().mapped_pages, 0);
    assert!(t.virt_to_phys(p4, r).is_none());
}
