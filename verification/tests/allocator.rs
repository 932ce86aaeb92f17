use lib::allocator::kernel_heap::{uses_slab, FreeRoute, KernelHeap, KHEAP_BASE, KHEAP_SIZE};
use lib::allocator::buddy::{BuddyAllocator, MAX_BLOCK, PAGE_SIZE};

fn heap() -> BuddyAllocator {
    let mut b = BuddyAllocator::new();
    b.init(MAX_BLOCK, 2 * MAX_BLOCK);
    b
}

#[test]
fn buddy_init_counts() {
    let b = heap();
    assert_eq!(b.total_kb(), 4096);
    assert_eq!(b.free_kb(), 4096);
    assert_eq!(b.used_kb(), 0);
}

#[test]
fn buddy_empty_allocator_refuses() {
    let mut b = BuddyAllocator::new();
    assert_eq!(b.total_kb(), 0);
    assert_eq!(b.alloc_block(PAGE_SIZE, 0), None);
}

#[test]
fn buddy_size_to_order() {
    let b = BuddyAllocator::new();
    assert_eq!(b.size_to_order(1), 0);
    assert_eq!(b.size_to_order(PAGE_SIZE), 0);
    assert_eq!(b.size_to_order(PAGE_SIZE + 1), 1);
    assert_eq!(b.size_to_order(2 * PAGE_SIZE), 1);
    assert_eq!(b.size_to_order(MAX_BLOCK), 9);
    assert_eq!(b.size_to_order(2 * MAX_BLOCK), 9);
}

#[test]
fn buddy_alloc_splits_the_last_block() {
    let mut b = heap();
    let a = b.alloc_block(PAGE_SIZE, 0).unwrap();
    assert_eq!(a, 2 * MAX_BLOCK);
    assert_eq!(b.free_kb(), 4092);
    assert_eq!(b.used_kb(), 4);
    let c = b.alloc_block(PAGE_SIZE, 0).unwrap();
    assert_eq!(c, 2 * MAX_BLOCK + PAGE_SIZE);
}

#[test]
fn buddy_zero_size_gives_nothing() {
    let mut b = heap();
    assert_eq!(b.alloc_block(0, 0), None);
    assert_eq!(b.free_kb(), 4096);
}

#[test]
fn buddy_alignment_raises_the_order() {
    let mut b = heap();
    let a = b.alloc_block(1, 2 * PAGE_SIZE).unwrap();
    assert_eq!(a % (2 * PAGE_SIZE), 0);
    assert_eq!(b.free_kb(), 4096 - 8);
}

#[test]
fn buddy_free_undoes_alloc() {
    let mut b = heap();
    let a = b.alloc_block(PAGE_SIZE, 0).unwrap();
    b.free(a, PAGE_SIZE);
    assert_eq!(b.free_kb(), 4096);
    // The split halves merged again: both large blocks can be handed out.
    assert!(b.alloc_block(MAX_BLOCK, 0).is_some());
    assert!(b.alloc_block(MAX_BLOCK, 0).is_some());
    assert_eq!(b.alloc_block(MAX_BLOCK, 0), None);
}

#[test]
fn buddy_allocations_are_disjoint() {
    let mut b = heap();
    let x = b.alloc_block(3 * PAGE_SIZE, 0).unwrap();
    let y = b.alloc_block(PAGE_SIZE, 0).unwrap();
    let z = b.alloc_block(PAGE_SIZE, 0).unwrap();
    assert!(y + PAGE_SIZE <= x || x + 4 * PAGE_SIZE <= y);
    assert!(z + PAGE_SIZE <= x || x + 4 * PAGE_SIZE <= z);
    assert!(y + PAGE_SIZE <= z || z + PAGE_SIZE <= y);
}

#[test]
fn buddy_exhaustion() {
    let mut b = heap();
    assert!(b.alloc_block(MAX_BLOCK, 0).is_some());
    assert!(b.alloc_block(MAX_BLOCK, 0).is_some());
    assert_eq!(b.alloc_block(PAGE_SIZE, 0), None);
    assert_eq!(b.free_kb(), 0);
}

#[test]
fn buddy_free_null_is_ignored() {
    let mut b = heap();
    b.free(0, PAGE_SIZE);
    assert_eq!(b.free_kb(), 4096);
}

#[test]
fn kernel_heap_sends_small_requests_to_the_slab_first() {
    let mut h = KernelHeap::new();
    // Nothing is served before the heap is set up.
    assert_eq!(h.do_alloc(64, 8, Some(0x1234)), None);
    h.init_default();
    assert_eq!(h.total_kb(), KHEAP_SIZE / 1024);
    assert!(uses_slab(64, 8));
    assert!(!uses_slab(600, 8));
    assert!(!uses_slab(64, 128));
    // A small request takes the slab's block.
    assert_eq!(h.do_alloc(64, 8, Some(0x1234)), Some(0x1234));
    assert_eq!(h.free_kb(), KHEAP_SIZE / 1024);
    // With no slab block, or for a larger request, the buddy allocator serves.
    let a = h.do_alloc(64, 8, None).unwrap();
    assert!(a >= KHEAP_BASE && a < KHEAP_BASE + KHEAP_SIZE);
    let free = h.free_kb();
    let b = h.do_alloc(600, 8, None).unwrap();
    assert!(h.free_kb() < free);
    assert!(h.do_dealloc(b, 600, 8) == FreeRoute::Buddy);
    assert_eq!(h.free_kb(), free);
    assert!(h.do_dealloc(a, 64, 8) == FreeRoute::Slab);
    assert!(h.do_dealloc(0, 600, 8) == FreeRoute::Ignored);
    assert_eq!(h.do_alloc(0, 8, None), None);
    h.shutdown();
    assert_eq!(h.do_alloc(600, 8, None), None);
}

#[test]
fn kernel_heap_stats_line() {
    let mut h = KernelHeap::new();
    h.init_default();
    let line = h.stats_line(12);
    assert_eq!(line, b"[HEAP] free=32768KB  used=0KB  total=32768KB  slab=12KB\n".to_vec());
}
