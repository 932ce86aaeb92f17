use lib::mm::PAGE_SIZE;
use lib::valloc::{
    valloc_alloc, valloc_contains, valloc_free, valloc_reset, valloc_used_pages, FreeRegion, VAddrSpace,
    MAX_FREE, VSPACE_BASE, VSPACE_TOP,
};

fn pg(n: u64) -> u64 {
    VSPACE_BASE + n * PAGE_SIZE as u64
}

#[test]
fn test_bump_alloc() {
    let mut vs = VAddrSpace::new();
    let a = valloc_alloc(&mut vs, 4).unwrap();
    assert_eq!(a, VSPACE_BASE);
    let b = valloc_alloc(&mut vs, 2).unwrap();
    assert_eq!(b, pg(4));
}

#[test]
fn test_free_and_reuse() {
    let mut vs = VAddrSpace::new();
    let a = valloc_alloc(&mut vs, 4).unwrap();
    let b = valloc_alloc(&mut vs, 4).unwrap();
    let _ = b;
    valloc_free(&mut vs, a, 4);
    let c = valloc_alloc(&mut vs, 4).unwrap();
    assert_eq!(c, a);
}

#[test]
fn test_coalesce() {
    let mut vs = VAddrSpace::new();
    let a = valloc_alloc(&mut vs, 2).unwrap();
    let b = valloc_alloc(&mut vs, 2).unwrap();
    let _ = valloc_alloc(&mut vs, 2);
    valloc_free(&mut vs, a, 2);
    valloc_free(&mut vs, b, 2);

    assert_eq!(vs.free_len, 1);
    assert_eq!(vs.free[0].pages, 4);
}

#[test]
fn test_bump_retract_on_free() {
    let mut vs = VAddrSpace::new();
    let a = valloc_alloc(&mut vs, 8).unwrap();
    valloc_free(&mut vs, a, 8);

    assert_eq!(vs.bump, VSPACE_BASE);
    assert_eq!(vs.free_len, 0);
}

#[test]
fn test_contains() {
    let mut vs = VAddrSpace::new();
    let a = valloc_alloc(&mut vs, 4).unwrap();
    assert!(valloc_contains(&vs, a, 4));
    assert!(!valloc_contains(&vs, a + 4 * PAGE_SIZE as u64, 1));
    valloc_free(&mut vs, a, 4);
    assert!(!valloc_contains(&vs, a, 4));
}

#[test]
fn test_partial_reuse() {
    let mut vs = VAddrSpace::new();
    let a = valloc_alloc(&mut vs, 8).unwrap();
    let _ = valloc_alloc(&mut vs, 1);
    valloc_free(&mut vs, a, 8);
    let b = valloc_alloc(&mut vs, 3).unwrap();
    assert_eq!(b, a);
    assert_eq!(vs.free[0].pages, 5);
    assert_eq!(vs.free[0].base, a + 3 * PAGE_SIZE as u64);
}

#[test]
fn zero_pages_are_refused() {
    let mut vs = VAddrSpace::new();
    assert_eq!(valloc_alloc(&mut vs, 0), None);
    assert!(vs.is_empty());
}

#[test]
fn window_exhaustion_returns_none() {
    let mut vs = VAddrSpace::new();
    let window_pages = ((VSPACE_TOP - VSPACE_BASE) / PAGE_SIZE as u64) as usize;
    assert_eq!(valloc_alloc(&mut vs, window_pages + 1), None);
    assert_eq!(valloc_alloc(&mut vs, window_pages), Some(VSPACE_BASE));
    assert_eq!(vs.bump, VSPACE_TOP);
    assert_eq!(valloc_alloc(&mut vs, 1), None);
}

#[test]
fn misaligned_or_outside_free_is_ignored() {
    let mut vs = VAddrSpace::new();
    let a = valloc_alloc(&mut vs, 4).unwrap();
    valloc_free(&mut vs, a + 1, 1);
    valloc_free(&mut vs, VSPACE_TOP, 1);
    valloc_free(&mut vs, VSPACE_BASE - PAGE_SIZE as u64, 1);
    valloc_free(&mut vs, a, 0);
    assert_eq!(vs.free_len, 0);
    assert_eq!(vs.bump, pg(4));
}

#[test]
fn bump_retract_swallows_adjacent_region() {
    let mut vs = VAddrSpace::new();
    let a = valloc_alloc(&mut vs, 2).unwrap();
    let b = valloc_alloc(&mut vs, 3).unwrap();
    valloc_free(&mut vs, a, 2);
    assert_eq!(vs.free_len, 1);
    valloc_free(&mut vs, b, 3);
    assert_eq!(vs.bump, VSPACE_BASE);
    assert_eq!(vs.free_len, 0);
    assert_eq!(vs.free[0].base, 0);
    assert_eq!(vs.free[0].pages, 0);
}

#[test]
fn full_free_list_drops_the_range() {
    let mut vs = VAddrSpace::new();
    let mut addrs = Vec::new();
    for _ in 0..(2 * MAX_FREE + 2) {
        addrs.push(valloc_alloc(&mut vs, 1).unwrap());
    }
    for k in 0..MAX_FREE {
        valloc_free(&mut vs, addrs[2 * k], 1);
    }
    assert_eq!(vs.free_len, MAX_FREE);
    valloc_free(&mut vs, addrs[2 * MAX_FREE], 1);
    assert_eq!(vs.free_len, MAX_FREE);
    assert!(valloc_contains(&vs, addrs[2 * MAX_FREE], 1));
}

#[test]
fn used_pages_and_reset() {
    let mut vs = VAddrSpace::new();
    let a = valloc_alloc(&mut vs, 6).unwrap();
    let _ = valloc_alloc(&mut vs, 2).unwrap();
    assert_eq!(vs.bump_pages(), 8);
    valloc_free(&mut vs, a, 6);
    assert_eq!(valloc_used_pages(&vs), 2);
    valloc_reset(&mut vs);
    assert!(vs.is_empty());
    assert_eq!(valloc_used_pages(&vs), 0);
    for r in vs.free.iter() {
        assert_eq!(r.base, 0);
        assert_eq!(r.pages, 0);
    }
}

#[test]
fn free_region_end_and_zero() {
    let r = FreeRegion { base: VSPACE_BASE, pages: 3 };
    assert_eq!(r.end(), VSPACE_BASE + 3 * PAGE_SIZE as u64);
    let z = FreeRegion::zero();
    assert_eq!(z.base, 0);
    assert_eq!(z.pages, 0);
}

#[test]
fn first_fit_takes_the_lowest_region() {
    let mut vs = VAddrSpace::new();
    let a = valloc_alloc(&mut vs, 2).unwrap();
    let _ = valloc_alloc(&mut vs, 1).unwrap();
    let c = valloc_alloc(&mut vs, 5).unwrap();
    let _ = valloc_alloc(&mut vs, 1).unwrap();
    valloc_free(&mut vs, c, 5);
    valloc_free(&mut vs, a, 2);
    assert_eq!(vs.free[0].base, a);
    assert_eq!(vs.free[1].base, c);
    assert_eq!(valloc_alloc(&mut vs, 2), Some(a));
    assert_eq!(valloc_alloc(&mut vs, 3), Some(c));
    assert_eq!(vs.free_len, 1);
    assert_eq!(vs.free[0].base, c + 3 * PAGE_SIZE as u64);
    assert_eq!(vs.free[0].pages, 2);
}

fn regions(vs: &VAddrSpace) -> Vec<(u64, usize)> {
    vs.free[..vs.free_len].iter().map(|r| (r.base, r.pages)).collect()
}

#[test]
fn first_fit_free_restores_the_list() {
    let mut vs = VAddrSpace::new();
    let a = valloc_alloc(&mut vs, 4).unwrap();
    let _b = valloc_alloc(&mut vs, 1).unwrap();
    let c = valloc_alloc(&mut vs, 3).unwrap();
    let _d = valloc_alloc(&mut vs, 1).unwrap();
    valloc_free(&mut vs, a, 4);
    valloc_free(&mut vs, c, 3);
    let before = regions(&vs);
    let bump = vs.bump;
    assert_eq!(before, vec![(pg(0), 4), (pg(5), 3)]);
    // Part of the first region, then the whole second one.
    let x = valloc_alloc(&mut vs, 2).unwrap();
    assert_eq!(x, pg(0));
    assert_eq!(regions(&vs), vec![(pg(2), 2), (pg(5), 3)]);
    valloc_free(&mut vs, x, 2);
    assert_eq!(regions(&vs), before);
    let y = valloc_alloc(&mut vs, 4).unwrap();
    assert_eq!(y, pg(0));
    assert_eq!(regions(&vs), vec![(pg(5), 3)]);
    valloc_free(&mut vs, y, 4);
    assert_eq!(regions(&vs), before);
    assert_eq!(vs.bump, bump);
}
