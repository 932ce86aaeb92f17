//! Physical and virtual memory: shared constants and the entry encoding of
//! the early page-table code.
use vstd::prelude::*;

pub mod heap;
pub mod pmm;
pub mod slab;
pub mod user;
pub mod vma;

verus! {

/// Physical address.
pub type PhysAddr = u64;

/// Virtual address.
pub type VirtAddr = u64;

/// Size of one page in bytes.
pub const PAGE_SIZE: usize = 0x1000;

pub const PTE_P: u64 = 1;
pub const PTE_W: u64 = 2;
pub const PTE_U: u64 = 4;
pub const PTE_ADDR: u64 = 0x000F_FFFF_FFFF_F000;

/// One page table: 512 entries.
pub struct PT {
    pub e: [u64; 512],
}

/// Entry mapping physical page `p` with flags `f`, marked present.
pub fn pte_make(p: PhysAddr, f: u64) -> (r: u64)
    ensures
        r == (p & PTE_ADDR) | f | PTE_P,
{
    (p & PTE_ADDR) | f | PTE_P
}

pub fn pte_present(e: u64) -> (r: bool)
    ensures
        r == (e & PTE_P != 0),
{
    e & PTE_P != 0
}

pub fn pte_user(e: u64) -> (r: bool)
    ensures
        r == (e & PTE_U != 0),
{
    e & PTE_U != 0
}

/// Physical address held by an entry.
pub fn pte_addr(e: u64) -> (r: PhysAddr)
    ensures
        r == e & PTE_ADDR,
{
    e & PTE_ADDR
}

} // verus!
