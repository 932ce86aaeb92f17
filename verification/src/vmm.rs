//! Page-table entry encoding of the x86-64 four-level page tables.
use vstd::prelude::*;
use crate::mm::PhysAddr;

pub mod fork;
pub mod tables;

verus! {

/// Present.
pub const PTE_P: u64 = 1;
/// Writable.
pub const PTE_W: u64 = 2;
/// User-accessible.
pub const PTE_U: u64 = 4;
/// Write-through.
pub const PTE_PWT: u64 = 8;
/// Cache-disable.
pub const PTE_PCD: u64 = 16;
/// Accessed.
pub const PTE_A: u64 = 32;
/// Dirty.
pub const PTE_D: u64 = 64;
/// Page size (huge page in a page directory).
pub const PTE_PS: u64 = 128;
/// Global.
pub const PTE_G: u64 = 256;
/// Copy-on-write pending (software bit 9).
pub const PTE_COW: u64 = 512;
/// No-execute.
pub const PTE_NX: u64 = 0x8000_0000_0000_0000;
/// Physical address bits 12..51.
pub const PTE_ADDR: u64 = 0x000F_FFFF_FFFF_F000;

/// One page table: 512 entries.
pub struct PT {
    pub e: [u64; 512],
}

/// Entry mapping physical page `p` with flags `f`, marked present.
pub fn pte_make(p: PhysAddr, f: u64) -> (r: u64)
    ensures
        r == (p & PTE_ADDR) | f | PTE_P,
{
    (p & PTE_ADDR) | f | PTE_P
}

pub fn pte_present(e: u64) -> (r: bool)
    ensures
        r == (e & PTE_P != 0),
{
    e & PTE_P != 0
}

pub fn pte_user(e: u64) -> (r: bool)
    ensures
        r == (e & PTE_U != 0),
{
    e & PTE_U != 0
}

pub fn pte_writable(e: u64) -> (r: bool)
    ensures
        r == (e & PTE_W != 0),
{
    e & PTE_W != 0
}

pub fn pte_huge(e: u64) -> (r: bool)
    ensures
        r == (e & PTE_PS != 0),
{
    e & PTE_PS != 0
}

pub fn pte_cow(e: u64) -> (r: bool)
    ensures
        r == (e & PTE_COW != 0),
{
    e & PTE_COW != 0
}

/// Physical address held by an entry.
pub fn pte_addr(e: u64) -> (r: PhysAddr)
    ensures
        r == e & PTE_ADDR,
{
    e & PTE_ADDR
}

/// Law: an entry built by `pte_make` is present, carries the page-aligned
/// part of the address it was built from, and carries every flag it was
/// built with; when the flags hold no address bits, `pte_addr` gives back
/// exactly the page-aligned address.
pub proof fn law_pte_make_roundtrip(p: u64, f: u64)
    ensures
        ((p & PTE_ADDR) | f | PTE_P) & PTE_P != 0,
        ((p & PTE_ADDR) | f | PTE_P) & f == f,
        f & PTE_ADDR == 0 ==> ((p & PTE_ADDR) | f | PTE_P) & PTE_ADDR == p & PTE_ADDR,
{
    assert(((p & 0x000F_FFFF_FFFF_F000u64) | f | 1u64) & 1u64 != 0) by (bit_vector);
    assert(((p & 0x000F_FFFF_FFFF_F000u64) | f | 1u64) & f == f) by (bit_vector);
    assert(f & 0x000F_FFFF_FFFF_F000u64 == 0 ==> ((p & 0x000F_FFFF_FFFF_F000u64) | f | 1u64)
        & 0x000F_FFFF_FFFF_F000u64 == p & 0x000F_FFFF_FFFF_F000u64) by (bit_vector);
}

} // verus!
