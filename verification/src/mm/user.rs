//! Swap-entry encoding of non-present user page-table entries.
use vstd::prelude::*;

verus! {

/// Software bit marking a non-present entry as a swap entry.
pub const PTE_SWAP: u64 = 0x400;
pub const PTE_SWAP_SLOT_SHIFT: u64 = 12;
/// Bits 12..51 hold the swap slot.
pub const PTE_SWAP_SLOT_MASK: u64 = 0x000F_FFFF_FFFF_F000;

/// Swap entry for `slot`: not present, swap bit set, slot in bits 12..51.
pub fn make_swap_pte(slot: u64) -> (r: u64)
    ensures
        r == (slot << PTE_SWAP_SLOT_SHIFT) | PTE_SWAP,
        r & 1 == 0,
        r & PTE_SWAP != 0,
{
    proof {
        assert(((slot << 12u64) | 0x400u64) & 1 == 0) by (bit_vector);
        assert(((slot << 12u64) | 0x400u64) & 0x400 != 0) by (bit_vector);
    }
    (slot << PTE_SWAP_SLOT_SHIFT) | PTE_SWAP
}

/// Swap slot held by a swap entry.
pub fn swap_pte_slot(pte: u64) -> (r: u64)
    ensures
        r == (pte & PTE_SWAP_SLOT_MASK) >> PTE_SWAP_SLOT_SHIFT,
{
    (pte & PTE_SWAP_SLOT_MASK) >> PTE_SWAP_SLOT_SHIFT
}

/// Law: decoding the swap entry of a slot below 2^40 gives the slot back.
pub proof fn law_swap_slot_roundtrip(slot: u64)
    requires
        slot < 0x100_0000_0000,
    ensures
        ((((slot << PTE_SWAP_SLOT_SHIFT) | PTE_SWAP) & PTE_SWAP_SLOT_MASK) >> PTE_SWAP_SLOT_SHIFT) == slot,
{
    assert(slot < 0x100_0000_0000u64 ==> ((((slot << 12u64) | 0x400u64) & 0x000F_FFFF_FFFF_F000u64) >> 12u64) == slot)
        by (bit_vector);
}

} // verus!
