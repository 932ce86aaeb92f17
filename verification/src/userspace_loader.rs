//! Loading the user-space image: finding the first boot module, telling
//! ELF from a flat binary, reading the ELF header and its loadable
//! segments, and what each mapped page receives. Allocating frames,
//! mapping and copying are the caller's.
use vstd::prelude::*;
use crate::root_file_system::{le_value, read_le, read_le32};
use crate::root_file_system::install::round8;

verus! {

/// Value the boot loader leaves in EAX (multiboot 2).
pub const MB2_OK: u64 = 0x36d76289;

/// Load address of a flat binary and of a position-independent ELF.
pub const BIN_BASE: u64 = 0x0040_0000;

/// First page of the user stack.
pub const STACK_BASE: u64 = 0x0000_7F00_0000_0000;

/// Pages of the user stack.
pub const STACK_PAGES: u64 = 64;

/// "\x7fELF" read as a little-endian word.
pub const ELF_MAGIC: u32 = 0x464C457F;

/// Page size in bytes.
pub const PAGE: u64 = 0x1000;

/// The first module (start, end) listed from tag offset `off` on.
pub open spec fn first_module_from(b: Seq<u8>, off: int, total: int) -> Option<(u64, u64)>
    decreases (if off < total { total - off } else { 0 }),
{
    if off >= total || off < 0 || off + 8 > b.len() {
        None
    } else {
        let typ = le_value(b, off, 4);
        if typ == 0 {
            None
        } else if typ == 3 {
            if off + 16 <= b.len() {
                Some((le_value(b, off + 8, 4) as u64, le_value(b, off + 12, 4) as u64))
            } else {
                None
            }
        } else {
            let step = round8(le_value(b, off + 4, 4));
            if step <= 0 {
                None
            } else {
                first_module_from(b, off + step, total)
            }
        }
    }
}

/// The first module of a multiboot 2 information block `info`, whatever
/// its bounds; `None` for a block too short for its header, or when the
/// tags end (type 0, past the block's size, or a tag that does not fit)
/// before one.
pub fn mb2_module(info: &[u8]) -> (r: Option<(u64, u64)>)
    ensures
        r == if info@.len() < 8 { None } else { first_module_from(info@, 8, le_value(info@, 0, 4)) },
{
    if info.len() < 8 {
        return None;
    }
    let total = read_le32(info, 0) as u64;
    let mut off: u64 = 8;
    while off < total
        invariant
            info@.len() >= 8,
            total == le_value(info@, 0, 4),
            total < 0x1_0000_0000,
            8 <= off <= total + 0x1_0000_0010,
            first_module_from(info@, off as int, total as int) == first_module_from(info@, 8, total as int),
        decreases (if off < total { total - off } else { 0 }),
    {
        if off + 8 > info.len() as u64 {
            return None;
        }
        let o = off as usize;
        let typ = read_le32(info, o);
        if typ == 0 {
            return None;
        }
        if typ == 3 {
            if info.len() - o >= 16 {
                return Some((read_le32(info, o + 8) as u64, read_le32(info, o + 12) as u64));
            }
            return None;
        }
        let sz = read_le32(info, o + 4);
        let step = (sz as u64 + 7) / 8 * 8;
        if step == 0 {
            return None;
        }
        off = off + step;
    }
    None
}

/// An image is ELF when it starts with the ELF magic.
pub fn is_elf(img: &[u8]) -> (r: bool)
    ensures
        r == (img@.len() >= 4 && le_value(img@, 0, 4) == ELF_MAGIC),
{
    if img.len() < 4 {
        return false;
    }
    read_le32(img, 0) == ELF_MAGIC
}

/// Frames a flat binary of `size` bytes takes.
pub fn flat_pages(size: u64) -> (r: u64)
    requires
        size + PAGE <= u64::MAX,
    ensures
        r == (size + PAGE - 1) / PAGE as int,
{
    (size + PAGE - 1) / PAGE
}

/// Bytes of a flat binary copied into its page `i`: a whole page, or what
/// is left.
pub fn flat_copy_len(size: u64, i: u64) -> (r: u64)
    requires
        i * PAGE < size,
    ensures
        r == if size - i * PAGE < PAGE { size - i * PAGE } else { PAGE as int },
{
    let left = size - i * PAGE;
    if left < PAGE {
        left
    } else {
        PAGE
    }
}

/// Initial user stack pointer: 16 bytes below the end of the stack, inside
/// its last page.
pub fn user_stack_top() -> (r: u64)
    ensures
        r == STACK_BASE + STACK_PAGES * PAGE - 16,
{
    STACK_BASE + STACK_PAGES * PAGE - 16
}

/// The fields of the ELF header that loading uses.
#[derive(Copy, Clone)]
pub struct ElfHeader {
    pub e_type: u16,
    pub e_entry: u64,
    pub e_phoff: u64,
    pub e_phentsize: u16,
    pub e_phnum: u16,
}

/// Read the ELF header fields; `None` for an image shorter than them.
pub fn parse_elf_header(img: &[u8]) -> (r: Option<ElfHeader>)
    ensures
        img@.len() < 0x3A ==> r is None,
        img@.len() >= 0x3A ==> (r matches Some(h) && h.e_type == le_value(img@, 0x10, 2) && h.e_entry == le_value(
            img@,
            0x18,
            8,
        ) && h.e_phoff == le_value(img@, 0x20, 8) && h.e_phentsize == le_value(img@, 0x36, 2) && h.e_phnum
            == le_value(img@, 0x38, 2)),
{
    if img.len() < 0x3A {
        return None;
    }
    proof {
        crate::root_file_system::lemma_le_value_bound(img@, 0x10, 2);
        crate::root_file_system::lemma_le_value_bound(img@, 0x36, 2);
        crate::root_file_system::lemma_le_value_bound(img@, 0x38, 2);
        reveal_with_fuel(crate::root_file_system::pow256, 3);
    }
    Some(
        ElfHeader {
            e_type: read_le(img, 0x10, 2) as u16,
            e_entry: read_le(img, 0x18, 8),
            e_phoff: read_le(img, 0x20, 8),
            e_phentsize: read_le(img, 0x36, 2) as u16,
            e_phnum: read_le(img, 0x38, 2) as u16,
        },
    )
}

/// Load base: 0x400000 for a position-independent image (type 3), 0 for
/// an executable.
pub fn load_base(e_type: u16) -> (r: u64)
    ensures
        r == if e_type == 3 { BIN_BASE } else { 0 },
{
    if e_type == 3 {
        BIN_BASE
    } else {
        0
    }
}

/// Entry point: the header's entry moved by the load base.
pub fn elf_entry(h: &ElfHeader) -> (r: u64)
    requires
        h.e_entry + (if h.e_type == 3 { BIN_BASE } else { 0 }) <= u64::MAX,
    ensures
        r == h.e_entry + (if h.e_type == 3 { BIN_BASE } else { 0 }),
{
    load_base(h.e_type) + h.e_entry
}

/// A loadable segment and the pages it spans.
#[derive(Copy, Clone)]
pub struct LoadSeg {
    pub p_flags: u32,
    pub p_offset: u64,
    pub p_vaddr: u64,
    pub p_filesz: u64,
    /// Memory size, at most 2 MiB.
    pub p_memsz: u64,
    /// Page flags: user, and writable when the segment is.
    pub perm: u64,
    /// First page (load base applied).
    pub seg_start: u64,
    /// End of the last page.
    pub seg_end: u64,
}

/// Offset of program header `i`.
pub open spec fn ph_off(h: ElfHeader, i: int) -> int {
    h.e_phoff + i * h.e_phentsize
}

/// The segment described by program header `i`, when it is loadable:
/// `None` for another type, an empty segment, a header past the image, or
/// addresses that do not fit in 64 bits.
pub fn load_segment(img: &[u8], h: &ElfHeader, i: u16) -> (r: Option<LoadSeg>)
    ensures
        r matches Some(s) ==> {
            let o = ph_off(*h, i as int);
            let base = if h.e_type == 3 { BIN_BASE as int } else { 0 };
            let memsz = if le_value(img@, o + 0x28, 8) < 0x20_0000 { le_value(img@, o + 0x28, 8) } else { 0x20_0000 };
            &&& o + 0x30 <= img@.len()
            &&& le_value(img@, o, 4) == 1
            &&& le_value(img@, o + 0x28, 8) != 0
            &&& s.p_flags == le_value(img@, o + 4, 4)
            &&& s.p_offset == le_value(img@, o + 8, 8)
            &&& s.p_vaddr == le_value(img@, o + 0x10, 8)
            &&& s.p_filesz == le_value(img@, o + 0x20, 8)
            &&& s.p_memsz == memsz
            &&& s.perm == (if s.p_flags & 2 != 0 { 6u64 } else { 4u64 })
            &&& s.seg_start == (base + s.p_vaddr) / 4096 * 4096
            &&& s.seg_end == (base + s.p_vaddr + memsz + 4095) / 4096 * 4096
        },
        r is None ==> {
            let o = ph_off(*h, i as int);
            o + 0x30 > img@.len() || le_value(img@, o, 4) != 1 || le_value(img@, o + 0x28, 8) == 0
                || (if h.e_type == 3 { BIN_BASE as int } else { 0 }) + le_value(img@, o + 0x10, 8) + 0x20_0000 + 4095
                > u64::MAX
        },
{
    assert((i as u128) * (h.e_phentsize as u128) <= 0x1_0000_0000) by (nonlinear_arith)
        requires
            i <= 0xFFFF,
            h.e_phentsize <= 0xFFFF,
    ;
    let off = (h.e_phoff as u128) + (i as u128) * (h.e_phentsize as u128);
    if off + 0x30 > img.len() as u128 {
        return None;
    }
    let o = off as usize;
    let p_type = read_le32(img, o);
    if p_type != 1 {
        return None;
    }
    let p_flags = read_le32(img, o + 4);
    let p_offset = read_le(img, o + 8, 8);
    let p_vaddr = read_le(img, o + 0x10, 8);
    let p_filesz = read_le(img, o + 0x20, 8);
    let raw_memsz = read_le(img, o + 0x28, 8);
    if raw_memsz == 0 {
        return None;
    }
    let p_memsz = if raw_memsz < 0x20_0000 { raw_memsz } else { 0x20_0000 };
    let base = load_base(h.e_type);
    if p_vaddr > u64::MAX - base - 0x20_0000 - 4095 {
        return None;
    }
    let perm: u64 = if p_flags & 0x2 != 0 { 6 } else { 4 };
    let seg_start = (base + p_vaddr) / 4096 * 4096;
    let seg_end = (base + p_vaddr + p_memsz + 4095) / 4096 * 4096;
    Some(LoadSeg { p_flags, p_offset, p_vaddr, p_filesz, p_memsz, perm, seg_start, seg_end })
}

/// What one mapped page of a segment receives from the file.
#[derive(Copy, Clone)]
pub struct PageCopy {
    /// Offset in the image.
    pub file_off: u64,
    /// Bytes copied.
    pub copy_n: u64,
    /// Offset in the page where they go.
    pub dst_off: u64,
}

/// The copy into the page at `vaddr` of segment `s` loaded at `base`: the
/// file bytes from the page's offset into the segment (0 for the page
/// holding its start), at most a page of them, placed at the segment's
/// offset in that first page; `None` past the file bytes.
pub fn page_copy(s: &LoadSeg, base: u64, vaddr: u64) -> (r: Option<PageCopy>)
    requires
        vaddr >= base,
        base + s.p_vaddr <= u64::MAX,
    ensures
        ({
            let rel = vaddr - base;
            let page_off = if rel >= s.p_vaddr { rel - s.p_vaddr } else { 0 };
            &&& page_off >= s.p_filesz ==> r is None
            &&& page_off < s.p_filesz && s.p_offset + page_off <= u64::MAX ==> r == Some(
                PageCopy {
                    file_off: (s.p_offset + page_off) as u64,
                    copy_n: if s.p_filesz - page_off < PAGE { (s.p_filesz - page_off) as u64 } else { PAGE },
                    dst_off: if vaddr < base + s.p_vaddr { (base + s.p_vaddr - vaddr) as u64 } else { 0 },
                },
            )
            &&& page_off < s.p_filesz && s.p_offset + page_off > u64::MAX ==> r is None
        }),
{
    let rel = vaddr - base;
    let page_off = if rel >= s.p_vaddr { rel - s.p_vaddr } else { 0 };
    if page_off >= s.p_filesz {
        return None;
    }
    if s.p_offset > u64::MAX - page_off {
        return None;
    }
    let file_off = s.p_offset + page_off;
    let left = s.p_filesz - page_off;
    let copy_n = if left < PAGE { left } else { PAGE };
    let dst_off = if vaddr < base + s.p_vaddr { base + s.p_vaddr - vaddr } else { 0 };
    Some(PageCopy { file_off, copy_n, dst_off })
}

} // verus!
