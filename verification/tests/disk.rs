use lib::root_file_system::ata::{
    lba28_regs, sector_chunk, sector_from_words, sector_words, sectors_needed, wait_drq_step, wait_ready_step, AtaError,
    Wait, WAIT_LIMIT,
};
use lib::root_file_system::install::{collect_modules, image_sectors, install_header, install_needed};
use lib::root_file_system::layout::{magic, seg_devspace, seg_fsserver, seg_kernel, seg_userspace, InstallHeader};
use lib::root_file_system::{push_le, read_le, read_le32};
use lib::userspace_loader::{
    elf_entry, flat_copy_len, flat_pages, is_elf, load_base, load_segment, mb2_module, page_copy, parse_elf_header,
    user_stack_top, BIN_BASE, STACK_BASE,
};

fn put32(b: &mut Vec<u8>, v: u32) {
    b.extend_from_slice(&v.to_le_bytes());
}

/// A multiboot 2 information block with the given tags (type, payload).
fn mb2(tags: &[(u32, Vec<u8>)]) -> Vec<u8> {
    let mut b = vec![0u8; 8];
    for (typ, payload) in tags {
        let size = 8 + payload.len() as u32;
        put32(&mut b, *typ);
        put32(&mut b, size);
        b.extend_from_slice(payload);
        while b.len() % 8 != 0 {
            b.push(0);
        }
    }
    put32(&mut b, 0);
    put32(&mut b, 8);
    let total = b.len() as u32;
    b[0..4].copy_from_slice(&total.to_le_bytes());
    b
}

fn module(start: u32, end: u32) -> (u32, Vec<u8>) {
    let mut p = Vec::new();
    put32(&mut p, start);
    put32(&mut p, end);
    p.extend_from_slice(b"name\0");
    (3, p)
}

// ── Little-endian helpers ────────────────────────────────────────────────────

#[test]
fn little_endian_reads() {
    let b = [0x78, 0x56, 0x34, 0x12, 0xEF, 0xCD, 0xAB, 0x90, 0x01];
    assert_eq!(read_le32(&b, 0), 0x1234_5678);
    assert_eq!(read_le(&b, 0, 2), 0x5678);
    assert_eq!(read_le(&b, 1, 8), 0x0190_ABCD_EF12_3456);
    assert_eq!(read_le(&b, 3, 0), 0);
    let mut out = vec![9u8];
    push_le(&mut out, 0x0102_0304, 4);
    assert_eq!(out, vec![9, 4, 3, 2, 1]);
    push_le(&mut out, 0xFFFF, 1);
    assert_eq!(out, vec![9, 4, 3, 2, 1, 0xFF]);
}

// ── ATA ──────────────────────────────────────────────────────────────────────

#[test]
fn ata_wait_steps() {
    assert_eq!(wait_ready_step(0x40, 0), Wait::Done);
    assert_eq!(wait_ready_step(0x80, 5), Wait::Again(6));
    assert_eq!(wait_ready_step(0x81, 5), Wait::Fail(AtaError::DiskError));
    assert_eq!(wait_ready_step(0x88, WAIT_LIMIT), Wait::Fail(AtaError::Timeout));
    assert_eq!(wait_drq_step(0x58, 0), Wait::Done);
    assert_eq!(wait_drq_step(0x51, 0), Wait::Fail(AtaError::DiskError));
    assert_eq!(wait_drq_step(0x80, 1), Wait::Again(2));
    assert_eq!(wait_drq_step(0x00, WAIT_LIMIT), Wait::Fail(AtaError::Timeout));
}

#[test]
fn ata_lba28_registers() {
    assert_eq!(lba28_regs(0x0A12_3456, 1), [0xEA, 0, 1, 0x56, 0x34, 0x12]);
    assert_eq!(lba28_regs(1, 0), [0xE0, 0, 0, 1, 0, 0]);
}

#[test]
fn ata_sector_words_roundtrip() {
    let mut buf = vec![0u8; 512];
    for (i, b) in buf.iter_mut().enumerate() {
        *b = (i % 251) as u8;
    }
    let words = sector_words(&buf);
    assert_eq!(words.len(), 256);
    assert_eq!(words[1], 0x0302);
    assert_eq!(sector_from_words(&words), buf);
}

#[test]
fn ata_sector_counts() {
    assert_eq!(sectors_needed(0, 10), Ok(0));
    assert_eq!(sectors_needed(1, 10), Ok(1));
    assert_eq!(sectors_needed(512, 10), Ok(1));
    assert_eq!(sectors_needed(513, 10), Ok(2));
    assert_eq!(sectors_needed(5121, 10), Err(AtaError::TooLarge));
    let data = [7u8; 600];
    let c0 = sector_chunk(&data, 0);
    let c1 = sector_chunk(&data, 1);
    assert_eq!(c0, vec![7u8; 512]);
    assert_eq!(&c1[..88], &[7u8; 88][..]);
    assert_eq!(&c1[88..], &[0u8; 424][..]);
}

// ── Layout and installation ──────────────────────────────────────────────────

#[test]
fn layout_segments() {
    assert_eq!(&magic(), b"COSINST\0");
    assert_eq!(seg_kernel().lba_start, 2048);
    assert_eq!(seg_devspace().lba_start, 16384);
    assert_eq!(seg_fsserver().max_sectors, 4096);
    assert_eq!(seg_userspace().lba_start, 49152);
}

#[test]
fn header_sector_image() {
    let h = install_header(10, 20, 30, 40);
    assert!(h.is_valid());
    let s = h.to_sector();
    assert_eq!(s.len(), 512);
    assert_eq!(&s[0..8], b"COSINST\0");
    assert_eq!(read_le(&s, 8, 8), 2048);
    assert_eq!(read_le32(&s, 16), 10);
    assert_eq!(read_le(&s, 20, 8), 16384);
    assert_eq!(read_le32(&s, 28), 20);
    assert_eq!(read_le32(&s, 52), 40);
    assert!(!install_needed(&s));
    assert!(!InstallHeader::zeroed().is_valid());
    assert!(install_needed(&[0u8; 512]));
}

#[test]
fn image_sector_counts() {
    assert_eq!(image_sectors(None, seg_kernel()), Ok(0));
    assert_eq!(image_sectors(Some((0x1000, 0x1201)), seg_kernel()), Ok(2));
    assert_eq!(image_sectors(Some((0, 4096 * 512 + 1)), seg_fsserver()), Err(AtaError::TooLarge));
}

#[test]
fn collect_boot_modules() {
    let info = mb2(&[(1, b"cmdline\0".to_vec()), module(0x10_0000, 0x12_0000), module(0x20_0000, 0x20_0000), module(0x30_0000, 0x30_1000)]);
    let m = collect_modules(&info);
    assert_eq!(m[0], Some((0x10_0000, 0x12_0000)));
    // A module whose end is not past its start is skipped.
    assert_eq!(m[1], Some((0x30_0000, 0x30_1000)));
    assert_eq!(m[2], None);
    assert_eq!(m[3], None);
    assert_eq!(collect_modules(&[0u8; 4]), [None; 4]);
}

#[test]
fn collect_stops_at_four() {
    let tags: Vec<_> = (0..6).map(|k| module(k * 0x1000, k * 0x1000 + 0x10)).collect();
    let m = collect_modules(&mb2(&tags));
    assert_eq!(m[3], Some((0x3000, 0x3010)));
}

// ── User-space loader ────────────────────────────────────────────────────────

#[test]
fn first_boot_module() {
    let info = mb2(&[(1, b"x\0".to_vec()), module(0x20_0000, 0x20_0000), module(0x30_0000, 0x30_1000)]);
    // The first module tag counts, whatever its bounds.
    assert_eq!(mb2_module(&info), Some((0x20_0000, 0x20_0000)));
    assert_eq!(mb2_module(&mb2(&[(1, vec![])])), None);
    assert_eq!(mb2_module(&[1, 2, 3]), None);
}

#[test]
fn flat_binaries() {
    assert!(!is_elf(&[0x7F, b'E', b'L']));
    assert!(!is_elf(&[0x90, 0x90, 0x90, 0x90]));
    assert_eq!(flat_pages(1), 1);
    assert_eq!(flat_pages(0x1000), 1);
    assert_eq!(flat_pages(0x2001), 3);
    assert_eq!(flat_copy_len(0x2001, 0), 0x1000);
    assert_eq!(flat_copy_len(0x2001, 2), 1);
    assert_eq!(user_stack_top(), STACK_BASE + 64 * 0x1000 - 16);
}

fn elf_image(e_type: u16) -> Vec<u8> {
    let mut img = vec![0u8; 0x40 + 2 * 0x38];
    img[0..4].copy_from_slice(b"\x7fELF");
    img[0x10..0x12].copy_from_slice(&e_type.to_le_bytes());
    img[0x18..0x20].copy_from_slice(&0x1234u64.to_le_bytes());
    img[0x20..0x28].copy_from_slice(&0x40u64.to_le_bytes());
    img[0x36..0x38].copy_from_slice(&0x38u16.to_le_bytes());
    img[0x38..0x3A].copy_from_slice(&2u16.to_le_bytes());
    // Program header 0: loadable, writable, 0x1800 bytes in file, 0x3000 in memory at 0x1800.
    let p = 0x40;
    img[p..p + 4].copy_from_slice(&1u32.to_le_bytes());
    img[p + 4..p + 8].copy_from_slice(&6u32.to_le_bytes());
    img[p + 8..p + 16].copy_from_slice(&0x200u64.to_le_bytes());
    img[p + 0x10..p + 0x18].copy_from_slice(&0x1800u64.to_le_bytes());
    img[p + 0x20..p + 0x28].copy_from_slice(&0x1800u64.to_le_bytes());
    img[p + 0x28..p + 0x30].copy_from_slice(&0x3000u64.to_le_bytes());
    // Program header 1: not loadable.
    let q = 0x40 + 0x38;
    img[q..q + 4].copy_from_slice(&4u32.to_le_bytes());
    img
}

#[test]
fn elf_header_and_entry() {
    let img = elf_image(3);
    assert!(is_elf(&img));
    let h = parse_elf_header(&img).unwrap();
    assert_eq!(h.e_type, 3);
    assert_eq!(h.e_entry, 0x1234);
    assert_eq!(h.e_phoff, 0x40);
    assert_eq!(h.e_phentsize, 0x38);
    assert_eq!(h.e_phnum, 2);
    assert_eq!(load_base(3), BIN_BASE);
    assert_eq!(load_base(2), 0);
    assert_eq!(elf_entry(&h), BIN_BASE + 0x1234);
    assert!(parse_elf_header(&img[..0x39]).is_none());
}

#[test]
fn elf_segments() {
    let img = elf_image(2);
    let h = parse_elf_header(&img).unwrap();
    let s = load_segment(&img, &h, 0).unwrap();
    assert_eq!(s.p_flags, 6);
    assert_eq!(s.perm, 6);
    assert_eq!(s.p_offset, 0x200);
    assert_eq!(s.p_memsz, 0x3000);
    assert_eq!(s.seg_start, 0x1000);
    assert_eq!(s.seg_end, 0x5000);
    assert!(load_segment(&img, &h, 1).is_none());
    assert!(load_segment(&img, &h, 2).is_none());
}

#[test]
fn elf_page_copies() {
    let img = elf_image(2);
    let h = parse_elf_header(&img).unwrap();
    let s = load_segment(&img, &h, 0).unwrap();
    // First page: the segment starts 0x800 into it.
    let c = page_copy(&s, 0, 0x1000).unwrap();
    assert_eq!((c.file_off, c.copy_n, c.dst_off), (0x200, 0x1000, 0x800));
    // Second page: 0x800 into the segment.
    let c = page_copy(&s, 0, 0x2000).unwrap();
    assert_eq!((c.file_off, c.copy_n, c.dst_off), (0xA00, 0x1000, 0));
    // Past the file bytes: nothing to copy.
    assert!(page_copy(&s, 0, 0x4000).is_none());
}
