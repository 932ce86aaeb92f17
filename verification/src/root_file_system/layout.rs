//! Disk layout: sector 1 holds the install header; each image has a fixed
//! segment of sectors.
use vstd::prelude::*;
use crate::root_file_system::{le_bytes, push_le};

verus! {

/// LBA of the install header.
pub const HEADER_LBA: u64 = 1;

pub const SECTOR_SIZE: usize = 512;

/// The install magic "COSINST\0".
pub open spec fn magic_spec() -> Seq<u8> {
    seq![0x43u8, 0x4Fu8, 0x53u8, 0x49u8, 0x4Eu8, 0x53u8, 0x54u8, 0x00u8]
}

/// The install magic "COSINST\0".
pub fn magic() -> (r: [u8; 8])
    ensures
        r@ == magic_spec(),
{
    let r: [u8; 8] = [0x43, 0x4F, 0x53, 0x49, 0x4E, 0x53, 0x54, 0x00];
    assert(r@ =~= magic_spec());
    r
}

/// A segment of the disk: first sector and size limit.
#[derive(Clone, Copy)]
pub struct SegmentSlot {
    pub lba_start: u64,
    pub max_sectors: u32,
}

/// Segment of kernel.elf.
pub fn seg_kernel() -> (r: SegmentSlot)
    ensures
        r == (SegmentSlot { lba_start: 2048, max_sectors: 8192 }),
{
    SegmentSlot { lba_start: 2048, max_sectors: 8192 }
}

/// Segment of devspace.elf.
pub fn seg_devspace() -> (r: SegmentSlot)
    ensures
        r == (SegmentSlot { lba_start: 16384, max_sectors: 8192 }),
{
    SegmentSlot { lba_start: 16384, max_sectors: 8192 }
}

/// Segment of fs_server.bin.
pub fn seg_fsserver() -> (r: SegmentSlot)
    ensures
        r == (SegmentSlot { lba_start: 32768, max_sectors: 4096 }),
{
    SegmentSlot { lba_start: 32768, max_sectors: 4096 }
}

/// Segment of userspace.bin.
pub fn seg_userspace() -> (r: SegmentSlot)
    ensures
        r == (SegmentSlot { lba_start: 49152, max_sectors: 8192 }),
{
    SegmentSlot { lba_start: 49152, max_sectors: 8192 }
}

/// The install header (one sector on disk).
pub struct InstallHeader {
    pub magic: [u8; 8],
    pub kernel_lba: u64,
    pub kernel_sectors: u32,
    pub devspace_lba: u64,
    pub devspace_sectors: u32,
    pub fsserver_lba: u64,
    pub fsserver_sectors: u32,
    pub userspace_lba: u64,
    pub userspace_sectors: u32,
    pub _pad: [u8; 456],
}

impl InstallHeader {
    /// All zero.
    pub fn zeroed() -> (r: Self)
        ensures
            r.magic@ == seq![0u8; 8],
            r.kernel_lba == 0 && r.kernel_sectors == 0,
            r.devspace_lba == 0 && r.devspace_sectors == 0,
            r.fsserver_lba == 0 && r.fsserver_sectors == 0,
            r.userspace_lba == 0 && r.userspace_sectors == 0,
            r._pad@ == seq![0u8; 456],
    {
        let r = InstallHeader {
            magic: [0u8; 8],
            kernel_lba: 0,
            kernel_sectors: 0,
            devspace_lba: 0,
            devspace_sectors: 0,
            fsserver_lba: 0,
            fsserver_sectors: 0,
            userspace_lba: 0,
            userspace_sectors: 0,
            _pad: [0u8; 456],
        };
        assert(r.magic@ =~= seq![0u8; 8]);
        assert(r._pad@ =~= seq![0u8; 456]);
        r
    }

    /// The header carries the install magic.
    pub fn is_valid(&self) -> (r: bool)
        ensures
            r == (self.magic@ == magic_spec()),
    {
        let m = magic();
        let mut i: usize = 0;
        while i < 8
            invariant
                i <= 8,
                m@ == magic_spec(),
                forall|k: int| 0 <= k < i ==> self.magic@[k] == m@[k],
            decreases 8 - i,
        {
            if self.magic[i] != m[i] {
                return false;
            }
            i = i + 1;
        }
        assert(self.magic@ =~= magic_spec());
        true
    }

    /// The header's packed little-endian image: magic, then each segment's
    /// LBA (8 bytes) and sector count (4 bytes), then the padding; 512
    /// bytes.
    pub open spec fn image(&self) -> Seq<u8> {
        self.magic@ + le_bytes(self.kernel_lba as int, 8) + le_bytes(self.kernel_sectors as int, 4) + le_bytes(
            self.devspace_lba as int,
            8,
        ) + le_bytes(self.devspace_sectors as int, 4) + le_bytes(self.fsserver_lba as int, 8) + le_bytes(
            self.fsserver_sectors as int,
            4,
        ) + le_bytes(self.userspace_lba as int, 8) + le_bytes(self.userspace_sectors as int, 4) + self._pad@
    }

    /// The sector written to disk.
    pub fn to_sector(&self) -> (r: Vec<u8>)
        ensures
            r@ == self.image(),
    {
        let mut out: Vec<u8> = Vec::new();
        let mut i: usize = 0;
        while i < 8
            invariant
                i <= 8,
                out@ == self.magic@.subrange(0, i as int),
            decreases 8 - i,
        {
            out.push(self.magic[i]);
            i = i + 1;
            assert(out@ =~= self.magic@.subrange(0, i as int));
        }
        assert(self.magic@.subrange(0, 8) =~= self.magic@);
        push_le(&mut out, self.kernel_lba, 8);
        push_le(&mut out, self.kernel_sectors as u64, 4);
        push_le(&mut out, self.devspace_lba, 8);
        push_le(&mut out, self.devspace_sectors as u64, 4);
        push_le(&mut out, self.fsserver_lba, 8);
        push_le(&mut out, self.fsserver_sectors as u64, 4);
        push_le(&mut out, self.userspace_lba, 8);
        push_le(&mut out, self.userspace_sectors as u64, 4);
        let ghost head = out@;
        let mut j: usize = 0;
        while j < 456
            invariant
                j <= 456,
                out@ == head + self._pad@.subrange(0, j as int),
            decreases 456 - j,
        {
            out.push(self._pad[j]);
            j = j + 1;
            assert(out@ =~= head + self._pad@.subrange(0, j as int));
        }
        assert(self._pad@.subrange(0, 456) =~= self._pad@);
        out
    }
}

} // verus!
