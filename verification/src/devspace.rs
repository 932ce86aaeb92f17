//! The driver-space ATA disk driver: the request and response records of
//! its interface, the IDENTIFY data it keeps, the register values of an
//! LBA28 transfer and the status polling decisions. Port I/O is the
//! caller's.
use vstd::prelude::*;
use crate::root_file_system::{le_value, read_le};
use crate::root_file_system::ata::{bytes_of_words, sector_from_words};

verus! {

/// What a disk request asks for.
#[derive(Copy, Clone, PartialEq, Eq, Structural, Debug)]
pub enum DiskRequestType {
    Read,
    Write,
    Identify,
    Flush,
}

/// The number a request type travels as: 1 to 4.
pub open spec fn type_code(t: DiskRequestType) -> u32 {
    match t {
        DiskRequestType::Read => 1u32,
        DiskRequestType::Write => 2u32,
        DiskRequestType::Identify => 3u32,
        DiskRequestType::Flush => 4u32,
    }
}

impl DiskRequestType {
    /// The number the type travels as.
    pub fn code(self) -> (r: u32)
        ensures
            r == type_code(self),
    {
        match self {
            DiskRequestType::Read => 1,
            DiskRequestType::Write => 2,
            DiskRequestType::Identify => 3,
            DiskRequestType::Flush => 4,
        }
    }

    /// The type a number stands for, if any.
    pub fn from_code(c: u32) -> (r: Option<Self>)
        ensures
            r matches Some(t) ==> type_code(t) == c,
            r is None <==> !(1 <= c <= 4),
    {
        match c {
            1 => Some(DiskRequestType::Read),
            2 => Some(DiskRequestType::Write),
            3 => Some(DiskRequestType::Identify),
            4 => Some(DiskRequestType::Flush),
            _ => None,
        }
    }
}

/// A request to the disk driver.
#[derive(Copy, Clone)]
pub struct DiskRequest {
    pub req_id: u64,
    pub req_type: DiskRequestType,
    pub lba: u64,
    pub sector_count: u32,
    /// Physical address of the data buffer.
    pub buffer_phys: u64,
}

/// The driver's answer: 0 for success, a negative code for an error.
#[derive(Copy, Clone)]
pub struct DiskResponse {
    pub req_id: u64,
    pub status: i32,
}

impl DiskResponse {
    /// Success for request `req_id`.
    pub fn ok(req_id: u64) -> (r: Self)
        ensures
            r.req_id == req_id && r.status == 0,
    {
        DiskResponse { req_id, status: 0 }
    }
}

/// Status register: busy, data request, error.
pub const SR_BSY: u8 = 0x80;

pub const SR_DRQ: u8 = 0x08;

pub const SR_ERR: u8 = 0x01;

/// Polls before giving up.
pub const POLL_TIMEOUT: u32 = 1_000_000;

/// One read of the status while waiting for the drive to be idle: done
/// (without error or not) once it is not busy, else poll again.
pub fn poll_bsy_step(s: u8) -> (r: Option<bool>)
    ensures
        r == if s & SR_BSY == 0 { Some(s & SR_ERR == 0) } else { None },
{
    if s & SR_BSY == 0 {
        Some(s & SR_ERR == 0)
    } else {
        None
    }
}

/// One read of the status while waiting for a data request: poll again
/// while busy; an error fails; a data request succeeds; else poll again.
pub fn poll_drq_step(s: u8) -> (r: Option<bool>)
    ensures
        r == if s & SR_BSY != 0 {
            None
        } else if s & SR_ERR != 0 {
            Some(false)
        } else if s & SR_DRQ != 0 {
            Some(true)
        } else {
            None
        },
{
    if s & SR_BSY != 0 {
        return None;
    }
    if s & SR_ERR != 0 {
        return Some(false);
    }
    if s & SR_DRQ != 0 {
        return Some(true);
    }
    None
}

/// Drive-select bits: master 0xE0, slave 0xF0 (LBA mode).
pub fn drive_bits(drive: u8) -> (r: u8)
    ensures
        r == if drive == 0 { 0xE0u8 } else { 0xF0u8 },
{
    if drive == 0 {
        0xE0
    } else {
        0xF0
    }
}

/// Values for the drive-select, sector-count and three LBA registers of a
/// transfer of `count` sectors at `lba` on `drive`.
pub fn setup_lba28(lba: u64, drive: u8, count: u8) -> (r: [u8; 5])
    ensures
        r@ == seq![
            (if drive == 0 { 0xE0u8 } else { 0xF0u8 }) | (((lba >> 24u64) & 0x0F) as u8),
            count,
            (lba & 0xFF) as u8,
            ((lba >> 8u64) & 0xFF) as u8,
            ((lba >> 16u64) & 0xFF) as u8,
        ],
{
    let drv = drive_bits(drive);
    let head = ((lba >> 24) & 0x0F) as u8;
    let r: [u8; 5] = [drv | head, count, (lba & 0xFF) as u8, ((lba >> 8) & 0xFF) as u8, ((lba >> 16) & 0xFF) as u8];
    assert(r@ =~= seq![
        (if drive == 0 { 0xE0u8 } else { 0xF0u8 }) | (((lba >> 24u64) & 0x0F) as u8),
        count,
        (lba & 0xFF) as u8,
        ((lba >> 8u64) & 0xFF) as u8,
        ((lba >> 16u64) & 0xFF) as u8,
    ]);
    r
}

/// Physical address of sector `i` of a transfer buffer at `base`.
pub fn sector_addr(base: u64, i: u32) -> (r: u64)
    requires
        base + i * 512 <= u64::MAX,
    ensures
        r == base + i * 512,
{
    base + i as u64 * 512
}

/// The ATA driver's state.
pub struct AtaDriver {
    pub active_drive: u8,
    pub identify_buf: [u8; 512],
    /// Sectors addressable with LBA28, from the IDENTIFY data.
    pub lba28_total: u32,
}

/// Sectors addressable with LBA28: words 60 and 61 of the IDENTIFY data.
pub open spec fn identify_total(b: Seq<u8>) -> int {
    le_value(b, 122, 2) * 0x1_0000 + le_value(b, 120, 2)
}

impl AtaDriver {
    /// Master drive, no IDENTIFY data yet.
    pub fn new() -> (r: Self)
        ensures
            r.active_drive == 0,
            r.identify_buf@ == seq![0u8; 512],
            r.lba28_total == 0,
    {
        let r = AtaDriver { active_drive: 0, identify_buf: [0u8; 512], lba28_total: 0 };
        assert(r.identify_buf@ =~= seq![0u8; 512]);
        r
    }

    /// Keep the IDENTIFY data read from the data port and take the LBA28
    /// sector count from it; whether the drive has any.
    pub fn apply_identify(&mut self, words: &[u16]) -> (r: bool)
        requires
            words@.len() == 256,
        ensures
            final(self).identify_buf@ == bytes_of_words(words@),
            final(self).lba28_total == identify_total(bytes_of_words(words@)),
            final(self).active_drive == old(self).active_drive,
            r == (final(self).lba28_total > 0),
    {
        let bytes = sector_from_words(words);
        let mut k: usize = 0;
        while k < 512
            invariant
                k <= 512,
                bytes@ == bytes_of_words(words@),
                self.active_drive == old(self).active_drive,
                forall|j: int| 0 <= j < k ==> #[trigger] self.identify_buf@[j] == bytes@[j],
            decreases 512 - k,
        {
            self.identify_buf[k] = bytes[k];
            k = k + 1;
        }
        assert(self.identify_buf@ =~= bytes@);
        let lo = read_le(&self.identify_buf, 120, 2);
        let hi = read_le(&self.identify_buf, 122, 2);
        proof {
            crate::root_file_system::lemma_le_value_bound(self.identify_buf@, 120, 2);
            crate::root_file_system::lemma_le_value_bound(self.identify_buf@, 122, 2);
            reveal_with_fuel(crate::root_file_system::pow256, 3);
        }
        self.lba28_total = (hi as u32) * 0x1_0000 + (lo as u32);
        self.lba28_total > 0
    }
}

} // verus!
