//! ATA PIO sector transfer: the decisions of the polling loops, the LBA28
//! register values, the byte order of sector data, and how many sectors a
//! write needs. The port I/O is the caller's.
use vstd::prelude::*;

verus! {

pub const STATUS_BSY: u8 = 0x80;
pub const STATUS_DRQ: u8 = 0x08;
pub const STATUS_ERR: u8 = 0x01;

/// Polls before a wait gives up.
pub const WAIT_LIMIT: u32 = 0x10_0000;

#[derive(Copy, Clone, PartialEq, Eq, Structural, Debug)]
pub enum AtaError {
    Timeout,
    DiskError,
    TooLarge,
}

/// What a polling loop does after reading the status register.
#[derive(Copy, Clone, PartialEq, Eq, Structural, Debug)]
pub enum Wait {
    Done,
    Fail(AtaError),
    /// Poll again with this count.
    Again(u32),
}

/// One poll of "wait until ready": neither busy nor requesting data is
/// done; an error bit fails; otherwise the count grows and passing the
/// limit times out.
pub fn wait_ready_step(status: u8, count: u32) -> (r: Wait)
    requires
        count <= WAIT_LIMIT,
    ensures
        r == if status & STATUS_BSY == 0 && status & STATUS_DRQ == 0 {
            Wait::Done
        } else if status & STATUS_ERR != 0 {
            Wait::Fail(AtaError::DiskError)
        } else if count + 1 > WAIT_LIMIT {
            Wait::Fail(AtaError::Timeout)
        } else {
            Wait::Again((count + 1) as u32)
        },
{
    if status & STATUS_BSY == 0 && status & STATUS_DRQ == 0 {
        return Wait::Done;
    }
    if status & STATUS_ERR != 0 {
        return Wait::Fail(AtaError::DiskError);
    }
    let c = count + 1;
    if c > WAIT_LIMIT {
        return Wait::Fail(AtaError::Timeout);
    }
    Wait::Again(c)
}

/// One poll of "wait for data request": the request bit is done; an error
/// bit fails; otherwise the count grows and passing the limit times out.
pub fn wait_drq_step(status: u8, count: u32) -> (r: Wait)
    requires
        count <= WAIT_LIMIT,
    ensures
        r == if status & STATUS_DRQ != 0 {
            Wait::Done
        } else if status & STATUS_ERR != 0 {
            Wait::Fail(AtaError::DiskError)
        } else if count + 1 > WAIT_LIMIT {
            Wait::Fail(AtaError::Timeout)
        } else {
            Wait::Again((count + 1) as u32)
        },
{
    if status & STATUS_DRQ != 0 {
        return Wait::Done;
    }
    if status & STATUS_ERR != 0 {
        return Wait::Fail(AtaError::DiskError);
    }
    let c = count + 1;
    if c > WAIT_LIMIT {
        return Wait::Fail(AtaError::Timeout);
    }
    Wait::Again(c)
}

/// Values for the drive, error, sector-count and three LBA registers
/// (in that order) of an LBA28 transfer.
pub fn lba28_regs(lba: u64, count: u8) -> (r: [u8; 6])
    ensures
        r@ == seq![
            (0xE0u8 | (((lba >> 24u64) as u8) & 0x0Fu8)) as u8,
            0u8,
            count,
            (lba & 0xFF) as u8,
            ((lba >> 8u64) & 0xFF) as u8,
            ((lba >> 16u64) & 0xFF) as u8,
        ],
{
    let r: [u8; 6] = [
        0xE0 | ((lba >> 24) as u8 & 0x0F),
        0x00,
        count,
        (lba & 0xFF) as u8,
        ((lba >> 8) & 0xFF) as u8,
        ((lba >> 16) & 0xFF) as u8,
    ];
    assert(r@ =~= seq![
        (0xE0u8 | (((lba >> 24u64) as u8) & 0x0Fu8)) as u8,
        0u8,
        count,
        (lba & 0xFF) as u8,
        ((lba >> 8u64) & 0xFF) as u8,
        ((lba >> 16u64) & 0xFF) as u8,
    ]);
    r
}

/// The 512 bytes of a sector read as 256 little-endian words.
pub open spec fn bytes_of_words(w: Seq<u16>) -> Seq<u8> {
    Seq::new(512, |k: int| if k % 2 == 0 { (w[k / 2] % 256) as u8 } else { (w[k / 2] / 256) as u8 })
}

/// The 256 words written for a sector, each two bytes little-endian.
pub open spec fn words_of_bytes(b: Seq<u8>) -> Seq<u16> {
    Seq::new(256, |i: int| (b[2 * i] + 256 * b[2 * i + 1]) as u16)
}

/// Sector bytes from the 256 words read from the data port.
pub fn sector_from_words(words: &[u16]) -> (r: Vec<u8>)
    requires
        words@.len() == 256,
    ensures
        r@ == bytes_of_words(words@),
{
    let mut out: Vec<u8> = Vec::new();
    let mut i: usize = 0;
    while i < 256
        invariant
            i <= 256,
            words@.len() == 256,
            out@.len() == 2 * i,
            forall|k: int| 0 <= k < 2 * i ==> #[trigger] out@[k] == bytes_of_words(words@)[k],
        decreases 256 - i,
    {
        let w = words[i];
        out.push((w % 256) as u8);
        out.push((w / 256) as u8);
        i = i + 1;
    }
    assert(out@ =~= bytes_of_words(words@));
    out
}

/// The 256 words to write to the data port for a sector.
pub fn sector_words(buf: &[u8]) -> (r: Vec<u16>)
    requires
        buf@.len() == 512,
    ensures
        r@ == words_of_bytes(buf@),
{
    let mut out: Vec<u16> = Vec::new();
    let mut i: usize = 0;
    while i < 256
        invariant
            i <= 256,
            buf@.len() == 512,
            out@.len() == i,
            forall|k: int| 0 <= k < i ==> #[trigger] out@[k] == words_of_bytes(buf@)[k],
        decreases 256 - i,
    {
        out.push(buf[2 * i] as u16 + 256 * buf[2 * i + 1] as u16);
        i = i + 1;
    }
    assert(out@ =~= words_of_bytes(buf@));
    out
}

/// Sectors needed for `len` bytes, or `TooLarge` past `max_sectors`.
pub fn sectors_needed(len: usize, max_sectors: u32) -> (r: Result<u32, AtaError>)
    requires
        len + 511 <= usize::MAX,
    ensures
        (len + 511) / 512 > max_sectors ==> r == Err::<u32, AtaError>(AtaError::TooLarge),
        (len + 511) / 512 <= max_sectors ==> r == Ok::<u32, AtaError>(((len + 511) / 512) as u32),
{
    let n = (len + 511) / 512;
    if n > max_sectors as usize {
        return Err(AtaError::TooLarge);
    }
    Ok(n as u32)
}

/// The `i`-th sector of `data`: its next 512 bytes, zero-padded.
pub open spec fn chunk_spec(data: Seq<u8>, i: int) -> Seq<u8> {
    Seq::new(512, |k: int| if 512 * i + k < data.len() { data[512 * i + k] } else { 0u8 })
}

/// The `i`-th sector written for `data`.
pub fn sector_chunk(data: &[u8], i: usize) -> (r: Vec<u8>)
    requires
        512 * i + 512 <= usize::MAX,
    ensures
        r@ == chunk_spec(data@, i as int),
{
    let mut out: Vec<u8> = Vec::new();
    let base = 512 * i;
    let mut k: usize = 0;
    while k < 512
        invariant
            k <= 512,
            base == 512 * i,
            base + 512 <= usize::MAX,
            out@.len() == k,
            forall|t: int| 0 <= t < k ==> #[trigger] out@[t] == chunk_spec(data@, i as int)[t],
        decreases 512 - k,
    {
        if base + k < data.len() {
            out.push(data[base + k]);
        } else {
            out.push(0);
        }
        k = k + 1;
    }
    assert(out@ =~= chunk_spec(data@, i as int));
    out
}

/// Law: turning a sector into the words written to the data port and the
/// words read back into bytes gives the sector again, and the other way
/// round.
pub proof fn law_sector_words_roundtrip(b: Seq<u8>, w: Seq<u16>)
    requires
        b.len() == 512,
        w.len() == 256,
    ensures
        bytes_of_words(words_of_bytes(b)) == b,
        words_of_bytes(bytes_of_words(w)) == w,
{
    assert forall|k: int| 0 <= k < 512 implies #[trigger] bytes_of_words(words_of_bytes(b))[k] == b[k] by {
        let i = k / 2;
        let x = b[2 * i] as int;
        let y = b[2 * i + 1] as int;
        assert((x + 256 * y) % 256 == x && (x + 256 * y) / 256 == y) by (nonlinear_arith)
            requires
                0 <= x < 256,
                0 <= y < 256,
        ;
    }
    assert(bytes_of_words(words_of_bytes(b)) =~= b);
    assert forall|i: int| 0 <= i < 256 implies #[trigger] words_of_bytes(bytes_of_words(w))[i] == w[i] by {
        let v = w[i] as int;
        assert((v % 256) + 256 * (v / 256) == v) by (nonlinear_arith)
            requires
                0 <= v,
        ;
        assert(2 * i % 2 == 0 && (2 * i + 1) % 2 == 1 && (2 * i) / 2 == i && (2 * i + 1) / 2 == i);
    }
    assert(words_of_bytes(bytes_of_words(w)) =~= w);
}

} // verus!
