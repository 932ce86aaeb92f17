//! Installation: the boot loader's module list, the sectors each image
//! takes, the install header, and whether a disk still needs installing.
use vstd::prelude::*;
use crate::root_file_system::{le_value, read_le32};
use crate::root_file_system::ata::{AtaError, sectors_needed};
use crate::root_file_system::layout::{
    InstallHeader, SegmentSlot, magic, magic_spec, seg_kernel, seg_devspace, seg_fsserver, seg_userspace,
};

verus! {

/// `x` rounded up to a multiple of 8.
pub open spec fn round8(x: int) -> int {
    ((x + 7) / 8) * 8
}

/// The modules (start, end) listed from tag offset `off` of a multiboot 2
/// information block `b` of `total` bytes, after `acc`: tags are walked
/// until the end tag (type 0), the end of the block, a tag that does not
/// fit in `b`, or four modules; a module tag (type 3) counts when its end
/// lies past its start; each tag advances by its size rounded up to 8 (a
/// size of 0 ends the walk).
pub open spec fn mods_from(b: Seq<u8>, off: int, total: int, acc: Seq<(u64, u64)>) -> Seq<(u64, u64)>
    decreases (if off < total { total - off } else { 0 }),
{
    if off >= total || acc.len() >= 4 || off < 0 || off + 8 > b.len() {
        acc
    } else {
        let typ = le_value(b, off, 4);
        let sz = le_value(b, off + 4, 4);
        if typ == 0 {
            acc
        } else {
            let acc2 = if typ == 3 && off + 16 <= b.len() && le_value(b, off + 12, 4) > le_value(b, off + 8, 4) {
                acc.push((le_value(b, off + 8, 4) as u64, le_value(b, off + 12, 4) as u64))
            } else {
                acc
            };
            let step = round8(sz);
            if step <= 0 {
                acc2
            } else {
                mods_from(b, off + step, total, acc2)
            }
        }
    }
}

/// The modules listed in the information block `b` (empty when `b` is too
/// short for its header); the walk starts after the 8-byte header.
pub open spec fn modules_of(b: Seq<u8>) -> Seq<(u64, u64)> {
    if b.len() < 8 {
        Seq::empty()
    } else {
        mods_from(b, 8, le_value(b, 0, 4), Seq::empty())
    }
}

proof fn lemma_le32_bound(b: Seq<u8>, i: int)
    requires
        0 <= i,
        i + 4 <= b.len(),
    ensures
        0 <= le_value(b, i, 4) < 0x1_0000_0000,
{
    reveal_with_fuel(le_value, 5);
}

/// Up to four modules (start, end) from a multiboot 2 information block.
pub fn collect_modules(info: &[u8]) -> (out: [Option<(u64, u64)>; 4])
    ensures
        forall|k: int|
            0 <= k < 4 ==> #[trigger] out@[k] == if k < modules_of(info@).len() {
                Some(modules_of(info@)[k])
            } else {
                None
            },
{
    let mut out: [Option<(u64, u64)>; 4] = [None; 4];
    if info.len() < 8 {
        return out;
    }
    let total = read_le32(info, 0) as u64;
    let mut off: u64 = 8;
    let mut idx: usize = 0;
    let mut done = false;
    let ghost mut acc: Seq<(u64, u64)> = Seq::empty();
    while !done && off < total && idx < 4
        invariant
            info@.len() >= 8,
            total == le_value(info@, 0, 4),
            total < 0x1_0000_0000,
            8 <= off <= total + 0x1_0000_0010,
            idx == acc.len(),
            idx <= 4,
            !done ==> mods_from(info@, off as int, total as int, acc) == modules_of(info@),
            done ==> acc == modules_of(info@),
            forall|k: int| 0 <= k < 4 ==> #[trigger] out@[k] == if k < idx { Some(acc[k]) } else { None },
        decreases (if off < total { total - off } else { 0 }), (if done { 0int } else { 1int }),
    {
        let ghost acc0 = acc;
        let ghost off0 = off as int;
        if off + 8 > info.len() as u64 {
            done = true;
            assert(mods_from(info@, off0, total as int, acc0) == acc0);
        } else {
            let o = off as usize;
            let typ = read_le32(info, o);
            let sz = read_le32(info, o + 4);
            if typ == 0 {
                done = true;
                assert(mods_from(info@, off0, total as int, acc0) == acc0);
            } else {
                if typ == 3 && info.len() - o >= 16 {
                    let start = read_le32(info, o + 8);
                    let end = read_le32(info, o + 12);
                    if end > start {
                        out[idx] = Some((start as u64, end as u64));
                        proof {
                            acc = acc.push((start as u64, end as u64));
                        }
                        idx = idx + 1;
                    }
                }
                let step = (sz as u64 + 7) / 8 * 8;
                proof {
                    assert(step == round8(le_value(info@, off0 + 4, 4)));
                    let acc2 = if typ == 3 && off0 + 16 <= info@.len() && le_value(info@, off0 + 12, 4) > le_value(
                        info@,
                        off0 + 8,
                        4,
                    ) {
                        acc0.push((le_value(info@, off0 + 8, 4) as u64, le_value(info@, off0 + 12, 4) as u64))
                    } else {
                        acc0
                    };
                    assert(acc == acc2);
                }
                if step == 0 {
                    done = true;
                    assert(mods_from(info@, off0, total as int, acc0) == acc);
                } else {
                    off = off + step;
                    assert(mods_from(info@, off0, total as int, acc0) == mods_from(info@, off as int, total as int, acc));
                }
            }
        }
    }
    proof {
        if !done {
            assert(mods_from(info@, off as int, total as int, acc) == acc);
        }
    }
    out
}

/// Sectors written per image.
pub struct InstallResult {
    pub kernel_sectors: u32,
    pub devspace_sectors: u32,
    pub fsserver_sectors: u32,
    pub userspace_sectors: u32,
}

/// Sectors an image takes in its segment: none when it is absent, else
/// as the sector write needs (or `TooLarge`).
pub fn image_sectors(module: Option<(u64, u64)>, seg: SegmentSlot) -> (r: Result<u32, AtaError>)
    requires
        module matches Some((s, e)) ==> s <= e && e - s + 511 <= usize::MAX,
    ensures
        module is None ==> r == Ok::<u32, AtaError>(0),
        module matches Some((s, e)) ==> ((e - s + 511) / 512 > seg.max_sectors ==> r == Err::<u32, AtaError>(
            AtaError::TooLarge,
        )) && ((e - s + 511) / 512 <= seg.max_sectors ==> r == Ok::<u32, AtaError>(((e - s + 511) / 512) as u32)),
{
    match module {
        None => Ok(0),
        Some((s, e)) => sectors_needed((e - s) as usize, seg.max_sectors),
    }
}

/// The header written after the images: the magic, each segment's first
/// sector and the sectors written to it, zero padding.
pub fn install_header(k: u32, d: u32, f: u32, u: u32) -> (r: InstallHeader)
    ensures
        r.magic@ == magic_spec(),
        r.kernel_lba == 2048 && r.kernel_sectors == k,
        r.devspace_lba == 16384 && r.devspace_sectors == d,
        r.fsserver_lba == 32768 && r.fsserver_sectors == f,
        r.userspace_lba == 49152 && r.userspace_sectors == u,
        r._pad@ == seq![0u8; 456],
{
    let r = InstallHeader {
        magic: magic(),
        kernel_lba: seg_kernel().lba_start,
        kernel_sectors: k,
        devspace_lba: seg_devspace().lba_start,
        devspace_sectors: d,
        fsserver_lba: seg_fsserver().lba_start,
        fsserver_sectors: f,
        userspace_lba: seg_userspace().lba_start,
        userspace_sectors: u,
        _pad: [0u8; 456],
    };
    assert(r._pad@ =~= seq![0u8; 456]);
    r
}

/// A disk needs installing unless its header sector starts with the magic.
pub fn install_needed(sector: &[u8]) -> (r: bool)
    requires
        sector@.len() >= 8,
    ensures
        r == (sector@.subrange(0, 8) != magic_spec()),
{
    let m = magic();
    let mut i: usize = 0;
    while i < 8
        invariant
            i <= 8,
            sector@.len() >= 8,
            m@ == magic_spec(),
            forall|k: int| 0 <= k < i ==> sector@[k] == m@[k],
        decreases 8 - i,
    {
        if sector[i] != m[i] {
            assert(sector@.subrange(0, 8)[i as int] != magic_spec()[i as int]);
            return true;
        }
        i = i + 1;
    }
    assert(sector@.subrange(0, 8) =~= magic_spec());
    false
}

/// Law: a disk whose header sector was written from a header carrying the
/// install magic does not need installing again.
pub proof fn law_installed_header_is_recognised(h: InstallHeader)
    requires
        h.magic@ == magic_spec(),
    ensures
        h.image().len() >= 8,
        h.image().subrange(0, 8) == magic_spec(),
{
    assert(h.image().subrange(0, 8) =~= h.magic@);
}

} // verus!
