//! Display support: recognising AMD and Intel GPUs by PCI device id, PCI
//! configuration decoding, and the register values that program a
//! 1920x1080@60 mode. The register writes themselves belong to the caller;
//! the functions here compute them, in order.
use vstd::prelude::*;

verus! {

pub const AMD_VENDOR: u16 = 0x1002;

pub const INTEL_VENDOR: u16 = 0x8086;

/// AMD display core generation.
#[derive(Copy, Clone, PartialEq, Eq, Structural, Debug)]
pub enum DcnGen {
    Dcn2,
    Dcn3,
}

/// Intel display generation.
#[derive(Copy, Clone, PartialEq, Eq, Structural, Debug)]
pub enum IntelGen {
    /// Skylake, Kaby Lake, Coffee Lake.
    Gen9,
    /// Ice Lake.
    Gen11,
    /// Tiger Lake, Alder Lake, Raptor Lake.
    Gen12,
}

/// Output encoder mode (AMD).
#[derive(Copy, Clone, PartialEq, Eq, Structural, Debug)]
pub enum OutMode {
    Hdmi,
    Dp,
}

/// Output encoder mode (Intel).
#[derive(Copy, Clone, PartialEq, Eq, Structural, Debug)]
pub enum IntelOutMode {
    Hdmi,
    Dp,
}

pub struct AmdState {
    pub mmio: u64,
    pub gen: DcnGen,
    pub mode: OutMode,
    pub active: bool,
}

pub struct IntelState {
    pub mmio: u64,
    pub gen: IntelGen,
    pub mode: IntelOutMode,
    pub active: bool,
}

/// The AMD display generation of a PCI device id.
pub open spec fn dcn_gen_spec(did: u16) -> Option<DcnGen> {
    if (0x7310 <= did <= 0x731F) || (0x7340 <= did <= 0x7347) || did == 0x1636 || did == 0x1638 || did == 0x164C
        || did == 0x163F {
        Some(DcnGen::Dcn2)
    } else if did == 0x73BF || did == 0x73A5 || did == 0x73DF || did == 0x73FF || did == 0x73E3 || (0x7422 <= did
        <= 0x7423) || did == 0x1681 || did == 0x164D || did == 0x164E || did == 0x15BF || did == 0x15C8 || did
        == 0x15D8 || (0x1900 <= did <= 0x190F) {
        Some(DcnGen::Dcn3)
    } else {
        None
    }
}

/// AMD display generation of a device id; `None` for unsupported devices.
pub fn dcn_gen_from_did(did: u16) -> (r: Option<DcnGen>)
    ensures
        r == dcn_gen_spec(did),
{
    match did {
        0x7310..=0x731F => Some(DcnGen::Dcn2),
        0x7340..=0x7347 => Some(DcnGen::Dcn2),
        0x1636 => Some(DcnGen::Dcn2),
        0x1638 => Some(DcnGen::Dcn2),
        0x164C => Some(DcnGen::Dcn2),
        0x163F => Some(DcnGen::Dcn2),
        0x73BF | 0x73A5 => Some(DcnGen::Dcn3),
        0x73DF => Some(DcnGen::Dcn3),
        0x73FF | 0x73E3 => Some(DcnGen::Dcn3),
        0x7422..=0x7423 => Some(DcnGen::Dcn3),
        0x1681 | 0x164D => Some(DcnGen::Dcn3),
        0x164E => Some(DcnGen::Dcn3),
        0x15BF | 0x15C8 => Some(DcnGen::Dcn3),
        0x15D8 | 0x1900..=0x190F => Some(DcnGen::Dcn3),
        _ => None,
    }
}

/// The Intel display generation of a PCI device id.
pub open spec fn intel_gen_spec(did: u16) -> Option<IntelGen> {
    if did == 0x1902 || did == 0x1906 || did == 0x190A || did == 0x190B || did == 0x190E || did == 0x1912 || did
        == 0x1916 || did == 0x191A || did == 0x191B || did == 0x191D || did == 0x191E || did == 0x1921 || did
        == 0x1923 || did == 0x1926 || did == 0x1927 || did == 0x192B || did == 0x192D || did == 0x5902 || did
        == 0x5906 || did == 0x590A || did == 0x5908 || did == 0x590B || did == 0x590E || did == 0x5912 || did
        == 0x5916 || did == 0x591A || did == 0x591B || did == 0x591D || did == 0x591E || did == 0x5921 || did
        == 0x5923 || did == 0x5926 || did == 0x5927 || (0x3E90 <= did <= 0x3EFF) || did == 0x9B21 || did == 0x9B41
        || did == 0x9BA0 || did == 0x9BA2 || did == 0x9BA4 || did == 0x9BA8 || did == 0x9BC0 || did == 0x9BC2
        || did == 0x9BC4 || did == 0x9BC8 || did == 0x9BCA {
        Some(IntelGen::Gen9)
    } else if 0x8A50 <= did <= 0x8A5F {
        Some(IntelGen::Gen11)
    } else if did == 0x9A40 || did == 0x9A49 || did == 0x9A60 || did == 0x9A68 || did == 0x9A70 || did == 0x9A78
        || did == 0x4680 || did == 0x4682 || did == 0x4688 || did == 0x468A || did == 0x4690 || did == 0x4692
        || did == 0x4693 || did == 0xA720 || did == 0xA721 || did == 0xA780 || did == 0xA781 || did == 0xA782
        || did == 0xA783 || did == 0xA788 || did == 0xA789 {
        Some(IntelGen::Gen12)
    } else {
        None
    }
}

/// Intel display generation of a device id; `None` for unsupported devices.
pub fn intel_gen_from_did(did: u16) -> (r: Option<IntelGen>)
    ensures
        r == intel_gen_spec(did),
{
    match did {
        0x1902 | 0x1906 | 0x190A | 0x190B | 0x190E => Some(IntelGen::Gen9),
        0x1912 | 0x1916 | 0x191A | 0x191B | 0x191D | 0x191E => Some(IntelGen::Gen9),
        0x1921 | 0x1923 | 0x1926 | 0x1927 | 0x192B | 0x192D => Some(IntelGen::Gen9),
        0x5902 | 0x5906 | 0x590A | 0x5908 | 0x590B | 0x590E => Some(IntelGen::Gen9),
        0x5912 | 0x5916 | 0x591A | 0x591B | 0x591D | 0x591E => Some(IntelGen::Gen9),
        0x5921 | 0x5923 | 0x5926 | 0x5927 => Some(IntelGen::Gen9),
        0x3E90..=0x3EFF => Some(IntelGen::Gen9),
        0x9B21 | 0x9B41 | 0x9BA0 | 0x9BA2 | 0x9BA4 | 0x9BA8 => Some(IntelGen::Gen9),
        0x9BC0 | 0x9BC2 | 0x9BC4 | 0x9BC8 | 0x9BCA => Some(IntelGen::Gen9),
        0x8A50..=0x8A5F => Some(IntelGen::Gen11),
        0x9A40 | 0x9A49 | 0x9A60 | 0x9A68 | 0x9A70 | 0x9A78 => Some(IntelGen::Gen12),
        0x4680 | 0x4682 | 0x4688 | 0x468A | 0x4690 | 0x4692 | 0x4693 => Some(IntelGen::Gen12),
        0xA720 | 0xA721 | 0xA780 | 0xA781 | 0xA782 | 0xA783 | 0xA788 | 0xA789 => Some(IntelGen::Gen12),
        _ => None,
    }
}

/// A supported GPU found on the PCI bus.
#[derive(Copy, Clone, PartialEq, Eq, Structural, Debug)]
pub enum GpuKind {
    Amd(DcnGen),
    Intel(IntelGen),
}

/// Decide from a function's vendor, device and class code whether it is a
/// display controller this kernel drives.
pub fn classify_gpu(vendor: u16, device: u16, class: u8) -> (r: Option<GpuKind>)
    ensures
        r == if class != 0x03 {
            None
        } else if vendor == AMD_VENDOR && dcn_gen_spec(device) is Some {
            Some(GpuKind::Amd(dcn_gen_spec(device)->0))
        } else if vendor == INTEL_VENDOR && intel_gen_spec(device) is Some {
            Some(GpuKind::Intel(intel_gen_spec(device)->0))
        } else {
            None
        },
{
    if class != 0x03 {
        return None;
    }
    if vendor == AMD_VENDOR {
        if let Some(gen) = dcn_gen_from_did(device) {
            return Some(GpuKind::Amd(gen));
        }
    }
    if vendor == INTEL_VENDOR {
        if let Some(gen) = intel_gen_from_did(device) {
            return Some(GpuKind::Intel(gen));
        }
    }
    None
}

// ── PCI configuration space ──────────────────────────────────────────────────

/// Address written to the configuration address port for a register.
pub fn pci_config_addr(bus: u8, dev: u8, fun: u8, off: u8) -> (r: u32)
    ensures
        r == 0x8000_0000u32 | ((bus as u32) << 16u32) | ((dev as u32) << 11u32) | ((fun as u32) << 8u32) | (
        off as u32 & 0xFC),
{
    0x8000_0000u32 | (bus as u32) << 16 | (dev as u32) << 11 | (fun as u32) << 8 | (off as u32 & 0xFC)
}

/// The byte at offset `o` from the dword read at `o & !3` (byte `o % 4`
/// of it).
pub fn pci_byte(word: u32, o: u8) -> (r: u8)
    ensures
        r == (word >> (((o % 4) as u32) * 8)) as u8,
{
    (word >> ((o % 4) as u32 * 8)) as u8
}

/// The 16-bit value at offset `o` from the dword read at `o & !3` (its
/// upper half when bit 1 of `o` is set).
pub fn pci_half(word: u32, o: u8) -> (r: u16)
    ensures
        r == (word >> ((((o / 2) % 2) * 2) as u32 * 8)) as u16,
{
    (word >> ((((o / 2) % 2) * 2) as u32 * 8)) as u16
}

/// Decode a memory BAR from its low dword and, for a 64-bit BAR, the high
/// dword: `None` for an I/O BAR or a zero address.
pub fn bar64_decode(lo: u32, hi: u32) -> (r: Option<u64>)
    ensures
        lo & 1 != 0 ==> r is None,
        lo & 1 == 0 ==> {
            let a = if (lo >> 1u32) & 3 == 2 { ((hi as u64) << 32u64) | (lo as u64 & !0xFu64) } else { lo as u64 & !0xFu64 };
            r == if a == 0 { None } else { Some(a) }
        },
{
    if lo & 1 != 0 {
        return None;
    }
    let a = if (lo >> 1) & 3 == 2 { ((hi as u64) << 32) | (lo as u64 & !0xF) } else { lo as u64 & !0xF };
    if a == 0 {
        None
    } else {
        Some(a)
    }
}

/// Colour of bar `k` of the test pattern.
pub open spec fn bar_color(k: int) -> u32 {
    if k == 0 {
        0x00_000000u32
    } else if k == 1 {
        0x00_FF0000u32
    } else if k == 2 {
        0x00_FF7F00u32
    } else if k == 3 {
        0x00_FFFF00u32
    } else if k == 4 {
        0x00_00FF00u32
    } else if k == 5 {
        0x00_00FFFFu32
    } else if k == 6 {
        0x00_0000FFu32
    } else {
        0x00_FFFFFFu32
    }
}

/// Colour of column `x` of the test pattern on a screen `w` pixels wide:
/// eight vertical bars, black to white.
pub fn test_pattern_color(x: usize, w: usize) -> (r: u32)
    requires
        w > 0,
        x * 8 <= usize::MAX,
    ensures
        r == bar_color((x * 8) / w as int),
{
    match (x * 8) / w {
        0 => 0x00_000000u32,
        1 => 0x00_FF0000,
        2 => 0x00_FF7F00,
        3 => 0x00_FFFF00,
        4 => 0x00_00FF00,
        5 => 0x00_00FFFF,
        6 => 0x00_0000FF,
        _ => 0x00_FFFFFF,
    }
}

// ── Mode timing ──────────────────────────────────────────────────────────────

#[derive(Copy, Clone)]
pub struct Timing {
    pub h_total: u32,
    pub h_active: u32,
    pub h_blank_start: u32,
    pub h_blank_end: u32,
    pub h_sync_start: u32,
    pub h_sync_end: u32,
    pub h_sync_pos: bool,
    pub v_total: u32,
    pub v_active: u32,
    pub v_blank_start: u32,
    pub v_blank_end: u32,
    pub v_sync_start: u32,
    pub v_sync_end: u32,
    pub v_sync_pos: bool,
    pub pixel_khz: u32,
}

/// 1920x1080 at 60 Hz (CEA-861, 148.5 MHz).
pub fn t_1080p60() -> (r: Timing)
    ensures
        r == (Timing {
            h_total: 2200,
            h_active: 1920,
            h_blank_start: 1920,
            h_blank_end: 2200,
            h_sync_start: 2008,
            h_sync_end: 2052,
            h_sync_pos: true,
            v_total: 1125,
            v_active: 1080,
            v_blank_start: 1080,
            v_blank_end: 1125,
            v_sync_start: 1084,
            v_sync_end: 1089,
            v_sync_pos: true,
            pixel_khz: 148_500,
        }),
{
    Timing {
        h_total: 2200,
        h_active: 1920,
        h_blank_start: 1920,
        h_blank_end: 2200,
        h_sync_start: 2008,
        h_sync_end: 2052,
        h_sync_pos: true,
        v_total: 1125,
        v_active: 1080,
        v_blank_start: 1080,
        v_blank_end: 1125,
        v_sync_start: 1084,
        v_sync_end: 1089,
        v_sync_pos: true,
        pixel_khz: 148_500,
    }
}

/// One register write: byte offset from the MMIO base and value.
#[derive(Copy, Clone, PartialEq, Eq, Structural, Debug)]
pub struct RegWrite {
    pub off: u32,
    pub val: u32,
}

/// Pack two 1-based counts as `(hi - 1) << 16 | (lo - 1)`.
pub open spec fn pack_minus_one(hi: u32, lo: u32) -> u32 {
    ((((hi - 1) as u32) << 16u32) | ((lo - 1) as u32)) as u32
}

fn pack_m1(hi: u32, lo: u32) -> (r: u32)
    requires
        hi >= 1,
        lo >= 1,
    ensures
        r == pack_minus_one(hi, lo),
{
    ((hi - 1) << 16) | (lo - 1)
}

/// The Intel pipe A timing registers for `t`, in the order they are
/// written: H total, H blank, H sync, V total, V blank, V sync, source size.
pub fn intel_pipe_timing_writes(t: &Timing) -> (r: Vec<RegWrite>)
    requires
        t.h_total >= 1 && t.h_active >= 1 && t.h_blank_start >= 1 && t.h_blank_end >= 1 && t.h_sync_start >= 1
            && t.h_sync_end >= 1,
        t.v_total >= 1 && t.v_active >= 1 && t.v_blank_start >= 1 && t.v_blank_end >= 1 && t.v_sync_start >= 1
            && t.v_sync_end >= 1,
    ensures
        r@ == seq![
            RegWrite { off: 0x60000, val: pack_minus_one(t.h_total, t.h_active) },
            RegWrite { off: 0x60004, val: pack_minus_one(t.h_blank_end, t.h_blank_start) },
            RegWrite { off: 0x60008, val: pack_minus_one(t.h_sync_end, t.h_sync_start) },
            RegWrite { off: 0x6000C, val: pack_minus_one(t.v_total, t.v_active) },
            RegWrite { off: 0x60010, val: pack_minus_one(t.v_blank_end, t.v_blank_start) },
            RegWrite { off: 0x60014, val: pack_minus_one(t.v_sync_end, t.v_sync_start) },
            RegWrite { off: 0x6001C, val: pack_minus_one(t.h_active, t.v_active) },
        ],
{
    let mut r: Vec<RegWrite> = Vec::new();
    r.push(RegWrite { off: 0x60000, val: pack_m1(t.h_total, t.h_active) });
    r.push(RegWrite { off: 0x60004, val: pack_m1(t.h_blank_end, t.h_blank_start) });
    r.push(RegWrite { off: 0x60008, val: pack_m1(t.h_sync_end, t.h_sync_start) });
    r.push(RegWrite { off: 0x6000C, val: pack_m1(t.v_total, t.v_active) });
    r.push(RegWrite { off: 0x60010, val: pack_m1(t.v_blank_end, t.v_blank_start) });
    r.push(RegWrite { off: 0x60014, val: pack_m1(t.v_sync_end, t.v_sync_start) });
    r.push(RegWrite { off: 0x6001C, val: pack_m1(t.h_active, t.v_active) });
    assert(r@ =~= seq![
        RegWrite { off: 0x60000, val: pack_minus_one(t.h_total, t.h_active) },
        RegWrite { off: 0x60004, val: pack_minus_one(t.h_blank_end, t.h_blank_start) },
        RegWrite { off: 0x60008, val: pack_minus_one(t.h_sync_end, t.h_sync_start) },
        RegWrite { off: 0x6000C, val: pack_minus_one(t.v_total, t.v_active) },
        RegWrite { off: 0x60010, val: pack_minus_one(t.v_blank_end, t.v_blank_start) },
        RegWrite { off: 0x60014, val: pack_minus_one(t.v_sync_end, t.v_sync_start) },
        RegWrite { off: 0x6001C, val: pack_minus_one(t.h_active, t.v_active) },
    ]);
    r
}

/// `hi << 16 | lo`.
pub open spec fn pack_pair(hi: u32, lo: u32) -> u32 {
    ((hi << 16u32) | lo) as u32
}

/// The AMD output timing generator registers for `t` at `otg_base`, in the
/// order they are written.
pub fn amd_otg_timing_writes(otg_base: u32, t: &Timing) -> (r: Vec<RegWrite>)
    requires
        t.h_total >= 1,
        t.v_total >= 1,
        otg_base + 0x34 <= u32::MAX,
    ensures
        r@ == seq![
            RegWrite { off: (otg_base + 0x00) as u32, val: (t.h_total - 1) as u32 },
            RegWrite { off: (otg_base + 0x04) as u32, val: pack_pair(t.h_blank_end, t.h_blank_start) },
            RegWrite { off: (otg_base + 0x08) as u32, val: pack_pair(t.h_sync_end, t.h_sync_start) },
            RegWrite { off: (otg_base + 0x0C) as u32, val: if t.h_sync_pos { 0u32 } else { 1u32 } },
            RegWrite { off: (otg_base + 0x18) as u32, val: (t.v_total - 1) as u32 },
            RegWrite { off: (otg_base + 0x1C) as u32, val: pack_pair(t.v_blank_end, t.v_blank_start) },
            RegWrite { off: (otg_base + 0x20) as u32, val: pack_pair(t.v_sync_end, t.v_sync_start) },
            RegWrite { off: (otg_base + 0x24) as u32, val: if t.v_sync_pos { 0u32 } else { 1u32 } },
            RegWrite { off: (otg_base + 0x30) as u32, val: 0 },
            RegWrite { off: (otg_base + 0x34) as u32, val: 0 },
        ],
{
    let mut r: Vec<RegWrite> = Vec::new();
    r.push(RegWrite { off: otg_base + 0x00, val: t.h_total - 1 });
    r.push(RegWrite { off: otg_base + 0x04, val: (t.h_blank_end << 16) | t.h_blank_start });
    r.push(RegWrite { off: otg_base + 0x08, val: (t.h_sync_end << 16) | t.h_sync_start });
    r.push(RegWrite { off: otg_base + 0x0C, val: if t.h_sync_pos { 0 } else { 1 } });
    r.push(RegWrite { off: otg_base + 0x18, val: t.v_total - 1 });
    r.push(RegWrite { off: otg_base + 0x1C, val: (t.v_blank_end << 16) | t.v_blank_start });
    r.push(RegWrite { off: otg_base + 0x20, val: (t.v_sync_end << 16) | t.v_sync_start });
    r.push(RegWrite { off: otg_base + 0x24, val: if t.v_sync_pos { 0 } else { 1 } });
    r.push(RegWrite { off: otg_base + 0x30, val: 0 });
    r.push(RegWrite { off: otg_base + 0x34, val: 0 });
    r
}

/// The Intel DDI port A buffer and transcoder function control words for
/// an output mode.
pub fn intel_ddi_words(mode: IntelOutMode) -> (r: (u32, u32))
    ensures
        r.0 == (0x8000_0000u32 | 0x6u32 | if mode == IntelOutMode::Dp { 0u32 } else { 0x200u32 }),
        r.1 == (0x8000_0000u32 | if mode == IntelOutMode::Dp { 0x0200_0000u32 } else { 0u32 }),
{
    let buf_ctl = 0x8000_0000u32 | 0x6u32 | if mode == IntelOutMode::Dp { 0 } else { 0x200u32 };
    let func = 0x8000_0000u32 | if mode == IntelOutMode::Dp { 0x0200_0000u32 } else { 0u32 };
    (buf_ctl, func)
}

/// Bytes of an AUX transaction on a buffer of `n` bytes: at most 16.
pub fn aux_len(n: usize) -> (r: u32)
    ensures
        r == if n < 16 { n } else { 16 },
{
    if n < 16 {
        n as u32
    } else {
        16
    }
}

/// AUX request word: command (8 = write, 9 = read) in bits 28..32, the
/// 20-bit DPCD address in bits 8..28 and `len - 1` in the low bits.
pub fn aux_request(addr: u32, write: bool, len: u32) -> (r: u32)
    requires
        1 <= len <= 16,
    ensures
        r == (((if write { 0x8u32 } else { 0x9u32 }) << 28u32) | ((addr & 0xF_FFFF) << 8u32) | ((len - 1) as u32)),
{
    let cmd: u32 = if write { 0x8 } else { 0x9 };
    (cmd << 28) | ((addr & 0xF_FFFF) << 8) | (len - 1)
}

/// Link rate and lane count to train at: the sink's maximum rate capped at
/// HBR2 (0x14) and its lane count (low five bits) capped at 4.
pub fn dp_link_params(max_rate: u8, max_lanes_raw: u8) -> (r: (u8, u8))
    ensures
        r.0 == if max_rate < 0x14 { max_rate } else { 0x14u8 },
        r.1 == if (max_lanes_raw & 0x1F) < 4 { max_lanes_raw & 0x1F } else { 4u8 },
{
    let lanes = max_lanes_raw & 0x1F;
    let rate = if max_rate < 0x14 { max_rate } else { 0x14 };
    let l = if lanes < 4 { lanes } else { 4 };
    (rate, l)
}

/// Clock recovery is done when every trained lane reports it (lanes 0 and
/// 1 in the status byte).
pub fn dp_cr_done(status: u8, lanes: u8) -> (r: bool)
    ensures
        r == ((status & (if lanes >= 2 { 0x11u8 } else { 0x01u8 })) == (if lanes >= 2 { 0x11u8 } else { 0x01u8 })),
{
    let mask: u8 = if lanes >= 2 { 0x11 } else { 0x01 };
    status & mask == mask
}

/// Channel equalisation is done when every trained lane reports clock
/// recovery, equalisation and symbol lock, and the lanes are aligned.
pub fn dp_eq_done(status: u8, align: u8, lanes: u8) -> (r: bool)
    ensures
        r == ((status & (if lanes >= 2 { 0x77u8 } else { 0x07u8 })) == (if lanes >= 2 { 0x77u8 } else { 0x07u8 })
            && align & 1 != 0),
{
    let mask: u8 = if lanes >= 2 { 0x77 } else { 0x07 };
    status & mask == mask && align & 1 != 0
}

/// Hot-plug state of Intel ports A and B from the south display interrupt
/// status.
pub fn intel_hpd_decode(isr: u32) -> (r: (bool, bool))
    ensures
        r == (isr & 0x100 != 0, isr & 0x200 != 0),
{
    (isr & 0x100 != 0, isr & 0x200 != 0)
}

/// Register holding the hot-plug status of AMD port `port`.
pub fn amd_hpd_status_reg(port: u32) -> (r: u32)
    requires
        port <= 0x1000,
    ensures
        r == 0x4A80 * 4 + port * 0x20 + 0x04,
{
    0x4A80 * 4 + port * 0x20 + 0x04
}

/// Pages of the Intel register BAR to map: 4 MiB on Gen9, 2 MiB after.
pub fn intel_bar_pages(gen: IntelGen) -> (r: usize)
    ensures
        r == if gen == IntelGen::Gen9 { 1024usize } else { 512usize },
{
    if gen == IntelGen::Gen9 {
        1024
    } else {
        512
    }
}

} // verus!
