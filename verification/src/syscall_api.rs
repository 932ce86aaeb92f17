//! System call numbers, error codes and the structures shared with user space.
use vstd::prelude::*;

pub mod err;
pub mod nr;
pub mod spawn_flags;

verus! {

/// Arguments of the SPAWN system call.
pub struct SpawnArgs {
    pub entry: u64,
    pub arg: u64,
    pub stack_sz: u32,
    pub flags: u32,
    pub name: [u8; 16],
}

/// One inter-thread message.
#[derive(Copy, Clone)]
pub struct IpcMsg {
    pub from: u32,
    pub to: u32,
    pub tag: u32,
    pub _pad: u32,
    pub data: [u64; 4],
    pub ptr: u64,
    pub len: u32,
    pub _pad2: u32,
}

impl IpcMsg {
    /// A message of zeros.
    pub fn zeroed() -> (r: Self)
        ensures
            r.from == 0 && r.to == 0 && r.tag == 0 && r._pad == 0 && r.ptr == 0 && r.len == 0 && r._pad2 == 0,
            r.data@ == seq![0u64; 4],
    {
        let r = IpcMsg { from: 0, to: 0, tag: 0, _pad: 0, data: [0; 4], ptr: 0, len: 0, _pad2: 0 };
        assert(r.data@ =~= seq![0u64; 4]);
        r
    }
}

/// Thread description handed to user space.
pub struct ThreadInfo {
    pub tid: u32,
    pub prio: u8,
    pub _pad: [u8; 3],
}

/// Clock values handed to user space.
pub struct TimeInfo {
    pub ticks: u64,
    pub uptime: u64,
}

/// Framebuffer layout written into user space by GET_FB_INFO.
pub struct FbInfo {
    /// Virtual address at which the framebuffer is mapped in user space.
    pub virt_addr: u64,
    /// Physical base address of the framebuffer.
    pub phys_addr: u64,
    /// Width in pixels.
    pub width: u32,
    /// Height in pixels.
    pub height: u32,
    /// Bytes per row.
    pub pitch: u32,
    /// Bits per pixel.
    pub bpp: u32,
    /// Total size in bytes.
    pub size: u64,
}

impl FbInfo {
    /// A description of no framebuffer: every field zero.
    pub fn zeroed() -> (r: Self)
        ensures
            r.virt_addr == 0 && r.phys_addr == 0 && r.width == 0 && r.height == 0 && r.pitch == 0 && r.bpp == 0
                && r.size == 0,
    {
        FbInfo { virt_addr: 0, phys_addr: 0, width: 0, height: 0, pitch: 0, bpp: 0, size: 0 }
    }
}

} // verus!
