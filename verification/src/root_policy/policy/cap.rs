//! Ring-level resource capability flags.
use vstd::prelude::*;

verus! {

/// Direct IN/OUT port access.
pub const IO_ACCESS: u64 = 1;
/// Map physical memory directly.
pub const PHYS_MAP: u64 = 2;
/// Mask and unmask IRQs.
pub const IRQ_CONTROL: u64 = 4;
/// Spawn ring-0 kernel threads.
pub const SPAWN_KERNEL: u64 = 8;
/// Raw disk I/O.
pub const RAW_DISK: u64 = 16;
/// Map MMIO regions.
pub const MMIO_MAP: u64 = 32;
/// Write to the serial debug port.
pub const DEBUG_SERIAL: u64 = 64;
/// Direct framebuffer access.
pub const FRAMEBUFFER: u64 = 128;
/// Send IPC to all threads.
pub const IPC_BROADCAST: u64 = 256;
/// Kill arbitrary threads.
pub const THREAD_KILL: u64 = 512;
/// Modify ring policy at run time.
pub const POLICY_ADMIN: u64 = 1024;
/// Raw network packet injection.
pub const NET_RAW: u64 = 2048;
/// Set the system clock.
pub const CLOCK_SET: u64 = 4096;
/// Allocate from the kernel heap.
pub const MEM_KERNEL: u64 = 8192;
/// Execute native ring-0 code paths.
pub const EXEC_NATIVE: u64 = 16384;

pub const ALL: u64 = 0xffff_ffff_ffff_ffff;
pub const NONE: u64 = 0;

/// Ring 1 defaults.
pub const DEVSPACE_DEFAULT: u64 = IO_ACCESS | MMIO_MAP | FRAMEBUFFER | DEBUG_SERIAL | RAW_DISK;
/// Ring 3 defaults.
pub const USERSPACE_DEFAULT: u64 = DEBUG_SERIAL;
/// Kernel thread defaults.
pub const KERNEL_DEFAULT: u64 = ALL;

} // verus!
