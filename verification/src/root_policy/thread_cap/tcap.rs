//! Thread-level capability flags.
use vstd::prelude::*;

verus! {

/// IPC to kernel threads.
pub const ELEVATED_IPC: u64 = 1;
/// Larger memory allocation limit.
pub const ELEVATED_MEM: u64 = 2;
/// Allowed to spawn sub-threads.
pub const TRUST_SPAWN: u64 = 4;
/// Write system call limited to the serial port.
pub const RESTRICT_WRITE: u64 = 8;
/// Enforce the strict deny list.
pub const SANDBOX_STRICT: u64 = 16;
/// Thread fully revoked.
pub const REVOKED: u64 = 0x8000_0000_0000_0000;

pub const DEFAULT_KERNEL: u64 = ELEVATED_IPC | ELEVATED_MEM | TRUST_SPAWN;
pub const DEFAULT_USER: u64 = TRUST_SPAWN;
pub const DEFAULT_DEV: u64 = ELEVATED_IPC | TRUST_SPAWN;

} // verus!
