//! Flags of the SPAWN system call.
use vstd::prelude::*;

verus! {

pub const KERNEL: u32 = 0;
pub const USER: u32 = 1;
pub const DETACH: u32 = 2;

} // verus!
