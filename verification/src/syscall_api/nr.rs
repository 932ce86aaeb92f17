//! System call numbers.
use vstd::prelude::*;

verus! {

pub const EXIT: u64 = 0;
pub const WRITE: u64 = 1;
pub const READ: u64 = 2;
pub const YIELD: u64 = 3;
pub const SPAWN: u64 = 4;
pub const SLEEP: u64 = 5;
pub const MEM_ALLOC: u64 = 6;
pub const MEM_FREE: u64 = 7;
pub const IPC_SEND: u64 = 8;
pub const IPC_RECV: u64 = 9;
pub const IPC_POLL: u64 = 10;
pub const THREAD_ID: u64 = 11;
pub const TIME: u64 = 12;
pub const DEBUG_PRINT: u64 = 13;
/// Query the framebuffer layout and map it into user space.
pub const GET_FB_INFO: u64 = 14;

} // verus!
