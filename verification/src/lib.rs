use vstd::prelude::*;

pub mod allocator;
pub mod arch;
pub mod boot;
pub mod console;
pub mod devspace;
pub mod display;
pub mod input;
pub mod ipc;
pub mod kterminal;
pub mod libcosinus;
pub mod mm;
pub mod root_file_system;
pub mod root_policy;
pub mod syscall_api;
pub mod syscalls;
pub mod threading;
pub mod userspace_loader;
pub mod usb;
pub mod valloc;
pub mod vmm;

verus! {

} // verus!
