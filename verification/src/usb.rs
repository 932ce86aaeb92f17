//! USB host support: descriptor parsing, HID report handling, the
//! enumeration of root-hub ports and the xHCI ring entry encoding.
use vstd::prelude::*;

pub mod hid;
pub mod port;
pub mod xhci;

verus! {

} // verus!
