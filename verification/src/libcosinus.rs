//! User-space runtime library: the heap, formatting, collections and the structures
//! exchanged with the kernel.
use vstd::prelude::*;

pub mod alloc_impl;
pub mod collections;
pub mod fmt;
pub mod line;

verus! {

} // verus!
