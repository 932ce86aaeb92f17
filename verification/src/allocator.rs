//! Kernel heap allocation: a buddy allocator for page-sized blocks and a
//! slab allocator for small objects.
use vstd::prelude::*;

pub mod buddy;
pub mod kernel_heap;

verus! {

} // verus!
