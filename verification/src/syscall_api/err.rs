//! System call error codes.
use vstd::prelude::*;

verus! {

pub const OK: i64 = 0;
pub const INVAL: i64 = -1;
pub const NOMEM: i64 = -2;
pub const NOSLOT: i64 = -3;
pub const FAULT: i64 = -4;
pub const AGAIN: i64 = -5;
pub const NOSYS: i64 = -6;
pub const PERM: i64 = -7;

} // verus!
