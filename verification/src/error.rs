//! Error numbers.

use vstd::prelude::*;

verus! {

/// Out of memory.
pub const ENOMEM: i32 = -12;

/// Resource busy.
pub const EBUSY: i32 = -16;

/// Already exists.
pub const EEXIST: i32 = -17;

/// Invalid argument.
pub const EINVAL: i32 = -22;

/// [`EINVAL`] as a signed word.
pub const EINVAL_LONG: i64 = -22;

/// [`EINVAL`] as an address.
pub const EINVAL_ADDR: u64 = 0xffff_ffff_ffff_ffea;

/// [`ENOMEM`] as an address.
pub const ENOMEM_ADDR: u64 = 0xffff_ffff_ffff_fff4;

} // verus!
