//! Verified parts of a kernel memory manager.
//!
//! [`allocator`] holds the page pool, the small-object allocator and the
//! virtual range allocator; [`mm`] holds the range tree behind an address
//! space, the search for unmapped areas and the decisions of the mapping
//! system calls.

pub mod allocator;
pub mod error;
pub mod mm;
