//! Address spaces: the range tree, the search for room in them, and the decisions of
//! faults and mapping calls.

pub mod fault;
pub mod mmap;
pub mod mtree;
pub mod ranges;
pub mod step;
pub mod unmap;
