//! Allocators: pages, small objects and address ranges.

pub mod blocks;
pub mod buddy;
pub mod mi;
pub mod request;
pub mod span;
pub mod vmalloc;
