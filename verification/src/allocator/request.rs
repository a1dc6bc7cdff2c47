//! What a request for memory says, and what comes back.

use vstd::prelude::*;

verus! {

/// A GFP mask with the properties that decide anything here.
#[derive(Clone, Copy, PartialEq, Eq, Structural, Debug)]
pub struct Flags {
    /// The mask itself, handed on to the system.
    pub raw: u32,
    /// The mask allows the caller to sleep.
    pub may_block: bool,
    /// The mask asks for zeroed memory.
    pub zero: bool,
}

/// A NUMA node number, handed on to the system.
#[derive(Clone, Copy, PartialEq, Eq, Structural, Debug)]
pub struct NumaNode(pub i32);

/// Size and alignment of an object.
#[derive(Clone, Copy, PartialEq, Eq, Structural, Debug)]
pub struct Layout {
    pub size: u64,
    pub align: u64,
}

/// Memory handed out: `len` bytes from `addr`.
#[derive(Clone, Copy, PartialEq, Eq, Structural, Debug)]
pub struct Buffer {
    pub addr: u64,
    pub len: u64,
}

/// There was no memory.
#[derive(Clone, Copy, PartialEq, Eq, Structural, Debug)]
pub struct AllocError;

/// The buffer of an object without size.
pub open spec fn without_size(layout: Layout) -> Buffer {
    Buffer { addr: layout.align, len: 0 }
}

/// The buffer of an object without size: no memory, at an address as aligned as asked.
pub fn dangling(layout: Layout) -> (r: Buffer)
    ensures
        r == without_size(layout),
{
    Buffer { addr: layout.align, len: 0 }
}

/// The buffer of an object without size has no memory, is aligned, and is not null.
pub proof fn law_without_size(layout: Layout)
    requires
        layout.align > 0,
    ensures
        without_size(layout).len == 0,
        without_size(layout).addr as int % layout.align as int == 0,
        0 < without_size(layout).addr <= layout.align,
{
    vstd::arithmetic::div_mod::lemma_mod_self_0(layout.align as int);
}

/// What is handed out where `raw` is the address that came back, or 0.
pub open spec fn handed_out(raw: u64, layout: Layout) -> Result<Buffer, AllocError> {
    if raw == 0 {
        Err(AllocError)
    } else {
        Ok(Buffer { addr: raw, len: layout.size })
    }
}

/// A request fails exactly if nothing came back; else the buffer lies there and is as long
/// as was asked.
pub proof fn law_handed_out(raw: u64, layout: Layout)
    ensures
        match handed_out(raw, layout) {
            Ok(b) => raw != 0 && b.addr == raw && b.len == layout.size,
            Err(_) => raw == 0,
        },
{
}

} // verus!
