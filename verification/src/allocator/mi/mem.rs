//! Integers and runs of bytes in the memory of a folio.

use vstd::prelude::*;

verus! {

/// The 32-bit integer at `off`, least significant byte first.
pub open spec fn word32(mem: Seq<u8>, off: int) -> int {
    mem[off] + 0x100 * mem[off + 1] + 0x1_0000 * mem[off + 2] + 0x100_0000 * mem[off + 3]
}

/// The 64-bit integer at `off`, least significant byte first.
pub open spec fn word64(mem: Seq<u8>, off: int) -> int {
    word32(mem, off) + 0x1_0000_0000 * word32(mem, off + 4)
}

/// The same bytes everywhere but in the `n` bytes from `off`.
pub open spec fn same_but(a: Seq<u8>, b: Seq<u8>, off: int, n: int) -> bool {
    &&& a.len() == b.len()
    &&& forall|i: int| 0 <= i < a.len() && !(off <= i < off + n) ==> #[trigger] a[i] == b[i]
}

/// The same `n` bytes from `off`.
pub open spec fn same_in(a: Seq<u8>, b: Seq<u8>, off: int, n: int) -> bool {
    forall|i: int| off <= i < off + n ==> #[trigger] a[i] == b[i]
}

pub fn load32(mem: &Vec<u8>, off: usize) -> (r: u32)
    requires
        off + 4 <= mem.len(),
    ensures
        r == word32(mem@, off as int),
{
    mem[off] as u32 + mem[off + 1] as u32 * 0x100 + mem[off + 2] as u32 * 0x1_0000 + mem[off + 3]
        as u32 * 0x100_0000
}

pub fn store32(mem: &mut Vec<u8>, off: usize, v: u32)
    requires
        off + 4 <= old(mem).len(),
    ensures
        word32(final(mem)@, off as int) == v,
        same_but(final(mem)@, old(mem)@, off as int, 4),
{
    let q1: u32 = v / 0x100;
    let q2: u32 = q1 / 0x100;
    let q3: u32 = q2 / 0x100;
    mem[off] = (v % 0x100) as u8;
    mem[off + 1] = (q1 % 0x100) as u8;
    mem[off + 2] = (q2 % 0x100) as u8;
    mem[off + 3] = q3 as u8;
}

pub fn load64(mem: &Vec<u8>, off: usize) -> (r: u64)
    requires
        off + 8 <= mem.len(),
    ensures
        r == word64(mem@, off as int),
{
    load32(mem, off) as u64 + load32(mem, off + 4) as u64 * 0x1_0000_0000
}

pub fn store64(mem: &mut Vec<u8>, off: usize, v: u64)
    requires
        off + 8 <= old(mem).len(),
    ensures
        word64(final(mem)@, off as int) == v,
        same_but(final(mem)@, old(mem)@, off as int, 8),
{
    store32(mem, off, (v % 0x1_0000_0000) as u32);
    store32(mem, off + 4, (v / 0x1_0000_0000) as u32);
}

/// Sets the `n` bytes from `off` to `val`.
pub fn fill(mem: &mut Vec<u8>, off: usize, val: u8, n: usize)
    requires
        off + n <= old(mem).len(),
    ensures
        same_but(final(mem)@, old(mem)@, off as int, n as int),
        forall|i: int| off <= i < off + n ==> #[trigger] final(mem)@[i] == val,
{
    let mut k: usize = 0;
    while k < n
        invariant
            k <= n,
            off + n <= mem.len(),
            same_but(mem@, old(mem)@, off as int, n as int),
            forall|i: int| off <= i < off + k ==> #[trigger] mem@[i] == val,
        decreases n - k,
    {
        mem[off + k] = val;
        k = k + 1;
    }
}

pub proof fn lemma_same_words(a: Seq<u8>, b: Seq<u8>, off: int)
    ensures
        same_in(a, b, off, 4) ==> word32(a, off) == word32(b, off),
        same_in(a, b, off, 8) ==> word64(a, off) == word64(b, off),
{
}

} // verus!
