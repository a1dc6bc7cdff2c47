//! Sizes of folios.

use vstd::prelude::*;
use vstd::arithmetic::power2::pow2;

verus! {

/// Highest folio order that is asked for.
pub const MAX_FOLIO_ORDER: u32 = 10;

/// A machine may have pages of `1 << shift` bytes: from 4 KiB up, and such that the
/// size of the largest folio fits in 32 bits.
pub open spec fn is_page_shift(shift: u32) -> bool {
    12 <= shift <= 21
}

/// Bytes in a folio of `order`, with pages of `1 << shift` bytes.
pub open spec fn folio_bytes(shift: u32, order: int) -> int {
    pow2((shift + order) as nat) as int
}

/// Smallest order from `order` up whose folio holds `need` bytes, or one past the highest.
pub open spec fn order_for(shift: u32, need: int, order: int) -> int
    decreases 11 - order,
{
    if order > 10 || folio_bytes(shift, order) >= need {
        order
    } else {
        order_for(shift, need, order + 1)
    }
}

pub proof fn lemma_folio_bytes(shift: u32, order: int)
    requires
        is_page_shift(shift),
        0 <= order <= 10,
    ensures
        4096 <= folio_bytes(shift, order) <= 0x8000_0000,
        folio_bytes(shift, order) <= folio_bytes(shift, 10),
        order < 10 ==> folio_bytes(shift, order + 1) == 2 * folio_bytes(shift, order),
{
    vstd::arithmetic::power2::lemma2_to64();
    let k = (shift + order) as nat;
    if 12 < k {
        vstd::arithmetic::power2::lemma_pow2_strictly_increases(12, k);
    }
    if k < 31 {
        vstd::arithmetic::power2::lemma_pow2_strictly_increases(k, 31);
    }
    if order < 10 {
        vstd::arithmetic::power2::lemma_pow2_strictly_increases(k, (shift + 10) as nat);
    }
    vstd::arithmetic::power2::lemma_pow2_unfold(k + 1);
}

/// Bytes in a folio of `order`, with pages of `1 << shift` bytes.
pub fn page_size_bytes(shift: u32, order: u32) -> (r: u64)
    requires
        is_page_shift(shift),
        order <= MAX_FOLIO_ORDER,
    ensures
        r == folio_bytes(shift, order as int),
        4096 <= r <= 0x8000_0000,
{
    proof {
        lemma_folio_bytes(shift, 0);
        lemma_folio_bytes(shift, order as int);
        vstd::bits::lemma_u64_shl_is_mul(1, shift as u64);
        vstd::arithmetic::power2::lemma_pow2_adds(shift as nat, order as nat);
        vstd::bits::lemma_u64_shl_is_mul(pow2(shift as nat) as u64, order as u64);
    }
    (1u64 << shift) << order
}

/// Smallest order whose folio holds `need` bytes.
pub fn smallest_order(shift: u32, need: u64) -> (r: Option<u32>)
    requires
        is_page_shift(shift),
    ensures
        r is Some <==> order_for(shift, need as int, 0) <= 10,
        r matches Some(o) ==> o == order_for(shift, need as int, 0) && folio_bytes(shift, o as int)
            >= need,
{
    let mut order: u32 = 0;
    while page_size_bytes(shift, order) < need && order < MAX_FOLIO_ORDER
        invariant
            is_page_shift(shift),
            order <= 10,
            order_for(shift, need as int, 0) == order_for(shift, need as int, order as int),
        decreases 10 - order,
    {
        order = order + 1;
    }
    if page_size_bytes(shift, order) < need {
        assert(order_for(shift, need as int, 11) == 11);
        return None;
    }
    Some(order)
}

} // verus!
