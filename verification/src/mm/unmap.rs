//! Search for unmapped address ranges: first fit from below or from above.
//!
//! The mappings are given as a list in address order. Each has a guard gap on
//! either side that stays unmapped too.

use vstd::prelude::*;
use crate::error::ENOMEM_ADDR;
pub use crate::mm::mmap::advise::rust_madvise_dispatch;
pub use crate::mm::mmap::brk::rust_brk_dispatch;
pub use crate::mm::mmap::map::rust_dommap_dispatch;
pub use crate::mm::mmap::protect::rust_mprotect_dispatch;
pub use crate::mm::mmap::remap::rust_mremap_dispatch;
pub use crate::mm::mmap::unmap::rust_munmap_dispatch;

verus! {

/// Search from above.
pub const TOPDOWN: u64 = 1;

/// Cap on the mappings visited, so that a corrupt list cannot keep a search going.
pub const MAX_ITERS: u32 = 1_000_000;

/// A mapping: the addresses from `start` up to `end`, with its guard gaps from
/// `start_gap` up to `end_gap`.
#[derive(Clone, Copy, PartialEq, Eq, Structural, Debug)]
pub struct Vma {
    pub start: u64,
    pub end: u64,
    pub start_gap: u64,
    pub end_gap: u64,
}

/// What an unmapped range has to satisfy.
#[derive(Clone, Copy, PartialEq, Eq, Structural, Debug)]
pub struct UnmappedInfo {
    pub flags: u64,
    pub length: u64,
    pub low_limit: u64,
    pub high_limit: u64,
    pub align_mask: u64,
    pub align_offset: u64,
    pub start_gap: u64,
}

/// A search that can succeed.
#[derive(Clone, Copy, PartialEq, Eq, Structural, Debug)]
pub struct Search {
    pub length: u64,
    pub align_mask: u64,
    pub align_offset: u64,
    pub start_gap: u64,
    pub low: u64,
    pub high: u64,
}

/// `addr` moved up to the next one that differs from `offset` by a multiple of
/// the alignment, in 64-bit arithmetic.
pub open spec fn aligned_up(addr: u64, mask: u64, offset: u64) -> u64 {
    addr.wrapping_add(offset.wrapping_sub(addr) & mask)
}

/// `addr` moved down to the next one that differs from `offset` by a multiple of
/// the alignment, in 64-bit arithmetic.
pub open spec fn aligned_down(addr: u64, mask: u64, offset: u64) -> u64 {
    addr.wrapping_sub(addr.wrapping_sub(offset) & mask)
}

fn align_up_off(addr: u64, align_mask: u64, align_offset: u64) -> (r: u64)
    ensures
        r == aligned_up(addr, align_mask, align_offset),
{
    addr.wrapping_add(align_offset.wrapping_sub(addr) & align_mask)
}

fn align_down_off(addr: u64, align_mask: u64, align_offset: u64) -> (r: u64)
    ensures
        r == aligned_down(addr, align_mask, align_offset),
{
    addr.wrapping_sub(addr.wrapping_sub(align_offset) & align_mask)
}

/// The search that a request comes to; `None` if it cannot succeed.
pub open spec fn searched(info: UnmappedInfo, mmap_min: u64) -> Option<Search> {
    let low = if info.low_limit < mmap_min {
        mmap_min
    } else {
        info.low_limit
    };
    let worst = info.length.wrapping_add(info.align_mask).wrapping_add(info.start_gap);
    if worst < info.length || info.length == 0 || low + info.length > info.high_limit {
        None
    } else {
        Some(
            Search {
                length: info.length,
                align_mask: info.align_mask,
                align_offset: info.align_offset,
                start_gap: info.start_gap,
                low,
                high: info.high_limit,
            },
        )
    }
}

/// Reads a request; `mmap_min` is the lowest address that may be mapped at all.
fn search_from(info: &UnmappedInfo, mmap_min: u64) -> (r: Option<Search>)
    ensures
        r == searched(*info, mmap_min),
{
    let length = info.length;
    let worst = length.wrapping_add(info.align_mask).wrapping_add(info.start_gap);
    if worst < length {
        return None;
    }
    let low: u64 = if info.low_limit < mmap_min {
        mmap_min
    } else {
        info.low_limit
    };
    let high = info.high_limit;
    if low >= high || length == 0 || high - low < length {
        return None;
    }
    Some(
        Search {
            length,
            align_mask: info.align_mask,
            align_offset: info.align_offset,
            start_gap: info.start_gap,
            low,
            high,
        },
    )
}

impl Search {
    /// The lowest place in `gap_start..gap_end`.
    pub open spec fn bottom_of(self, gap_start: u64, gap_end: u64) -> Option<u64> {
        let addr = aligned_up(
            gap_start.wrapping_add(self.start_gap),
            self.align_mask,
            self.align_offset,
        );
        if gap_start < gap_end && gap_start <= addr && addr + self.length <= gap_end && addr
            + self.length <= self.high {
            Some(addr)
        } else {
            None
        }
    }

    /// The highest place in `gap_start..gap_end`.
    pub open spec fn top_of(self, gap_start: u64, gap_end: u64) -> Option<u64> {
        let addr = aligned_down(
            (gap_end - self.length) as u64,
            self.align_mask,
            self.align_offset,
        );
        if gap_start < gap_end && gap_start + self.length <= gap_end && gap_start <= addr
            && self.low <= addr && addr + self.length <= gap_end {
            Some(addr)
        } else {
            None
        }
    }
}

fn place_bottom(gap_start: u64, gap_end: u64, s: &Search) -> (r: Option<u64>)
    ensures
        r == s.bottom_of(gap_start, gap_end),
{
    if gap_end <= gap_start {
        return None;
    }
    let addr = align_up_off(
        gap_start.wrapping_add(s.start_gap),
        s.align_mask,
        s.align_offset,
    );
    match addr.checked_add(s.length) {
        None => None,
        Some(end) => if addr >= gap_start && end <= gap_end && end <= s.high {
            Some(addr)
        } else {
            None
        },
    }
}

fn place_top(gap_start: u64, gap_end: u64, s: &Search) -> (r: Option<u64>)
    ensures
        r == s.top_of(gap_start, gap_end),
{
    if gap_end <= gap_start || gap_end - gap_start < s.length {
        return None;
    }
    let addr = align_down_off(gap_end - s.length, s.align_mask, s.align_offset);
    match addr.checked_add(s.length) {
        None => None,
        Some(end) => if addr >= gap_start && addr >= s.low && end <= gap_end {
            Some(addr)
        } else {
            None
        },
    }
}

/// First mapping from `from` on that ends above `addr`, or the number of mappings.
pub open spec fn above(vmas: Seq<Vma>, addr: u64, from: int) -> int
    decreases vmas.len() - from,
{
    if from < 0 || from >= vmas.len() || addr < vmas[from].end {
        from
    } else {
        above(vmas, addr, from + 1)
    }
}

/// First mapping that ends above `addr`, or the number of mappings.
fn find_vma(vmas: &Vec<Vma>, addr: u64) -> (r: usize)
    ensures
        r == above(vmas@, addr, 0),
        r <= vmas@.len(),
{
    let mut i: usize = 0;
    while i < vmas.len()
        invariant
            i <= vmas@.len(),
            above(vmas@, addr, 0) == above(vmas@, addr, i as int),
        decreases vmas@.len() - i,
    {
        if addr < vmas[i].end {
            return i;
        }
        i = i + 1;
    }
    i
}

impl Search {
    /// Upper end of the gap below mapping `i`.
    pub open spec fn gap_end(self, vmas: Seq<Vma>, i: int) -> u64 {
        if i < vmas.len() && vmas[i].start_gap < self.high {
            vmas[i].start_gap
        } else {
            self.high
        }
    }

    /// Where the walk from below starts: the first gap start, and the mapping above it.
    pub open spec fn bottom_start(self, vmas: Seq<Vma>) -> (u64, int) {
        let i = above(vmas, self.low, 0);
        let g = if i > 0 && vmas[i - 1].end_gap > self.low {
            vmas[i - 1].end_gap
        } else {
            self.low
        };
        if i < vmas.len() && vmas[i].start <= self.low {
            (
                if vmas[i].end_gap > g {
                    vmas[i].end_gap
                } else {
                    g
                },
                above(vmas, vmas[i].end, 0),
            )
        } else {
            (g, i)
        }
    }

    /// Gap by gap upwards, from `gap_start` below mapping `i`, at most `fuel` gaps.
    pub open spec fn bottom_walk(self, vmas: Seq<Vma>, gap_start: u64, i: int, fuel: nat) -> Option<
        u64,
    >
        decreases fuel,
    {
        if fuel == 0 {
            None
        } else {
            match self.bottom_of(gap_start, self.gap_end(vmas, i)) {
                Some(addr) => Some(addr),
                None => if i >= vmas.len() {
                    None
                } else {
                    let next = if vmas[i].end_gap > gap_start {
                        vmas[i].end_gap
                    } else {
                        vmas[i].end
                    };
                    if next <= gap_start || next >= self.high {
                        None
                    } else {
                        self.bottom_walk(vmas, next, above(vmas, next, 0), (fuel - 1) as nat)
                    }
                },
            }
        }
    }

    /// The first fit from below.
    pub open spec fn bottom(self, vmas: Seq<Vma>) -> Option<u64> {
        let (gap_start, i) = self.bottom_start(vmas);
        self.bottom_walk(vmas, gap_start, i, 1_000_000)
    }

    /// Lower end of the gap above mapping `p - 1`.
    pub open spec fn gap_start(self, vmas: Seq<Vma>, p: int) -> u64 {
        if p > 0 && vmas[p - 1].end_gap > self.low {
            vmas[p - 1].end_gap
        } else {
            self.low
        }
    }

    /// Gap by gap downwards, from the one between mappings `p - 1` and `i`, at most
    /// `fuel` gaps.
    pub open spec fn top_walk(self, vmas: Seq<Vma>, p: int, i: int, fuel: nat) -> Option<u64>
        decreases fuel,
    {
        if fuel == 0 {
            None
        } else {
            match self.top_of(self.gap_start(vmas, p), self.gap_end(vmas, i)) {
                Some(addr) => Some(addr),
                None => if p <= 0 {
                    None
                } else {
                    self.top_walk(
                        vmas,
                        above(vmas, vmas[p - 1].start, 0),
                        p - 1,
                        (fuel - 1) as nat,
                    )
                },
            }
        }
    }

    /// The first fit from above.
    pub open spec fn top(self, vmas: Seq<Vma>) -> Option<u64> {
        let hint = if self.high == 0 || self.high - 1 < self.low {
            self.low
        } else {
            (self.high - 1) as u64
        };
        let i = above(vmas, hint, 0);
        self.top_walk(vmas, i, i, 1_000_000)
    }
}

fn unmapped_bottom(vmas: &Vec<Vma>, s: &Search) -> (r: Option<u64>)
    ensures
        r == s.bottom(vmas@),
{
    let mut i = find_vma(vmas, s.low);
    let mut gap_start = s.low;
    if i > 0 && vmas[i - 1].end_gap > gap_start {
        gap_start = vmas[i - 1].end_gap;
    }
    if i < vmas.len() && s.low >= vmas[i].start && s.low < vmas[i].end {
        if vmas[i].end_gap > gap_start {
            gap_start = vmas[i].end_gap;
        }
        i = find_vma(vmas, vmas[i].end);
    } else {
        assert(i < vmas@.len() ==> s.low < vmas@[i as int].end) by {
            lemma_above(vmas@, s.low, 0);
        }
    }
    let mut n: u32 = 0;
    while n < MAX_ITERS
        invariant
            i <= vmas@.len(),
            n <= MAX_ITERS,
            s.bottom(vmas@) == s.bottom_walk(
                vmas@,
                gap_start,
                i as int,
                (MAX_ITERS - n) as nat,
            ),
        decreases MAX_ITERS - n,
    {
        let gap_end: u64 = if i < vmas.len() && vmas[i].start_gap < s.high {
            vmas[i].start_gap
        } else {
            s.high
        };
        if let Some(addr) = place_bottom(gap_start, gap_end, s) {
            return Some(addr);
        }
        if i >= vmas.len() {
            return None;
        }
        let next = vmas[i].end_gap;
        if next > gap_start {
            gap_start = next;
        } else {
            let ve = vmas[i].end;
            if ve <= gap_start {
                return None;
            }
            gap_start = ve;
        }
        if gap_start >= s.high {
            return None;
        }
        i = find_vma(vmas, gap_start);
        n = n + 1;
    }
    None
}

fn unmapped_topdown(vmas: &Vec<Vma>, s: &Search) -> (r: Option<u64>)
    ensures
        r == s.top(vmas@),
{
    let mut hint = s.high.saturating_sub(1);
    if hint < s.low {
        hint = s.low;
    }
    let mut i = find_vma(vmas, hint);
    let mut p = i;
    let mut n: u32 = 0;
    while n < MAX_ITERS
        invariant
            i <= vmas@.len(),
            p <= vmas@.len(),
            n <= MAX_ITERS,
            s.top(vmas@) == s.top_walk(vmas@, p as int, i as int, (MAX_ITERS - n) as nat),
        decreases MAX_ITERS - n,
    {
        let gap_end: u64 = if i < vmas.len() && vmas[i].start_gap < s.high {
            vmas[i].start_gap
        } else {
            s.high
        };
        let gap_start: u64 = if p > 0 && vmas[p - 1].end_gap > s.low {
            vmas[p - 1].end_gap
        } else {
            s.low
        };
        if let Some(addr) = place_top(gap_start, gap_end, s) {
            return Some(addr);
        }
        if p == 0 {
            return None;
        }
        i = p - 1;
        p = find_vma(vmas, vmas[i].start);
        n = n + 1;
    }
    None
}

proof fn lemma_above(vmas: Seq<Vma>, addr: u64, from: int)
    requires
        0 <= from <= vmas.len(),
    ensures
        from <= above(vmas, addr, from) <= vmas.len(),
        above(vmas, addr, from) < vmas.len() ==> addr < vmas[above(vmas, addr, from)].end,
        forall|k: int| from <= k < above(vmas, addr, from) ==> (#[trigger] vmas[k]).end <= addr,
    decreases vmas.len() - from,
{
    if from < vmas.len() && addr >= vmas[from].end {
        lemma_above(vmas, addr, from + 1);
    }
}

/// What is logged when the search takes over.
pub const ANNOUNCEMENT: &'static str =
    "rust-mmap: vm_unmapped_area first-fit/topdown and mmap/munmap/brk/mprotect/mremap/madvise sequencer\n";

/// The message to log when the search takes over.
pub fn announce() -> (r: &'static str)
    ensures
        r == ANNOUNCEMENT,
{
    ANNOUNCEMENT
}

/// The address that a search for `info` comes to, or `-ENOMEM` as an address.
pub open spec fn unmapped_area(
    info: Option<UnmappedInfo>,
    vmas: Option<Seq<Vma>>,
    mmap_min: u64,
) -> u64 {
    let found = match (info, vmas) {
        (Some(info), Some(vmas)) => match searched(info, mmap_min) {
            Some(s) => if info.flags & TOPDOWN != 0 {
                s.top(vmas)
            } else {
                s.bottom(vmas)
            },
            None => None,
        },
        _ => None,
    };
    match found {
        Some(addr) => addr,
        None => ENOMEM_ADDR,
    }
}

impl UnmappedInfo {
    /// The search can be relied on: the range is not empty, its worst case is
    /// representable, the alignment is a power of two, and the mappings are in order
    /// with their guard gaps and not too many.
    pub open spec fn sound(self, vmas: Seq<Vma>) -> bool {
        &&& self.length > 0
        &&& self.length + self.align_mask + self.start_gap <= u64::MAX
        &&& is_mask(self.align_mask)
        &&& spaced(vmas)
        &&& vmas.len() < MAX_ITERS
    }

    /// The range at `a` lies between the limits and above `mmap_min`, is aligned, and
    /// keeps clear of all mappings with their guard gaps. From below it keeps the margin
    /// above each too.
    pub open spec fn place(self, vmas: Seq<Vma>, mmap_min: u64, a: u64) -> bool {
        let margin = if self.flags & TOPDOWN != 0 {
            0
        } else {
            self.start_gap as int
        };
        &&& self.low_limit + margin <= a
        &&& mmap_min + margin <= a
        &&& a + self.length <= self.high_limit
        &&& a.wrapping_sub(self.align_offset) & self.align_mask == 0
        &&& forall|i: int|
            0 <= i < vmas.len() ==> a + self.length <= (#[trigger] vmas[i]).start_gap || a
                >= vmas[i].end_gap + margin
    }

    /// `r` is the highest place from above, or the lowest from below, or `-ENOMEM` if
    /// there is no place.
    pub open spec fn best(self, vmas: Seq<Vma>, mmap_min: u64, r: u64) -> bool {
        &&& r != ENOMEM_ADDR ==> self.place(vmas, mmap_min, r)
        &&& r != ENOMEM_ADDR && self.flags & TOPDOWN != 0 ==> forall|b: u64| #[trigger]
            self.place(vmas, mmap_min, b) ==> b <= r
        &&& r != ENOMEM_ADDR && self.flags & TOPDOWN == 0 ==> forall|b: u64| #[trigger]
            self.place(vmas, mmap_min, b) ==> r <= b
        &&& r == ENOMEM_ADDR && !self.place(vmas, mmap_min, r) ==> forall|b: u64|
            !#[trigger] self.place(vmas, mmap_min, b)
    }
}

/// The address of an unmapped range, or `-ENOMEM` as an address. `info` is `None`
/// for a null request, `vmas` is `None` for a task without an address space, and
/// `mmap_min` is the lowest address that may be mapped.
pub fn rust_vm_unmapped_area(
    info: Option<UnmappedInfo>,
    vmas: Option<&Vec<Vma>>,
    mmap_min: u64,
) -> (r: u64)
    ensures
        r == unmapped_area(
            info,
            match vmas {
                Some(vmas) => Some(vmas@),
                None => None,
            },
            mmap_min,
        ),
        info matches Some(info) ==> vmas matches Some(vmas) ==> info.sound(vmas@) ==> info.best(
            vmas@,
            mmap_min,
            r,
        ),
{
    match info {
        None => ENOMEM_ADDR,
        Some(info) => {
            match search_from(&info, mmap_min) {
                None => {
                    proof {
                        if let Some(vmas) = vmas {
                            if info.sound(vmas@) {
                                law_unmapped_area(info, vmas@, mmap_min);
                            }
                        }
                    }
                    ENOMEM_ADDR
                },
                Some(search) => {
                    match vmas {
                        None => ENOMEM_ADDR,
                        Some(vmas) => {
                            proof {
                                if info.sound(vmas@) {
                                    law_unmapped_area(info, vmas@, mmap_min);
                                }
                            }
                            let found = if info.flags & TOPDOWN != 0 {
                                unmapped_topdown(vmas, &search)
                            } else {
                                unmapped_bottom(vmas, &search)
                            };
                            match found {
                                Some(addr) => addr,
                                None => ENOMEM_ADDR,
                            }
                        },
                    }
                },
            }
        },
    }
}

/// The mappings are in order, do not overlap, and lie within their guard gaps.
pub open spec fn in_order(vmas: Seq<Vma>) -> bool {
    &&& forall|i: int|
        0 <= i < vmas.len() ==> (#[trigger] vmas[i]).start_gap <= vmas[i].start < vmas[i].end
            <= vmas[i].end_gap
    &&& forall|i: int, j: int|
        0 <= i < j < vmas.len() ==> (#[trigger] vmas[i]).end <= (#[trigger] vmas[j]).start
}

/// Guard gaps do not overlap either.
pub open spec fn spaced(vmas: Seq<Vma>) -> bool {
    &&& in_order(vmas)
    &&& forall|i: int, j: int|
        0 <= i < j < vmas.len() ==> (#[trigger] vmas[i]).end_gap <= (#[trigger] vmas[j]).start_gap
}

/// The mask belongs to an alignment that is a power of two.
pub open spec fn is_mask(mask: u64) -> bool {
    mask & mask.wrapping_add(1) == 0
}

impl Search {
    /// The range is not empty and not longer than the limits allow, and the alignment
    /// is a power of two.
    pub open spec fn ok(self) -> bool {
        &&& 0 < self.length
        &&& self.low + self.length <= self.high
        &&& is_mask(self.align_mask)
    }

    /// Margin and alignment together are representable.
    pub open spec fn margin_ok(self) -> bool {
        self.align_mask + self.start_gap <= u64::MAX
    }

    /// A range at `a` keeps clear of the limits and of every guard gap, and `margin`
    /// above each.
    pub open spec fn clear(self, vmas: Seq<Vma>, a: u64, margin: int) -> bool {
        &&& self.low + margin <= a
        &&& a + self.length <= self.high
        &&& forall|i: int|
            0 <= i < vmas.len() ==> a + self.length <= (#[trigger] vmas[i]).start_gap || a
                >= vmas[i].end_gap + margin
    }

    /// `a` is a place for the search from below.
    pub open spec fn fits_bottom(self, vmas: Seq<Vma>, a: u64) -> bool {
        &&& self.clear(vmas, a, self.start_gap as int)
        &&& self.align_offset.wrapping_sub(a) & self.align_mask == 0
    }

    /// `a` is a place for the search from above.
    pub open spec fn fits_top(self, vmas: Seq<Vma>, a: u64) -> bool {
        &&& self.clear(vmas, a, 0)
        &&& a.wrapping_sub(self.align_offset) & self.align_mask == 0
    }
}

proof fn lemma_aligned_up(x: u64, mask: u64, off: u64)
    requires
        is_mask(mask),
    ensures
        off.wrapping_sub(aligned_up(x, mask, off)) & mask == 0,
        off.wrapping_sub(x) & mask <= mask,
{
    let d = off.wrapping_sub(x);
    let e = d & mask;
    let m1 = mask.wrapping_add(1);
    assert(mask & m1 == 0 && m1 == (mask + 1) as u64 ==> ((d - (d & mask)) as u64) & mask == 0)
        by (bit_vector);
    assert(d & mask <= mask) by (bit_vector);
    assert(d & mask <= d) by (bit_vector);
    lemma_wraps(mask);
    assert(off.wrapping_sub(x.wrapping_add(e)) == (d - e) as u64);
}

proof fn lemma_wraps(mask: u64)
    ensures
        mask.wrapping_add(1) == (mask + 1) as u64,
{
    assert(mask == 0xffff_ffff_ffff_ffffu64 ==> (mask + 1) as u64 == 0) by (bit_vector);
}

/// Moving up gives the least aligned address.
proof fn lemma_up_least(x: u64, b: u64, mask: u64, off: u64)
    requires
        is_mask(mask),
        x <= b,
        off.wrapping_sub(b) & mask == 0,
    ensures
        x <= aligned_up(x, mask, off) <= b,
{
    let p = off.wrapping_sub(b);
    let q = (b - x) as u64;
    let d = off.wrapping_sub(x);
    let m1 = mask.wrapping_add(1);
    lemma_wraps(mask);
    lemma_sum(off, b, x);
    assert(mask & m1 == 0 && m1 == (mask + 1) as u64 && p & mask == 0 && d == (p + q) as u64 ==> d
        & mask == q & mask) by (bit_vector);
    assert(q & mask <= q) by (bit_vector);
}

/// Differences add up, in 64-bit arithmetic.
proof fn lemma_sum(off: u64, b: u64, x: u64)
    requires
        x <= b,
    ensures
        off.wrapping_sub(x) == ((off.wrapping_sub(b)) + (b - x) as u64) as u64,
{
    let p = off.wrapping_sub(b);
    let q = (b - x) as u64;
    assert(p + q >= 0x1_0000_0000_0000_0000 ==> (p + q) as u64 == p + q - 0x1_0000_0000_0000_0000)
        by (bit_vector);
}

proof fn lemma_aligned_down(y: u64, mask: u64, off: u64)
    requires
        is_mask(mask),
    ensures
        aligned_down(y, mask, off).wrapping_sub(off) & mask == 0,
{
    let d = y.wrapping_sub(off);
    let e = d & mask;
    let m1 = mask.wrapping_add(1);
    lemma_wraps(mask);
    assert(mask & m1 == 0 && m1 == (mask + 1) as u64 ==> ((d - (d & mask)) as u64) & mask == 0)
        by (bit_vector);
    assert(d & mask <= d) by (bit_vector);
    assert(y.wrapping_sub(e).wrapping_sub(off) == (d - e) as u64);
}

/// Moving down gives the greatest aligned address.
proof fn lemma_down_greatest(y: u64, b: u64, mask: u64, off: u64)
    requires
        is_mask(mask),
        b <= y,
        b.wrapping_sub(off) & mask == 0,
    ensures
        b <= aligned_down(y, mask, off) <= y,
{
    let p = b.wrapping_sub(off);
    let q = (y - b) as u64;
    let d = y.wrapping_sub(off);
    let m1 = mask.wrapping_add(1);
    lemma_wraps(mask);
    assert(d == (p + q) as u64) by {
        assert(p + q >= 0x1_0000_0000_0000_0000 ==> (p + q) as u64 == p + q
            - 0x1_0000_0000_0000_0000) by (bit_vector);
    }
    assert(mask & m1 == 0 && m1 == (mask + 1) as u64 && p & mask == 0 && d == (p + q) as u64 ==> d
        & mask == q & mask) by (bit_vector);
    assert(q & mask <= q) by (bit_vector);
}

/// A range from below lies between the limits and overlaps no mapping.
pub proof fn law_bottom_unmapped(s: Search, vmas: Seq<Vma>, a: u64)
    requires
        in_order(vmas),
        s.bottom(vmas) == Some(a),
    ensures
        s.low <= a,
        a + s.length <= s.high,
        forall|i: int|
            0 <= i < vmas.len() ==> a + s.length <= (#[trigger] vmas[i]).start || vmas[i].end <= a,
{
    let (g, i) = s.bottom_start(vmas);
    lemma_bottom_start(s, vmas);
    lemma_bottom_walk_sound(s, vmas, g, i, 1_000_000, a);
}

/// The mappings below the first gap end below it.
proof fn lemma_bottom_start(s: Search, vmas: Seq<Vma>)
    requires
        in_order(vmas),
    ensures
        ({
            let (g, i) = s.bottom_start(vmas);
            &&& s.low <= g
            &&& 0 <= i <= vmas.len()
            &&& forall|k: int| 0 <= k < i ==> (#[trigger] vmas[k]).end <= g
        }),
{
    lemma_above(vmas, s.low, 0);
    let i = above(vmas, s.low, 0);
    if i < vmas.len() {
        lemma_above(vmas, vmas[i].end, 0);
        assert(vmas[i].end <= vmas[i].end_gap);
    }
}

proof fn lemma_bottom_walk_sound(
    s: Search,
    vmas: Seq<Vma>,
    g: u64,
    i: int,
    fuel: nat,
    a: u64,
)
    requires
        in_order(vmas),
        s.low <= g,
        0 <= i <= vmas.len(),
        forall|k: int| 0 <= k < i ==> (#[trigger] vmas[k]).end <= g,
        s.bottom_walk(vmas, g, i, fuel) == Some(a),
    ensures
        s.low <= a,
        a + s.length <= s.high,
        forall|k: int|
            0 <= k < vmas.len() ==> a + s.length <= (#[trigger] vmas[k]).start || vmas[k].end <= a,
    decreases fuel,
{
    if s.bottom_of(g, s.gap_end(vmas, i)) is Some {
        assert forall|k: int| 0 <= k < vmas.len() implies a + s.length <= (
        #[trigger] vmas[k]).start || vmas[k].end <= a by {
            if k >= i {
                assert(vmas[i].start_gap <= vmas[i].start < vmas[i].end);
                if k > i {
                    assert(vmas[i].end <= vmas[k].start);
                }
            }
        }
    } else {
        let next = if vmas[i].end_gap > g {
            vmas[i].end_gap
        } else {
            vmas[i].end
        };
        lemma_above(vmas, next, 0);
        lemma_bottom_walk_sound(s, vmas, next, above(vmas, next, 0), (fuel - 1) as nat, a);
    }
}

/// First fit from below: the result keeps clear of every guard gap, with the
/// margin above it, is aligned, and no lower address is. Without a result there
/// is no such address.
pub proof fn law_bottom_first_fit(s: Search, vmas: Seq<Vma>)
    requires
        s.ok(),
        s.margin_ok(),
        spaced(vmas),
        vmas.len() < MAX_ITERS,
    ensures
        match s.bottom(vmas) {
            Some(a) => s.fits_bottom(vmas, a) && forall|b: u64| #[trigger]
                s.fits_bottom(vmas, b) ==> a <= b,
            None => forall|b: u64| !#[trigger] s.fits_bottom(vmas, b),
        },
{
    let (g, i) = s.bottom_start(vmas);
    lemma_above(vmas, s.low, 0);
    let j = above(vmas, s.low, 0);
    if j > 0 {
        assert(vmas[j - 1].end <= vmas[j - 1].end_gap);
    }
    if j < vmas.len() {
        assert(vmas[j].start_gap <= vmas[j].start < vmas[j].end <= vmas[j].end_gap);
        lemma_next_above(vmas, j, vmas[j].end);
    }
    assert forall|b: u64| #[trigger] s.fits_bottom(vmas, b) implies b >= g + s.start_gap by {
        if j > 0 {
            assert(vmas[j - 1].start_gap <= vmas[j - 1].start < vmas[j - 1].end);
            assert(b + s.length <= vmas[j - 1].start_gap || b >= vmas[j - 1].end_gap
                + s.start_gap);
        }
        if j < vmas.len() {
            assert(b + s.length <= vmas[j].start_gap || b >= vmas[j].end_gap + s.start_gap);
        }
    }
    assert forall|k: int| 0 <= k < i implies (#[trigger] vmas[k]).end_gap <= g by {
        if k < i - 1 {
            assert(vmas[k].end_gap <= vmas[i - 1].start_gap);
            assert(vmas[i - 1].start_gap <= vmas[i - 1].start < vmas[i - 1].end
                <= vmas[i - 1].end_gap);
        }
    }
    if i < vmas.len() {
        assert(vmas[i].start_gap <= vmas[i].start < vmas[i].end <= vmas[i].end_gap);
        if i > 0 {
            assert(vmas[i - 1].end_gap <= vmas[i].start_gap);
        }
    }
    lemma_bottom_walk_fit(s, vmas, g, i, 1_000_000);
}

/// In spaced mappings the first that ends above `addr`, between the end of
/// mapping `i` and the end of its guard gap, is the one after it.
proof fn lemma_next_above(vmas: Seq<Vma>, i: int, addr: u64)
    requires
        spaced(vmas),
        0 <= i < vmas.len(),
        vmas[i].end <= addr <= vmas[i].end_gap,
    ensures
        above(vmas, addr, 0) == i + 1,
{
    lemma_above(vmas, addr, 0);
    let a = above(vmas, addr, 0);
    if a < i {
        assert(vmas[a].end <= vmas[i].start);
        assert(vmas[i].start < vmas[i].end);
    }
    if a > i + 1 {
        assert(vmas[i + 1].end <= addr);
        assert(vmas[i].end_gap <= vmas[i + 1].start_gap);
        assert(vmas[i + 1].start_gap <= vmas[i + 1].start < vmas[i + 1].end);
    }
}

proof fn lemma_bottom_walk_fit(s: Search, vmas: Seq<Vma>, g: u64, i: int, fuel: nat)
    requires
        s.ok(),
        s.margin_ok(),
        spaced(vmas),
        0 <= i <= vmas.len(),
        s.low <= g,
        fuel > vmas.len() - i,
        forall|k: int| 0 <= k < i ==> (#[trigger] vmas[k]).end_gap <= g,
        i < vmas.len() ==> g < vmas[i].end_gap,
        forall|b: u64| #[trigger] s.fits_bottom(vmas, b) ==> b >= g + s.start_gap,
    ensures
        match s.bottom_walk(vmas, g, i, fuel) {
            Some(a) => s.fits_bottom(vmas, a) && forall|b: u64| #[trigger]
                s.fits_bottom(vmas, b) ==> a <= b,
            None => forall|b: u64| !#[trigger] s.fits_bottom(vmas, b),
        },
    decreases fuel,
{
    let ge = s.gap_end(vmas, i);
    let x = g.wrapping_add(s.start_gap);
    if i < vmas.len() {
        assert(vmas[i].start_gap <= vmas[i].start < vmas[i].end <= vmas[i].end_gap);
    }
    // A place in this gap is found.
    assert forall|b: u64| #[trigger] s.fits_bottom(vmas, b) && b + s.length <= ge implies (
    s.bottom_of(g, ge) matches Some(a) && a <= b) by {
        lemma_up_least(x, b, s.align_mask, s.align_offset);
    }
    match s.bottom_of(g, ge) {
        Some(a) => {
            lemma_aligned_up(x, s.align_mask, s.align_offset);
            lemma_up_bounds(s, g, a);
            assert forall|k: int| 0 <= k < vmas.len() implies a + s.length <= (
            #[trigger] vmas[k]).start_gap || a >= vmas[k].end_gap + s.start_gap by {
                if k > i {
                    assert(vmas[i].end_gap <= vmas[k].start_gap);
                }
            }
            assert(s.fits_bottom(vmas, a));
            assert forall|b: u64| #[trigger] s.fits_bottom(vmas, b) implies a <= b by {
                if b + s.length > ge {
                    assert(a + s.length <= ge);
                }
            }
        },
        None => {
            if i < vmas.len() {
                assert forall|b: u64| #[trigger] s.fits_bottom(vmas, b) implies b
                    >= vmas[i].end_gap + s.start_gap by {
                    assert(b + s.length <= vmas[i].start_gap || b >= vmas[i].end_gap
                        + s.start_gap);
                }
                let next = vmas[i].end_gap;
                if next < s.high {
                    lemma_next_above(vmas, i, next);
                    assert forall|k: int| 0 <= k < i + 1 implies (#[trigger] vmas[k]).end_gap
                        <= next by {
                        if k < i {
                            assert(vmas[k].end_gap <= vmas[i].start_gap);
                        }
                    }
                    if i + 1 < vmas.len() {
                        assert(vmas[i].end_gap <= vmas[i + 1].start_gap);
                        assert(vmas[i + 1].start_gap <= vmas[i + 1].start < vmas[i + 1].end
                            <= vmas[i + 1].end_gap);
                    }
                    lemma_bottom_walk_fit(s, vmas, next, i + 1, (fuel - 1) as nat);
                }
            }
        },
    }
}

/// A place from below keeps the margin above the start of its gap.
proof fn lemma_up_bounds(s: Search, g: u64, a: u64)
    requires
        s.ok(),
        s.margin_ok(),
        g <= a,
        a == aligned_up(g.wrapping_add(s.start_gap), s.align_mask, s.align_offset),
    ensures
        a >= g + s.start_gap,
{
    let x = g.wrapping_add(s.start_gap);
    lemma_aligned_up(x, s.align_mask, s.align_offset);
}

/// A range from above lies between the limits and overlaps no mapping.
pub proof fn law_top_unmapped(s: Search, vmas: Seq<Vma>, a: u64)
    requires
        in_order(vmas),
        s.low < s.high,
        0 < s.length,
        s.top(vmas) == Some(a),
    ensures
        s.low <= a,
        a + s.length <= s.high,
        forall|i: int|
            0 <= i < vmas.len() ==> a + s.length <= (#[trigger] vmas[i]).start || vmas[i].end <= a,
{
    let hint = (s.high - 1) as u64;
    lemma_above(vmas, hint, 0);
    lemma_top_walk_sound(s, vmas, above(vmas, hint, 0), 1_000_000, a);
}

/// In order, the mapping that starts at an address is the first that ends above it.
proof fn lemma_above_start(vmas: Seq<Vma>, i: int)
    requires
        in_order(vmas),
        0 <= i < vmas.len(),
    ensures
        above(vmas, vmas[i].start, 0) == i,
{
    let addr = vmas[i].start;
    lemma_above(vmas, addr, 0);
    let a = above(vmas, addr, 0);
    assert(vmas[i].start < vmas[i].end);
    if a < i {
        assert(vmas[a].end <= vmas[i].start);
    }
}

proof fn lemma_top_walk_sound(s: Search, vmas: Seq<Vma>, p: int, fuel: nat, a: u64)
    requires
        in_order(vmas),
        0 <= p <= vmas.len(),
        s.top_walk(vmas, p, p, fuel) == Some(a),
    ensures
        s.low <= a,
        a + s.length <= s.high,
        forall|k: int|
            0 <= k < vmas.len() ==> a + s.length <= (#[trigger] vmas[k]).start || vmas[k].end <= a,
    decreases fuel,
{
    if s.top_of(s.gap_start(vmas, p), s.gap_end(vmas, p)) is Some {
        assert forall|k: int| 0 <= k < vmas.len() implies a + s.length <= (
        #[trigger] vmas[k]).start || vmas[k].end <= a by {
            if k >= p {
                assert(vmas[p].start_gap <= vmas[p].start < vmas[p].end);
                if k > p {
                    assert(vmas[p].end <= vmas[k].start);
                }
            } else {
                assert(vmas[p - 1].start < vmas[p - 1].end <= vmas[p - 1].end_gap);
                if k < p - 1 {
                    assert(vmas[k].end <= vmas[p - 1].start);
                }
            }
        }
    } else {
        lemma_above_start(vmas, p - 1);
        lemma_top_walk_sound(s, vmas, p - 1, (fuel - 1) as nat, a);
    }
}

/// First fit from above: the result keeps clear of every guard gap, is aligned,
/// and no higher address is. Without a result there is no such address.
pub proof fn law_top_first_fit(s: Search, vmas: Seq<Vma>)
    requires
        s.ok(),
        spaced(vmas),
        vmas.len() < MAX_ITERS,
    ensures
        match s.top(vmas) {
            Some(a) => s.fits_top(vmas, a) && forall|b: u64| #[trigger]
                s.fits_top(vmas, b) ==> b <= a,
            None => forall|b: u64| !#[trigger] s.fits_top(vmas, b),
        },
{
    let hint = (s.high - 1) as u64;
    lemma_above(vmas, hint, 0);
    let i = above(vmas, hint, 0);
    assert forall|b: u64| #[trigger] s.fits_top(vmas, b) implies b + s.length <= s.gap_end(
        vmas,
        i,
    ) by {
        if i < vmas.len() {
            assert(vmas[i].end <= vmas[i].end_gap);
            assert(b + s.length <= vmas[i].start_gap || b >= vmas[i].end_gap);
        }
    }
    lemma_top_walk_fit(s, vmas, i, 1_000_000);
}

proof fn lemma_top_walk_fit(s: Search, vmas: Seq<Vma>, p: int, fuel: nat)
    requires
        s.ok(),
        spaced(vmas),
        0 <= p <= vmas.len(),
        fuel > p,
        forall|b: u64| #[trigger] s.fits_top(vmas, b) ==> b + s.length <= s.gap_end(vmas, p),
    ensures
        match s.top_walk(vmas, p, p, fuel) {
            Some(a) => s.fits_top(vmas, a) && forall|b: u64| #[trigger]
                s.fits_top(vmas, b) ==> b <= a,
            None => forall|b: u64| !#[trigger] s.fits_top(vmas, b),
        },
    decreases fuel,
{
    let gs = s.gap_start(vmas, p);
    let ge = s.gap_end(vmas, p);
    let y = (ge - s.length) as u64;
    if p > 0 {
        assert(vmas[p - 1].start_gap <= vmas[p - 1].start < vmas[p - 1].end
            <= vmas[p - 1].end_gap);
    }
    assert forall|b: u64| #[trigger] s.fits_top(vmas, b) && b >= gs implies (s.top_of(
        gs,
        ge,
    ) matches Some(a) && b <= a) by {
        lemma_down_greatest(y, b, s.align_mask, s.align_offset);
    }
    match s.top_of(gs, ge) {
        Some(a) => {
            lemma_aligned_down(y, s.align_mask, s.align_offset);
            assert forall|k: int| 0 <= k < vmas.len() implies a + s.length <= (
            #[trigger] vmas[k]).start_gap || a >= vmas[k].end_gap + 0 by {
                if k > p {
                    assert(vmas[p].end_gap <= vmas[k].start_gap);
                    assert(vmas[p].start_gap <= vmas[p].start < vmas[p].end <= vmas[p].end_gap);
                }
                if k < p - 1 {
                    assert(vmas[k].end_gap <= vmas[p - 1].start_gap);
                }
            }
            assert(s.fits_top(vmas, a));
        },
        None => {
            if p > 0 {
                assert forall|b: u64| #[trigger] s.fits_top(vmas, b) implies b + s.length
                    <= s.gap_end(vmas, p - 1) by {
                    assert(b + s.length <= vmas[p - 1].start_gap || b >= vmas[p - 1].end_gap);
                }
                lemma_above_start(vmas, p - 1);
                lemma_top_walk_fit(s, vmas, p - 1, (fuel - 1) as nat);
            }
        },
    }
}

/// The search finds the highest place that the request allows, or the lowest if it is
/// from below, and fails only if there is none.
pub proof fn law_unmapped_area(info: UnmappedInfo, vmas: Seq<Vma>, mmap_min: u64)
    requires
        info.sound(vmas),
    ensures
        info.best(vmas, mmap_min, unmapped_area(Some(info), Some(vmas), mmap_min)),
{
    let r = unmapped_area(Some(info), Some(vmas), mmap_min);
    let low = if info.low_limit < mmap_min {
        mmap_min
    } else {
        info.low_limit
    };
    if low + info.length <= info.high_limit {
        let s = Search {
            length: info.length,
            align_mask: info.align_mask,
            align_offset: info.align_offset,
            start_gap: info.start_gap,
            low,
            high: info.high_limit,
        };
        assert(searched(info, mmap_min) == Some(s));
        if info.flags & TOPDOWN != 0 {
            law_top_first_fit(s, vmas);
            assert forall|b: u64| #[trigger] info.place(vmas, mmap_min, b) == s.fits_top(vmas, b) by {
                assert(s.clear(vmas, b, 0) == (s.low <= b && b + s.length <= s.high && forall|i: int|
                    0 <= i < vmas.len() ==> b + s.length <= (#[trigger] vmas[i]).start_gap || b
                        >= vmas[i].end_gap));
            }
            assert(info.place(vmas, mmap_min, r) == s.fits_top(vmas, r));
        } else {
            law_bottom_first_fit(s, vmas);
            assert forall|b: u64| #[trigger]
                info.place(vmas, mmap_min, b) == s.fits_bottom(vmas, b) by {
                lemma_mask_sign(b, info.align_offset, info.align_mask);
            }
            assert(info.place(vmas, mmap_min, r) == s.fits_bottom(vmas, r));
        }
    } else {
        assert forall|b: u64| !#[trigger] info.place(vmas, mmap_min, b) by {}
    }
}

/// A difference is aligned whichever way round it is taken.
proof fn lemma_mask_sign(a: u64, off: u64, mask: u64)
    requires
        is_mask(mask),
    ensures
        (a.wrapping_sub(off) & mask == 0) == (off.wrapping_sub(a) & mask == 0),
{
    let d = a.wrapping_sub(off);
    let e = off.wrapping_sub(a);
    let m1 = mask.wrapping_add(1);
    lemma_wraps(mask);
    assert(e == (0x1_0000_0000_0000_0000 - d) as u64) by {
        assert(d == 0 ==> (0x1_0000_0000_0000_0000 - d) as u64 == 0) by (bit_vector);
    }
    assert(mask & m1 == 0 && m1 == (mask + 1) as u64 && e == (0x1_0000_0000_0000_0000 - d) as u64
        ==> ((d & mask == 0) == (e & mask == 0))) by (bit_vector);
}

/// Without a request or an address space, for an empty range, and where the worst case
/// is not representable, there is no range.
pub proof fn law_unmapped_refused(
    info: Option<UnmappedInfo>,
    vmas: Option<Seq<Vma>>,
    mmap_min: u64,
)
    ensures
        info is None || vmas is None ==> unmapped_area(info, vmas, mmap_min) == ENOMEM_ADDR,
        info matches Some(i) ==> i.length == 0 ==> unmapped_area(info, vmas, mmap_min)
            == ENOMEM_ADDR,
        info matches Some(i) ==> i.align_mask + i.start_gap <= u64::MAX && i.length + i.align_mask
            + i.start_gap > u64::MAX ==> unmapped_area(info, vmas, mmap_min) == ENOMEM_ADDR,
{
}

/// Whatever the alignment and the guard gaps are, a range that is found lies between the
/// limits and overlaps no mapping.
pub proof fn law_area_unmapped(info: UnmappedInfo, vmas: Seq<Vma>, mmap_min: u64, i: int)
    requires
        in_order(vmas),
        unmapped_area(Some(info), Some(vmas), mmap_min) != ENOMEM_ADDR,
        0 <= i < vmas.len(),
    ensures
        ({
            let a = unmapped_area(Some(info), Some(vmas), mmap_min);
            &&& info.low_limit <= a
            &&& mmap_min <= a
            &&& a + info.length <= info.high_limit
            &&& a + info.length <= vmas[i].start || vmas[i].end <= a
        }),
{
    let a = unmapped_area(Some(info), Some(vmas), mmap_min);
    let s = searched(info, mmap_min)->0;
    if info.flags & TOPDOWN != 0 {
        law_top_unmapped(s, vmas, a);
    } else {
        law_bottom_unmapped(s, vmas, a);
    }
}

} // verus!
