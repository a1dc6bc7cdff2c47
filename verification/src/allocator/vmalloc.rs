//! First-fit allocation of virtual address ranges.
//!
//! The address space is cut into slots, each free or busy. Their number is bounded
//! and room for all of them is set aside at the start, so that no operation on the
//! address space allocates.

use vstd::prelude::*;
use crate::allocator::request;
use crate::allocator::request::{dangling, AllocError, Buffer, Flags, Layout, NumaNode};

verus! {

/// Maximum number of slots.
pub const MAX_SLOTS: usize = 4096;

/// Result of binding a range that cannot be bound.
pub const FAILED: i32 = -1;

/// The addresses from `start` up to `end`.
#[derive(Clone, Copy, PartialEq, Eq, Structural, Debug)]
pub struct Slot {
    pub start: u64,
    pub end: u64,
    /// What a busy slot is bound to, or 0.
    pub vm: u64,
    pub busy: bool,
}

/// The slots of the address space.
pub struct Vmap {
    pub slots: Vec<Slot>,
    /// Bytes per page of the machine.
    pub page_size: u64,
}

/// `addr` rounded up to `align`, a power of two, in 64-bit arithmetic.
pub open spec fn rounded(addr: u64, align: u64) -> u64 {
    let a: u64 = if align == 0 {
        1
    } else {
        align
    };
    (if addr + (a - 1) > u64::MAX {
        (addr + (a - 1) - u64::MAX - 1) as u64
    } else {
        (addr + (a - 1)) as u64
    }) & !((a - 1) as u64)
}

/// The alignment in force for a requested one: at least a page.
pub open spec fn page_align(page_size: u64, align: u64) -> u64 {
    if align < page_size {
        page_size
    } else {
        align
    }
}

/// What a reservation asks for, with the alignment in force.
pub ghost struct Want {
    pub size: u64,
    pub align: u64,
    pub lo: u64,
    pub hi: u64,
}

impl Want {
    /// Where the reservation would start in `s`.
    pub open spec fn start_in(self, s: Slot) -> u64 {
        rounded(
            if s.start < self.lo {
                self.lo
            } else {
                s.start
            },
            self.align,
        )
    }

    /// `s` is free and has room between the limits.
    pub open spec fn served_by(self, s: Slot) -> bool {
        let start = self.start_in(s);
        &&& !s.busy
        &&& s.start <= start
        &&& self.lo <= start
        &&& start + self.size <= s.end
        &&& start + self.size <= self.hi
    }

    /// First slot from `from` on with room, or the number of slots.
    pub open spec fn first(self, slots: Seq<Slot>, from: int) -> int
        decreases slots.len() - from,
    {
        if from < 0 || from >= slots.len() || self.served_by(slots[from]) {
            from
        } else {
            self.first(slots, from + 1)
        }
    }
}

/// A free slot.
pub open spec fn free_slot(start: u64, end: u64) -> Slot {
    Slot { start, end, vm: 0, busy: false }
}

/// `slots` with slot `i` replaced by `parts`.
pub open spec fn replaced(slots: Seq<Slot>, i: int, parts: Seq<Slot>) -> Seq<Slot> {
    slots.take(i) + parts + slots.skip(i + 1)
}

/// Slot `i` cut down to `start..end`, with free slots for what is left of it.
/// `None` where there are too few slots for that.
pub open spec fn carved(slots: Seq<Slot>, i: int, start: u64, end: u64, vm: u64) -> Option<
    Seq<Slot>,
> {
    let s = slots[i];
    let before = if start > s.start {
        seq![free_slot(s.start, start)]
    } else {
        Seq::empty()
    };
    let after = if end < s.end {
        seq![free_slot(end, s.end)]
    } else {
        Seq::empty()
    };
    if slots.len() + before.len() + after.len() > MAX_SLOTS {
        None
    } else {
        Some(replaced(slots, i, before + seq![Slot { start, end, vm, busy: true }] + after))
    }
}

/// What is left of the slots where there are too few to carve one: the free
/// space before `start`, or behind `end`, is lost.
pub open spec fn carve_lost(slots: Seq<Slot>, i: int, start: u64, end: u64) -> Seq<Slot> {
    let s = slots[i];
    if start > s.start && slots.len() >= MAX_SLOTS {
        slots.update(i, Slot { start, ..s })
    } else if start > s.start {
        replaced(slots, i, seq![free_slot(s.start, start), Slot { start, end, ..s }])
    } else {
        slots.update(i, Slot { end, ..s })
    }
}

/// The slots after a reservation, and the address reserved or 0.
pub open spec fn reserved(slots: Seq<Slot>, want: Want) -> (Seq<Slot>, u64) {
    let i = want.first(slots, 0);
    if want.size == 0 || i >= slots.len() {
        (slots, 0)
    } else {
        let start = want.start_in(slots[i]);
        let end = (start + want.size) as u64;
        match carved(slots, i, start, end, 0) {
            Some(new) => (new, start),
            None => (carve_lost(slots, i, start, end), 0),
        }
    }
}

fn align_up(addr: u64, align: u64) -> (r: u64)
    ensures
        r == rounded(addr, align),
{
    let a: u64 = if align == 0 {
        1
    } else {
        align
    };
    addr.wrapping_add(a - 1) & !(a - 1)
}

impl Vmap {
    /// There are no more slots than there may be.
    pub open spec fn wf(&self) -> bool {
        self.slots@.len() <= MAX_SLOTS
    }

    /// An address space without slots, in pages of `page_size` bytes.
    pub fn new(page_size: u64) -> (r: Vmap)
        ensures
            r.wf(),
            r.slots@.len() == 0,
            r.page_size == page_size,
    {
        Vmap { slots: Vec::with_capacity(MAX_SLOTS), page_size }
    }

    fn insert_slot(&mut self, idx: usize, slot: Slot) -> (r: bool)
        requires
            old(self).wf(),
            idx <= old(self).slots@.len(),
        ensures
            final(self).wf(),
            final(self).page_size == old(self).page_size,
            r == (old(self).slots@.len() < MAX_SLOTS),
            final(self).slots@ == if r {
                old(self).slots@.insert(idx as int, slot)
            } else {
                old(self).slots@
            },
    {
        if self.slots.len() >= MAX_SLOTS {
            return false;
        }
        self.slots.insert(idx, slot);
        true
    }

    fn remove_slot(&mut self, idx: usize)
        requires
            old(self).wf(),
            idx < old(self).slots@.len(),
        ensures
            final(self).wf(),
            final(self).page_size == old(self).page_size,
            final(self).slots@ == old(self).slots@.remove(idx as int),
    {
        self.slots.remove(idx);
    }

    /// Cuts slot `i` down to `start..end` and marks it busy; false if there are
    /// too few slots.
    fn carve(&mut self, i: usize, start: u64, end: u64, vm: u64) -> (r: bool)
        requires
            old(self).wf(),
            i < old(self).slots@.len(),
            !old(self).slots@[i as int].busy,
            old(self).slots@[i as int].start <= start,
            end <= old(self).slots@[i as int].end,
        ensures
            final(self).wf(),
            final(self).page_size == old(self).page_size,
            match carved(old(self).slots@, i as int, start, end, vm) {
                Some(new) => r && final(self).slots@ == new,
                None => !r && final(self).slots@ == carve_lost(
                    old(self).slots@,
                    i as int,
                    start,
                    end,
                ),
            },
    {
        let ghost slots = self.slots@;
        let s = self.slots[i];
        let mut idx = i;
        if start > s.start {
            let prefix = Slot { start: s.start, end: start, vm: 0, busy: false };
            self.slots[i] = Slot { start, end: s.end, vm: s.vm, busy: s.busy };
            if !self.insert_slot(i, prefix) {
                return false;
            }
            idx = i + 1;
            assert(self.slots@ =~= replaced(
                slots,
                i as int,
                seq![free_slot(s.start, start), Slot { start, ..s }],
            ));
        }
        if end < s.end {
            let suffix = Slot { start: end, end: s.end, vm: 0, busy: false };
            self.slots[idx] = Slot { start, end, vm: s.vm, busy: s.busy };
            if !self.insert_slot(idx + 1, suffix) {
                assert(self.slots@ =~= carve_lost(slots, i as int, start, end));
                return false;
            }
        }
        self.slots[idx] = Slot { start, end, vm, busy: true };
        assert(self.slots@ =~= carved(slots, i as int, start, end, vm)->0);
        true
    }
}

/// The slots of `start..end` while nothing is reserved.
pub open spec fn all_free(start: u64, end: u64) -> Seq<Slot> {
    seq![free_slot(start, end)]
}

/// Makes `start..end` one free slot.
pub fn rust_vmap_init(v: &mut Vmap, start: u64, end: u64)
    ensures
        final(v).wf(),
        final(v).page_size == old(v).page_size,
        final(v).slots@ == all_free(start, end),
{
    let mut slots: Vec<Slot> = Vec::with_capacity(MAX_SLOTS);
    slots.push(Slot { start, end, vm: 0, busy: false });
    v.slots = slots;
    assert(v.slots@ =~= all_free(start, end));
}

/// Reserves `size` bytes in `range_start..range_end`, aligned to `align`, and
/// returns their address, or 0.
pub fn rust_vmap_alloc(v: &mut Vmap, size: u64, align: u64, range_start: u64, range_end: u64) -> (r:
    u64)
    requires
        old(v).wf(),
    ensures
        final(v).wf(),
        final(v).page_size == old(v).page_size,
        (final(v).slots@, r) == reserved(
            old(v).slots@,
            wanted(old(v).page_size, size, align, range_start, range_end),
        ),
        aligned_for(old(v).page_size, align, r),
{
    proof {
        if is_pow2(align) && is_pow2(v.page_size) {
            let w = wanted(v.page_size, size, align, range_start, range_end);
            if reserved(v.slots@, w).1 != 0 {
                law_alloc_aligned(v.slots@, v.page_size, size, align, range_start, range_end);
            }
            lemma_zero_aligned(align);
            lemma_zero_aligned(v.page_size);
        }
    }
    let ghost want = Want {
        size,
        align: page_align(v.page_size, align),
        lo: range_start,
        hi: range_end,
    };
    if size == 0 {
        return 0;
    }
    let by: u64 = if align < v.page_size {
        v.page_size
    } else {
        align
    };
    let mut i: usize = 0;
    while i < v.slots.len()
        invariant
            v.wf(),
            v.slots@ == old(v).slots@,
            v.page_size == old(v).page_size,
            i <= v.slots@.len(),
            want == (Want { size, align: by, lo: range_start, hi: range_end }),
            by == page_align(old(v).page_size, align),
            size > 0,
            aligned_for(old(v).page_size, align, reserved(v.slots@, want).1),
            want.first(v.slots@, 0) == want.first(v.slots@, i as int),
        decreases v.slots@.len() - i,
    {
        let s = v.slots[i];
        if !s.busy {
            let lo: u64 = if s.start < range_start {
                range_start
            } else {
                s.start
            };
            let hi: u64 = if s.end > range_end {
                range_end
            } else {
                s.end
            };
            let start = align_up(lo, by);
            if !(start < lo || start.wrapping_add(size) < start || start.wrapping_add(size) > hi) {
                assert(want.served_by(s));
                let end = start + size;
                if v.carve(i, start, end, 0) {
                    return start;
                }
                return 0;
            }
        }
        i = i + 1;
    }
    0
}

/// First slot from `from` on that starts at `addr` and reaches `end`, or the number of
/// slots.
pub open spec fn starting_at(slots: Seq<Slot>, addr: u64, end: int, from: int) -> int
    decreases slots.len() - from,
{
    if from < 0 || from >= slots.len() || (slots[from].start == addr && slots[from].end >= end) {
        from
    } else {
        starting_at(slots, addr, end, from + 1)
    }
}

/// First free slot from `from` on that holds `addr..end`, or the number of slots.
pub open spec fn free_around(slots: Seq<Slot>, addr: u64, end: int, from: int) -> int
    decreases slots.len() - from,
{
    if from < 0 || from >= slots.len() || (!slots[from].busy && slots[from].start <= addr && end
        <= slots[from].end) {
        from
    } else {
        free_around(slots, addr, end, from + 1)
    }
}

/// The slots after a range is bound, and the result.
pub open spec fn bound(slots: Seq<Slot>, addr: u64, size: u64, vm: u64) -> (Seq<Slot>, i32) {
    let end = addr + size;
    let i = starting_at(slots, addr, end, 0);
    let j = free_around(slots, addr, end, 0);
    if end > u64::MAX {
        (slots, FAILED)
    } else if i < slots.len() {
        (slots.update(i, Slot { vm, busy: true, ..slots[i] }), 0)
    } else if j < slots.len() {
        match carved(slots, j, addr, end as u64, vm) {
            Some(new) => (new, 0),
            None => (carve_lost(slots, j, addr, end as u64), FAILED),
        }
    } else {
        (slots, FAILED)
    }
}

/// Binds the slot that starts at `addr`, reserved or not, to `vm` as a whole if it
/// has `size` bytes, or else takes the range out of the free slot around it. Returns 0,
/// or [`FAILED`] if neither can be done.
pub fn rust_vmap_insert(v: &mut Vmap, addr: u64, size: u64, vm: u64) -> (r: i32)
    requires
        old(v).wf(),
    ensures
        final(v).wf(),
        final(v).page_size == old(v).page_size,
        (final(v).slots@, r) == bound(old(v).slots@, addr, size, vm),
{
    let end: u64 = match addr.checked_add(size) {
        None => {
            return FAILED;
        },
        Some(end) => end,
    };
    let mut i: usize = 0;
    while i < v.slots.len()
        invariant
            v.wf(),
            v.slots@ == old(v).slots@,
            v.page_size == old(v).page_size,
            end == addr + size,
            i <= v.slots@.len(),
            starting_at(v.slots@, addr, end as int, 0) == starting_at(
                v.slots@,
                addr,
                end as int,
                i as int,
            ),
        decreases v.slots@.len() - i,
    {
        let s = v.slots[i];
        if s.start == addr && s.end >= end {
            v.slots[i] = Slot { start: s.start, end: s.end, vm, busy: true };
            return 0;
        }
        i = i + 1;
    }
    let mut j: usize = 0;
    while j < v.slots.len()
        invariant
            v.wf(),
            v.slots@ == old(v).slots@,
            v.page_size == old(v).page_size,
            end == addr + size,
            j <= v.slots@.len(),
            starting_at(v.slots@, addr, end as int, 0) >= v.slots@.len(),
            free_around(v.slots@, addr, end as int, 0) == free_around(
                v.slots@,
                addr,
                end as int,
                j as int,
            ),
        decreases v.slots@.len() - j,
    {
        let s = v.slots[j];
        if !s.busy && s.start <= addr && end <= s.end {
            if v.carve(j, addr, end, vm) {
                return 0;
            }
            return FAILED;
        }
        j = j + 1;
    }
    FAILED
}

/// First busy slot from `from` on that holds `addr`, or the number of slots.
pub open spec fn busy_around(slots: Seq<Slot>, addr: u64, from: int) -> int
    decreases slots.len() - from,
{
    if from < 0 || from >= slots.len() || (slots[from].busy && slots[from].start <= addr
        < slots[from].end) {
        from
    } else {
        busy_around(slots, addr, from + 1)
    }
}

impl Vmap {
    fn find(&self, addr: u64) -> (r: Option<usize>)
        ensures
            r == if busy_around(self.slots@, addr, 0) < self.slots@.len() {
                Some(busy_around(self.slots@, addr, 0) as usize)
            } else {
                None
            },
            r matches Some(i) ==> i < self.slots@.len() && i == busy_around(self.slots@, addr, 0),
    {
        let mut i: usize = 0;
        while i < self.slots.len()
            invariant
                i <= self.slots@.len(),
                busy_around(self.slots@, addr, 0) == busy_around(self.slots@, addr, i as int),
            decreases self.slots@.len() - i,
        {
            let s = self.slots[i];
            if s.busy && addr >= s.start && addr < s.end {
                return Some(i);
            }
            i = i + 1;
        }
        None
    }
}

/// What the busy slot around `addr` is bound to, or 0.
pub open spec fn found(slots: Seq<Slot>, addr: u64) -> u64 {
    let i = busy_around(slots, addr, 0);
    if i < slots.len() {
        slots[i].vm
    } else {
        0
    }
}

/// Looks up what the range around `addr` is bound to, or 0.
pub fn rust_vmap_find(v: &Vmap, addr: u64) -> (r: u64)
    ensures
        r == found(v.slots@, addr),
{
    match v.find(addr) {
        Some(i) => v.slots[i].vm,
        None => 0,
    }
}

/// Start and end of the busy slot around `addr`.
pub open spec fn spanned(slots: Seq<Slot>, addr: u64) -> Option<(u64, u64)> {
    let i = busy_around(slots, addr, 0);
    if i < slots.len() {
        Some((slots[i].start, slots[i].end))
    } else {
        None
    }
}

/// Returns the start and end of the busy range around `addr`.
pub fn rust_vmap_span(v: &Vmap, addr: u64) -> (r: Option<(u64, u64)>)
    ensures
        r == spanned(v.slots@, addr),
{
    match v.find(addr) {
        Some(i) => Some((v.slots[i].start, v.slots[i].end)),
        None => None,
    }
}

/// Two free slots that are one stretch of addresses.
pub open spec fn merges(a: Slot, b: Slot) -> bool {
    !a.busy && !b.busy && a.end == b.start
}

/// `slots` with `s` behind them, merged if both are free.
pub open spec fn merged(slots: Seq<Slot>, s: Slot) -> Seq<Slot> {
    if slots.len() > 0 && merges(slots.last(), s) {
        slots.drop_last().push(Slot { end: s.end, ..slots.last() })
    } else {
        slots.push(s)
    }
}

/// `a` with the slots of `b` behind them, one after the other, merged where free.
pub open spec fn merged_all(a: Seq<Slot>, b: Seq<Slot>) -> Seq<Slot>
    decreases b.len(),
{
    if b.len() == 0 {
        a
    } else {
        merged_all(merged(a, b[0]), b.drop_first())
    }
}

/// First busy slot from `from` on that starts at `addr`, or the number of slots.
pub open spec fn busy_from(slots: Seq<Slot>, addr: u64, from: int) -> int
    decreases slots.len() - from,
{
    if from < 0 || from >= slots.len() || (slots[from].busy && slots[from].start == addr) {
        from
    } else {
        busy_from(slots, addr, from + 1)
    }
}

/// The slots after a range is given up, and what it was bound to.
pub open spec fn removed(slots: Seq<Slot>, addr: u64) -> (Seq<Slot>, u64) {
    let i = busy_from(slots, addr, 0);
    if i < slots.len() {
        (
            merged_all(
                Seq::empty(),
                slots.update(i, Slot { vm: 0, busy: false, ..slots[i] }),
            ),
            slots[i].vm,
        )
    } else {
        (slots, 0)
    }
}

fn coalesce(v: &mut Vmap)
    requires
        old(v).wf(),
    ensures
        final(v).wf(),
        final(v).page_size == old(v).page_size,
        final(v).slots@ == merged_all(Seq::empty(), old(v).slots@),
{
    let ghost all = merged_all(Seq::empty(), v.slots@);
    let mut i: usize = 0;
    proof {
        if v.slots@.len() > 0 {
            assert(v.slots@.take(1) =~= merged(Seq::empty(), v.slots@[0]));
            assert(v.slots@.skip(1) =~= v.slots@.drop_first());
        }
    }
    while i + 1 < v.slots.len()
        invariant
            v.wf(),
            v.page_size == old(v).page_size,
            all == merged_all(Seq::empty(), old(v).slots@),
            i <= MAX_SLOTS,
            v.slots@.len() == 0 ==> v.slots@ == old(v).slots@,
            v.slots@.len() > 0 ==> i < v.slots@.len() && all == merged_all(
                v.slots@.take(i + 1),
                v.slots@.skip(i + 1),
            ),
        decreases v.slots@.len() - i,
    {
        let ghost cur = v.slots@;
        let a = v.slots[i];
        let b = v.slots[i + 1];
        proof {
            assert(cur.skip(i + 1)[0] == b);
            assert(cur.skip(i + 1).drop_first() =~= cur.skip(i + 2));
            assert(cur.take(i + 1).last() == a);
        }
        if !a.busy && !b.busy && a.end == b.start {
            v.slots[i] = Slot { start: a.start, end: b.end, vm: a.vm, busy: a.busy };
            v.remove_slot(i + 1);
            proof {
                assert(v.slots@.take(i + 1) =~= merged(cur.take(i + 1), b));
                assert(v.slots@.skip(i + 1) =~= cur.skip(i + 2));
            }
        } else {
            assert(cur.take(i + 2) =~= merged(cur.take(i + 1), b));
            i = i + 1;
        }
    }
    proof {
        if v.slots@.len() > 0 {
            assert(v.slots@.take(i + 1) =~= v.slots@);
            assert(v.slots@.skip(i + 1) =~= Seq::empty());
        }
    }
}

/// Gives up the range that starts at `addr` and returns what it was bound to, or 0.
pub fn rust_vmap_remove(v: &mut Vmap, addr: u64) -> (r: u64)
    requires
        old(v).wf(),
    ensures
        final(v).wf(),
        final(v).page_size == old(v).page_size,
        (final(v).slots@, r) == removed(old(v).slots@, addr),
{
    let mut i: usize = 0;
    while i < v.slots.len()
        invariant
            v.wf(),
            v.slots@ == old(v).slots@,
            v.page_size == old(v).page_size,
            i <= v.slots@.len(),
            busy_from(v.slots@, addr, 0) == busy_from(v.slots@, addr, i as int),
        decreases v.slots@.len() - i,
    {
        let s = v.slots[i];
        if s.busy && s.start == addr {
            v.slots[i] = Slot { start: s.start, end: s.end, vm: 0, busy: false };
            coalesce(v);
            return s.vm;
        }
        i = i + 1;
    }
    0
}

/// What resizing a buffer needs next.
#[derive(Clone, Copy, PartialEq, Eq, Structural, Debug)]
pub enum ReallocStep {
    /// Free this buffer, then return the other one.
    FreeThen(u64, Buffer),
    /// Return this buffer.
    Done(Buffer),
    /// Resize the buffer at `old`, or make one if that is 0, and call
    /// [`realloc_done`] with the outcome.
    Resize { old: u64, size: u64, align: u64, flags: u32, nid: i32 },
}

/// How a buffer is allocated, freed or resized.
pub open spec fn resizing(
    ptr: Option<u64>,
    layout: Layout,
    old_layout: Layout,
    flags: Flags,
    nid: NumaNode,
) -> ReallocStep {
    let live = if old_layout.size != 0 {
        ptr
    } else {
        None
    };
    let empty = request::without_size(layout);
    if layout.size == 0 {
        match live {
            Some(p) => ReallocStep::FreeThen(p, empty),
            None => ReallocStep::Done(empty),
        }
    } else {
        ReallocStep::Resize {
            old: match live {
                Some(p) => p,
                None => 0,
            },
            size: layout.size,
            align: layout.align,
            flags: flags.raw,
            nid: nid.0,
        }
    }
}

/// Allocates, frees or resizes a buffer.
pub fn realloc(
    ptr: Option<u64>,
    layout: Layout,
    old_layout: Layout,
    flags: Flags,
    nid: NumaNode,
) -> (r: ReallocStep)
    ensures
        r == resizing(ptr, layout, old_layout, flags, nid),
{
    if layout.size == 0 {
        if let Some(p) = ptr {
            if old_layout.size != 0 {
                return ReallocStep::FreeThen(p, dangling(layout));
            }
        }
        return ReallocStep::Done(dangling(layout));
    }
    let old: u64 = match ptr {
        Some(p) => if old_layout.size != 0 {
            p
        } else {
            0
        },
        None => 0,
    };
    ReallocStep::Resize {
        old,
        size: layout.size,
        align: layout.align,
        flags: flags.raw,
        nid: nid.0,
    }
}

/// The result of resizing: `raw` is the address that came back, or 0.
pub fn realloc_done(raw: u64, layout: Layout) -> (r: Result<Buffer, AllocError>)
    ensures
        r == request::handed_out(raw, layout),
{
    if raw == 0 {
        Err(AllocError)
    } else {
        Ok(Buffer { addr: raw, len: layout.size })
    }
}

/// What is logged when the allocator takes over.
pub const ANNOUNCEMENT: &'static str = "rust-vmalloc: page+vmap backend active\n";

/// The message to log when the allocator takes over.
pub fn announce() -> (r: &'static str)
    ensures
        r == ANNOUNCEMENT,
{
    ANNOUNCEMENT
}

/// The slots are in order, have room, do not overlap, and free ones are bound to nothing.
pub open spec fn placed(slots: Seq<Slot>) -> bool {
    &&& forall|i: int|
        0 <= i < slots.len() ==> (#[trigger] slots[i]).start < slots[i].end && (!slots[i].busy
            ==> slots[i].vm == 0)
    &&& forall|i: int, j: int|
        0 <= i < j < slots.len() ==> (#[trigger] slots[i]).end <= (#[trigger] slots[j]).start
}

/// Slots `i` and `i + 1` are not one free stretch in two pieces.
pub open spec fn kept_apart(slots: Seq<Slot>, i: int) -> bool {
    !merges(slots[i], slots[i + 1])
}

/// Free stretches are in one piece.
pub open spec fn tidy(slots: Seq<Slot>) -> bool {
    forall|i: int| 0 <= i < slots.len() - 1 ==> #[trigger] kept_apart(slots, i)
}

/// `x` lies in a busy slot.
pub open spec fn held(slots: Seq<Slot>, x: u64) -> bool {
    busy_around(slots, x, 0) < slots.len()
}

proof fn lemma_busy_around(slots: Seq<Slot>, x: u64, from: int)
    requires
        0 <= from <= slots.len(),
    ensures
        from <= busy_around(slots, x, from) <= slots.len(),
        busy_around(slots, x, from) < slots.len() ==> {
            let s = slots[busy_around(slots, x, from)];
            s.busy && s.start <= x < s.end
        },
        busy_around(slots, x, from) == slots.len() ==> forall|i: int|
            from <= i < slots.len() ==> !((#[trigger] slots[i]).busy && slots[i].start <= x
                < slots[i].end),
    decreases slots.len() - from,
{
    if from < slots.len() && !(slots[from].busy && slots[from].start <= x < slots[from].end) {
        lemma_busy_around(slots, x, from + 1);
    }
}

/// The busy slot around an address is the only slot around it.
proof fn lemma_holder(slots: Seq<Slot>, x: u64, i: int)
    requires
        placed(slots),
        0 <= i < slots.len(),
        slots[i].start <= x < slots[i].end,
    ensures
        slots[i].busy ==> busy_around(slots, x, 0) == i,
        !slots[i].busy ==> !held(slots, x),
        held(slots, x) == slots[i].busy,
        found(slots, x) == slots[i].vm,
{
    lemma_busy_around(slots, x, 0);
    let b = busy_around(slots, x, 0);
    if b < slots.len() {
        if b < i {
            assert(slots[b].end <= slots[i].start);
        } else if b > i {
            assert(slots[i].end <= slots[b].start);
        }
    }
}

/// Where the slots stand after a range was carved out of slot `i`.
proof fn lemma_carved_shape(slots: Seq<Slot>, i: int, start: u64, end: u64, vm: u64)
    requires
        0 <= i < slots.len(),
        slots[i].start <= start < end <= slots[i].end,
        carved(slots, i, start, end, vm) is Some,
    ensures
        ({
            let new = carved(slots, i, start, end, vm)->0;
            let k = if start > slots[i].start {
                i + 1
            } else {
                i
            };
            let d = new.len() - slots.len();
            &&& 0 <= k < new.len()
            &&& new[k] == (Slot { start, end, vm, busy: true })
            &&& new.len() <= MAX_SLOTS
            &&& forall|j: int| 0 <= j < i ==> #[trigger] new[j] == slots[j]
            &&& forall|j: int| i < j < slots.len() ==> #[trigger] slots[j] == new[j + d]
            &&& forall|j: int| i + d < j < new.len() ==> #[trigger] new[j] == slots[j - d]
            &&& k > i ==> new[i] == free_slot(slots[i].start, start)
            &&& end < slots[i].end ==> new[k + 1] == free_slot(end, slots[i].end) && d == k - i + 1
            &&& end == slots[i].end ==> d == k - i
        }),
{
    let new = carved(slots, i, start, end, vm)->0;
    let d = new.len() - slots.len();
    assert forall|j: int| i < j < slots.len() implies #[trigger] slots[j] == new[j + d] by {}
    assert forall|j: int| i + d < j < new.len() implies #[trigger] new[j] == slots[j - d] by {}
}

/// Carving a range out of a free slot makes that range busy and changes nothing else.
proof fn lemma_carved(slots: Seq<Slot>, i: int, start: u64, end: u64, vm: u64)
    requires
        placed(slots),
        0 <= i < slots.len(),
        !slots[i].busy,
        slots[i].start <= start < end <= slots[i].end,
        carved(slots, i, start, end, vm) is Some,
    ensures
        ({
            let new = carved(slots, i, start, end, vm)->0;
            let k = if start > slots[i].start {
                i + 1
            } else {
                i
            };
            let d = new.len() - slots.len();
            &&& placed(new)
            &&& 0 <= k < new.len()
            &&& new[k] == (Slot { start, end, vm, busy: true })
            &&& new.len() <= MAX_SLOTS
            &&& forall|j: int| 0 <= j < i ==> #[trigger] new[j] == slots[j]
            &&& forall|j: int| i < j < slots.len() ==> #[trigger] slots[j] == new[j + d]
            &&& k > i ==> new[i] == free_slot(slots[i].start, start)
            &&& end < slots[i].end ==> new[k + 1] == free_slot(end, slots[i].end) && d == k - i + 1
            &&& end == slots[i].end ==> d == k - i
        }),
{
    lemma_carved_shape(slots, i, start, end, vm);
    lemma_carved_placed(slots, carved(slots, i, start, end, vm)->0, i, start, end, vm);
}

/// Slots that differ from slots in order only by what slot `i` was cut into are in order.
proof fn lemma_carved_placed(
    slots: Seq<Slot>,
    new: Seq<Slot>,
    i: int,
    start: u64,
    end: u64,
    vm: u64,
)
    requires
        placed(slots),
        0 <= i < slots.len(),
        slots[i].start <= start < end <= slots[i].end,
        ({
            let k = if start > slots[i].start {
                i + 1
            } else {
                i
            };
            let d = new.len() - slots.len();
            &&& 0 <= k < new.len()
            &&& new[k] == (Slot { start, end, vm, busy: true })
            &&& forall|j: int| 0 <= j < i ==> #[trigger] new[j] == slots[j]
            &&& forall|j: int| i + d < j < new.len() ==> #[trigger] new[j] == slots[j - d]
            &&& k > i ==> new[i] == free_slot(slots[i].start, start)
            &&& end < slots[i].end ==> new[k + 1] == free_slot(end, slots[i].end) && d == k - i + 1
            &&& end == slots[i].end ==> d == k - i
        }),
    ensures
        placed(new),
{
    let s = slots[i];
    let d = new.len() - slots.len();
    assert forall|j: int| 0 <= j < new.len() implies (#[trigger] new[j]).start < new[j].end && (
    !new[j].busy ==> new[j].vm == 0) by {
        if j < i {
            assert(slots[j].start < slots[j].end);
        } else if j > i + d {
            assert(slots[j - d].start < slots[j - d].end);
        }
    }
    assert forall|a: int, b: int| 0 <= a < b < new.len() implies (#[trigger] new[a]).end <= (
    #[trigger] new[b]).start by {
        if a < i {
            if b < i {
                assert(slots[a].end <= slots[b].start);
            } else if b <= i + d {
                assert(slots[a].end <= slots[i].start);
            } else {
                assert(slots[a].end <= slots[b - d].start);
            }
        } else if a <= i + d {
            if b > i + d {
                assert(slots[i].end <= slots[b - d].start);
            }
        } else {
            assert(slots[a - d].end <= slots[b - d].start);
        }
    }
}

/// [`lemma_carved`], address by address.
proof fn lemma_carved_at(slots: Seq<Slot>, i: int, start: u64, end: u64, vm: u64, x: u64)
    requires
        placed(slots),
        0 <= i < slots.len(),
        !slots[i].busy,
        slots[i].start <= start < end <= slots[i].end,
        carved(slots, i, start, end, vm) is Some,
    ensures
        ({
            let new = carved(slots, i, start, end, vm)->0;
            &&& start <= x < end ==> held(new, x) && found(new, x) == vm && !held(slots, x)
            &&& !(start <= x < end) ==> held(new, x) == held(slots, x) && found(new, x) == found(
                slots,
                x,
            )
        }),
{
    lemma_carved(slots, i, start, end, vm);
    let new = carved(slots, i, start, end, vm)->0;
    let s = slots[i];
    let d = new.len() - slots.len();
    let k = if start > s.start {
        i + 1
    } else {
        i
    };
    lemma_busy_around(slots, x, 0);
    lemma_busy_around(new, x, 0);
    if start <= x < end {
        lemma_holder(new, x, k);
        lemma_holder(slots, x, i);
    } else if s.start <= x < s.end {
        lemma_holder(slots, x, i);
        if x < start {
            lemma_holder(new, x, i);
        } else {
            lemma_holder(new, x, k + 1);
        }
    } else {
        if held(slots, x) {
            let j = busy_around(slots, x, 0);
            if j < i {
                assert(new[j] == slots[j]);
                lemma_holder(new, x, j);
            } else {
                assert(slots[j] == new[j + d]);
                lemma_holder(new, x, j + d);
            }
        }
        if held(new, x) {
            let j = busy_around(new, x, 0);
            if j < i {
                assert(new[j] == slots[j]);
                lemma_holder(slots, x, j);
            } else if j <= i + d {
                assert(false);
            } else {
                assert(slots[j - d] == new[j - d + new.len() - slots.len()]);
                lemma_holder(slots, x, j - d);
            }
        }
    }
}

proof fn lemma_first(want: Want, slots: Seq<Slot>, from: int)
    requires
        0 <= from <= slots.len(),
    ensures
        from <= want.first(slots, from) <= slots.len(),
        want.first(slots, from) < slots.len() ==> want.served_by(
            slots[want.first(slots, from)],
        ),
    decreases slots.len() - from,
{
    if from < slots.len() && !want.served_by(slots[from]) {
        lemma_first(want, slots, from + 1);
    }
}

/// A reservation lies between the limits, was free, and is busy afterwards;
/// every other address is as it was.
pub proof fn law_reserved_range(slots: Seq<Slot>, want: Want, x: u64)
    requires
        placed(slots),
        reserved(slots, want).1 != 0,
    ensures
        ({
            let (new, r) = reserved(slots, want);
            &&& placed(new)
            &&& want.lo <= r
            &&& r + want.size <= want.hi
            &&& r <= x < r + want.size ==> held(new, x) && found(new, x) == 0 && !held(slots, x)
            &&& !(r <= x < r + want.size) ==> held(new, x) == held(slots, x) && found(new, x)
                == found(slots, x)
        }),
{
    lemma_first(want, slots, 0);
    let i = want.first(slots, 0);
    let start = want.start_in(slots[i]);
    let end = (start + want.size) as u64;
    lemma_carved(slots, i, start, end, 0);
    lemma_carved_at(slots, i, start, end, 0, x);
}

/// Rounding up to a power of two gives a multiple of it, less than one step up,
/// unless the address space ends first.
pub proof fn law_rounded(addr: u64, align: u64)
    requires
        align > 0,
        align & ((align - 1) as u64) == 0,
        addr + (align - 1) <= u64::MAX,
    ensures
        rounded(addr, align) & ((align - 1) as u64) == 0,
        addr <= rounded(addr, align) < addr + align,
{
    let m = (align - 1) as u64;
    let t = (addr + m) as u64;
    assert((t & !m) & m == 0) by (bit_vector);
    assert(t & !m <= t) by (bit_vector);
    assert(t - (t & !m) <= m) by (bit_vector);
}

/// A reservation is a multiple of the alignment, if that is a power of two.
pub proof fn law_reserved_aligned(slots: Seq<Slot>, want: Want)
    requires
        want.align > 0,
        reserved(slots, want).1 != 0,
    ensures
        reserved(slots, want).1 & ((want.align - 1) as u64) == 0,
{
    lemma_first(want, slots, 0);
    let m = (want.align - 1) as u64;
    assert(forall|t: u64| #[trigger] (t & !m) & m == 0) by (bit_vector);
}

/// Rounding up gives the least multiple from `addr` on. Where there is none it gives 0.
proof fn lemma_rounded_least(addr: u64, align: u64, b: u64)
    requires
        align > 0,
        align & ((align - 1) as u64) == 0,
    ensures
        rounded(addr, align) & ((align - 1) as u64) == 0,
        addr <= b && b & ((align - 1) as u64) == 0 ==> addr <= rounded(addr, align) <= b,
        addr <= rounded(addr, align) || rounded(addr, align) == 0,
{
    let m = (align - 1) as u64;
    assert(forall|t: u64| #[trigger] (t & !m) & m == 0) by (bit_vector);
    if addr + m <= u64::MAX {
        law_rounded(addr, align);
        if addr <= b && b & m == 0 {
            let t = (addr + m) as u64;
            assert(align & m == 0 && m == align - 1 && b & m == 0 && t <= b + m ==> t & !m <= b)
                by (bit_vector);
        }
    } else {
        let t = (addr + m - u64::MAX - 1) as u64;
        assert(align & m == 0 && m == align - 1 && t < m ==> t & !m == 0) by (bit_vector);
        if addr <= b && b & m == 0 {
            assert(align & m == 0 && m == align - 1 && b & m == 0 ==> b <= u64::MAX - m)
                by (bit_vector);
        }
    }
}

impl Want {
    /// The range at `a` is aligned, between the limits, and lies in one free slot.
    pub open spec fn fits(self, slots: Seq<Slot>, a: u64) -> bool {
        &&& a & ((self.align - 1) as u64) == 0
        &&& self.lo <= a
        &&& a + self.size <= self.hi
        &&& exists|i: int| #[trigger] self.inside(slots, i, a)
    }

    /// Slot `i` is free and holds the range at `a`.
    pub open spec fn inside(self, slots: Seq<Slot>, i: int, a: u64) -> bool {
        0 <= i < slots.len() && !slots[i].busy && slots[i].start <= a && a + self.size
            <= slots[i].end
    }
}

/// First fit: where there is room for two more slots, a reservation gets the lowest
/// address that fits. It fails only if no address fits, or if address 0 does, which
/// reads as a failure.
pub proof fn law_first_fit(slots: Seq<Slot>, want: Want)
    requires
        placed(slots),
        slots.len() + 2 <= MAX_SLOTS,
        want.size > 0,
        want.align > 0,
        want.align & ((want.align - 1) as u64) == 0,
    ensures
        ({
            let r = reserved(slots, want).1;
            &&& r != 0 ==> want.fits(slots, r)
            &&& r != 0 ==> forall|b: u64| #[trigger] want.fits(slots, b) ==> r <= b
            &&& r == 0 && !want.fits(slots, 0) ==> forall|b: u64| !#[trigger] want.fits(slots, b)
        }),
{
    lemma_first(want, slots, 0);
    let i = want.first(slots, 0);
    if i < slots.len() {
        let r = want.start_in(slots[i]);
        let x = if slots[i].start < want.lo {
            want.lo
        } else {
            slots[i].start
        };
        lemma_rounded_least(x, want.align, 0);
        assert(want.inside(slots, i, r));
    }
    assert forall|b: u64| #[trigger] want.fits(slots, b) implies i < slots.len() && want.start_in(
        slots[i],
    ) <= b by {
        let j = choose|j: int| #[trigger] want.inside(slots, j, b);
        let x = if slots[j].start < want.lo {
            want.lo
        } else {
            slots[j].start
        };
        lemma_rounded_least(x, want.align, b);
        assert(want.served_by(slots[j]));
        lemma_first_before(want, slots, 0, j);
        if i < j {
            assert(slots[i].end <= slots[j].start);
        }
    }
}

/// The first slot with room is no later than any slot with room.
proof fn lemma_first_before(want: Want, slots: Seq<Slot>, from: int, j: int)
    requires
        0 <= from <= j < slots.len(),
        want.served_by(slots[j]),
    ensures
        want.first(slots, from) <= j,
    decreases j - from,
{
    if !want.served_by(slots[from]) {
        lemma_first_before(want, slots, from + 1, j);
    }
}

proof fn lemma_starting_at(slots: Seq<Slot>, addr: u64, end: int, from: int, k: int)
    requires
        placed(slots),
        0 <= from <= k < slots.len(),
        slots[k].start == addr,
        slots[k].end >= end,
    ensures
        starting_at(slots, addr, end, from) == k,
    decreases slots.len() - from,
{
    if from < k {
        assert(slots[from].end <= slots[k].start);
        assert(slots[from].start < slots[from].end);
        lemma_starting_at(slots, addr, end, from + 1, k);
    }
}

proof fn lemma_busy_from(slots: Seq<Slot>, addr: u64, from: int, k: int)
    requires
        placed(slots),
        0 <= from <= k < slots.len(),
        slots[k].busy,
        slots[k].start == addr,
    ensures
        busy_from(slots, addr, from) == k,
    decreases slots.len() - from,
{
    if from < k {
        assert(slots[from].end <= slots[k].start);
        assert(slots[from].start < slots[from].end);
        lemma_busy_from(slots, addr, from + 1, k);
    }
}

/// A reservation can be bound, and a look-up anywhere in it then finds what it
/// was bound to; every other address is as it was before the reservation.
pub proof fn law_bound_found(slots: Seq<Slot>, want: Want, vm: u64, x: u64)
    requires
        placed(slots),
        reserved(slots, want).1 != 0,
    ensures
        ({
            let (new, r) = reserved(slots, want);
            let (after, rc) = bound(new, r, want.size, vm);
            &&& rc == 0
            &&& placed(after)
            &&& r <= x < r + want.size ==> found(after, x) == vm
            &&& !(r <= x < r + want.size) ==> found(after, x) == found(slots, x)
        }),
{
    let (new, r) = reserved(slots, want);
    let i = want.first(slots, 0);
    lemma_first(want, slots, 0);
    let end = (r + want.size) as u64;
    lemma_bind_carved(slots, i, r, end, vm);
    lemma_carved(slots, i, r, end, vm);
    lemma_carved_at(slots, i, r, end, vm, x);
}

proof fn lemma_none_starting(slots: Seq<Slot>, addr: u64, end: int, from: int, k: int)
    requires
        placed(slots),
        0 <= from <= slots.len(),
        0 <= k < slots.len(),
        slots[k].start < addr < slots[k].end,
    ensures
        starting_at(slots, addr, end, from) == slots.len(),
    decreases slots.len() - from,
{
    if from < slots.len() {
        assert(slots[from].start < slots[from].end);
        if from < k {
            assert(slots[from].end <= slots[k].start);
        } else if from > k {
            assert(slots[k].end <= slots[from].start);
        }
        lemma_none_starting(slots, addr, end, from + 1, k);
    }
}

proof fn lemma_free_around(slots: Seq<Slot>, addr: u64, end: int, from: int, k: int)
    requires
        placed(slots),
        0 <= from <= k < slots.len(),
        !slots[k].busy,
        slots[k].start <= addr < end <= slots[k].end,
    ensures
        free_around(slots, addr, end, from) == k,
    decreases k - from,
{
    if from < k {
        assert(slots[from].end <= slots[k].start);
        lemma_free_around(slots, addr, end, from + 1, k);
    }
}

/// A slot that starts at an address and is large enough is bound as a whole, and every
/// other address is as it was.
pub proof fn law_whole_bound(slots: Seq<Slot>, i: int, addr: u64, size: u64, vm: u64, x: u64)
    requires
        placed(slots),
        0 <= i < slots.len(),
        slots[i].start == addr,
        addr + size <= slots[i].end,
    ensures
        ({
            let (new, rc) = bound(slots, addr, size, vm);
            let inside = slots[i].start <= x < slots[i].end;
            &&& rc == 0
            &&& placed(new)
            &&& inside ==> held(new, x) && found(new, x) == vm
            &&& !inside ==> held(new, x) == held(slots, x) && found(new, x) == found(slots, x)
        }),
{
    lemma_starting_at(slots, addr, addr + size, 0, i);
    let new = bound(slots, addr, size, vm).0;
    assert(placed(new)) by {
        assert forall|j: int| 0 <= j < new.len() implies (#[trigger] new[j]).start < new[j].end && (
        !new[j].busy ==> new[j].vm == 0) by {
            assert(slots[j].start < slots[j].end);
        }
        assert forall|j: int, k: int| 0 <= j < k < new.len() implies (#[trigger] new[j]).end <= (
        #[trigger] new[k]).start by {
            assert(slots[j].end <= slots[k].start);
        }
    }
    lemma_not_held(slots, x);
    lemma_not_held(new, x);
    if slots[i].start <= x < slots[i].end {
        lemma_holder(new, x, i);
    } else {
        lemma_busy_around(slots, x, 0);
        lemma_busy_around(new, x, 0);
        if held(slots, x) {
            let k = busy_around(slots, x, 0);
            assert(new[k] == slots[k]);
            lemma_holder(new, x, k);
        }
        if held(new, x) {
            let k = busy_around(new, x, 0);
            assert(new[k] == slots[k]);
            lemma_holder(slots, x, k);
        }
    }
}

/// How many slots are left over where `start..end` is cut out of `s`.
pub open spec fn pieces(s: Slot, start: int, end: int) -> int {
    (if s.start < start {
        1int
    } else {
        0
    }) + (if end < s.end {
        1int
    } else {
        0
    })
}

/// A range inside a free slot, not at its start, can be bound without a reservation:
/// exactly that range is taken out of the slot, and every other address is as it was.
pub proof fn law_early_bound(slots: Seq<Slot>, i: int, addr: u64, size: u64, vm: u64, x: u64)
    requires
        placed(slots),
        0 <= i < slots.len(),
        slots.len() + pieces(slots[i], addr as int, addr + size) <= MAX_SLOTS,
        !slots[i].busy,
        slots[i].start < addr,
        addr + size <= slots[i].end,
        size > 0,
    ensures
        ({
            let (new, rc) = bound(slots, addr, size, vm);
            &&& rc == 0
            &&& placed(new)
            &&& addr <= x < addr + size ==> held(new, x) && found(new, x) == vm
            &&& !(addr <= x < addr + size) ==> held(new, x) == held(slots, x) && found(new, x)
                == found(slots, x)
        }),
{
    let end = (addr + size) as u64;
    lemma_none_starting(slots, addr, end as int, 0, i);
    lemma_free_around(slots, addr, end as int, 0, i);
    lemma_carved(slots, i, addr, end, vm);
    lemma_carved_at(slots, i, addr, end, vm, x);
}

/// Binding a carved range gives the slots as if carved with the binding.
proof fn lemma_bind_carved(slots: Seq<Slot>, i: int, start: u64, end: u64, vm: u64)
    requires
        placed(slots),
        0 <= i < slots.len(),
        !slots[i].busy,
        slots[i].start <= start < end <= slots[i].end,
        carved(slots, i, start, end, 0) is Some,
    ensures
        carved(slots, i, start, end, vm) is Some,
        bound(carved(slots, i, start, end, 0)->0, start, (end - start) as u64, vm) == (
            carved(slots, i, start, end, vm)->0,
            0i32,
        ),
{
    lemma_carved(slots, i, start, end, 0);
    let new = carved(slots, i, start, end, 0)->0;
    let k = if start > slots[i].start {
        i + 1
    } else {
        i
    };
    lemma_starting_at(new, start, end as int, 0, k);
    assert(new.update(k, Slot { vm, busy: true, ..new[k] }) =~= carved(
        slots,
        i,
        start,
        end,
        vm,
    )->0);
}

proof fn lemma_merged_concat(a: Seq<Slot>, b: Seq<Slot>, c: Seq<Slot>)
    ensures
        merged_all(a, b + c) == merged_all(merged_all(a, b), c),
    decreases b.len(),
{
    if b.len() == 0 {
        assert(b + c =~= c);
    } else {
        assert((b + c)[0] == b[0]);
        assert((b + c).drop_first() =~= b.drop_first() + c);
        lemma_merged_concat(merged(a, b[0]), b.drop_first(), c);
    }
}

/// Slots without neighbours to merge stay as they are.
proof fn lemma_merged_tidy(slots: Seq<Slot>, n: int)
    requires
        tidy(slots),
        0 <= n <= slots.len(),
    ensures
        merged_all(slots.take(n), slots.skip(n)) == slots,
    decreases slots.len() - n,
{
    let a = slots.take(n);
    let b = slots.skip(n);
    if n == slots.len() {
        assert(b.len() == 0);
        assert(a =~= slots);
    } else {
        assert(b[0] == slots[n]);
        assert(b.drop_first() =~= slots.skip(n + 1));
        if n > 0 {
            assert(kept_apart(slots, n - 1));
            assert(a.last() == slots[n - 1]);
        }
        assert(merged(a, b[0]) =~= slots.take(n + 1));
        lemma_merged_tidy(slots, n + 1);
    }
}

proof fn lemma_merged_prefix(slots: Seq<Slot>, n: int)
    requires
        tidy(slots),
        0 <= n <= slots.len(),
    ensures
        merged_all(Seq::empty(), slots.take(n)) == slots.take(n),
{
    let t = slots.take(n);
    assert(tidy(t)) by {
        assert forall|i: int| 0 <= i < t.len() - 1 implies #[trigger] kept_apart(t, i) by {
            assert(kept_apart(slots, i));
        }
    }
    lemma_merged_tidy(t, 0);
    assert(t.take(0) =~= Seq::empty());
    assert(t.skip(0) =~= t);
}

/// Giving up a range that was carved out of a free slot restores the slots.
proof fn lemma_remove_carved(slots: Seq<Slot>, i: int, start: u64, end: u64, vm: u64)
    requires
        placed(slots),
        tidy(slots),
        0 <= i < slots.len(),
        !slots[i].busy,
        slots[i].start <= start < end <= slots[i].end,
        carved(slots, i, start, end, vm) is Some,
    ensures
        removed(carved(slots, i, start, end, vm)->0, start) == (slots, vm),
{
    lemma_carved(slots, i, start, end, vm);
    let new = carved(slots, i, start, end, vm)->0;
    let s = slots[i];
    let k = if start > s.start {
        i + 1
    } else {
        i
    };
    lemma_busy_from(new, start, 0, k);
    let freed = new.update(k, Slot { vm: 0, busy: false, ..new[k] });
    let before = if start > s.start {
        seq![free_slot(s.start, start)]
    } else {
        Seq::empty()
    };
    let after = if end < s.end {
        seq![free_slot(end, s.end)]
    } else {
        Seq::empty()
    };
    let parts = before + seq![free_slot(start, end)] + after;
    let head = slots.take(i);
    let tail = slots.skip(i + 1);
    assert(freed =~= (head + parts) + tail);
    lemma_merged_concat(Seq::empty(), head + parts, tail);
    lemma_merged_concat(Seq::empty(), head, parts);
    lemma_merged_prefix(slots, i);
    lemma_parts_merge(slots, i, start, end);
    lemma_merged_tidy(slots, i + 1);
}

proof fn lemma_parts_merge(slots: Seq<Slot>, i: int, start: u64, end: u64)
    requires
        placed(slots),
        tidy(slots),
        0 <= i < slots.len(),
        !slots[i].busy,
        slots[i].start <= start < end <= slots[i].end,
    ensures
        ({
            let s = slots[i];
            let before = if start > s.start {
                seq![free_slot(s.start, start)]
            } else {
                Seq::empty()
            };
            let after = if end < s.end {
                seq![free_slot(end, s.end)]
            } else {
                Seq::empty()
            };
            merged_all(slots.take(i), before + seq![free_slot(start, end)] + after) == slots.take(
                i + 1,
            )
        }),
{
    let s = slots[i];
    let before = if start > s.start {
        seq![free_slot(s.start, start)]
    } else {
        Seq::empty()
    };
    let after = if end < s.end {
        seq![free_slot(end, s.end)]
    } else {
        Seq::empty()
    };
    let mid = seq![free_slot(start, end)];
    let head = slots.take(i);
    if i > 0 {
        assert(kept_apart(slots, i - 1));
        assert(head.last() == slots[i - 1]);
    }
    lemma_merged_concat(head, before + mid, after);
    lemma_merged_concat(head, before, mid);
    let m1 = merged_all(head, before);
    if start > s.start {
        lemma_merged_one(head, before[0]);
        assert(m1 =~= head.push(free_slot(s.start, start)));
    }
    lemma_merged_one(m1, mid[0]);
    let m2 = merged_all(m1, mid);
    assert(m2 =~= head.push(free_slot(s.start, end)));
    if end < s.end {
        lemma_merged_one(m2, after[0]);
        assert(merged_all(m2, after) =~= head.push(free_slot(s.start, s.end)));
    }
    assert(head.push(free_slot(s.start, s.end)) =~= slots.take(i + 1));
}

proof fn lemma_merged_one(a: Seq<Slot>, s: Slot)
    ensures
        merged_all(a, seq![s]) == merged(a, s),
{
    assert(seq![s].drop_first() =~= Seq::empty());
    assert(merged_all(merged(a, s), Seq::empty()) == merged(a, s));
}

/// Giving up a reservation restores the slots as they were before it, bound or
/// not, and returns what it was bound to.
pub proof fn law_remove_undoes_reserve(slots: Seq<Slot>, want: Want, vm: u64)
    requires
        placed(slots),
        tidy(slots),
        reserved(slots, want).1 != 0,
    ensures
        ({
            let (new, r) = reserved(slots, want);
            &&& removed(new, r) == (slots, 0u64)
            &&& removed(bound(new, r, want.size, vm).0, r) == (slots, vm)
        }),
{
    let (new, r) = reserved(slots, want);
    let i = want.first(slots, 0);
    lemma_first(want, slots, 0);
    let end = (r + want.size) as u64;
    lemma_remove_carved(slots, i, r, end, 0);
    lemma_bind_carved(slots, i, r, end, vm);
    lemma_remove_carved(slots, i, r, end, vm);
}

/// The slots after [`rust_vmap_init`] are in order.
pub proof fn law_init_placed(start: u64, end: u64)
    requires
        start < end,
    ensures
        placed(all_free(start, end)),
        tidy(all_free(start, end)),
{
}

/// Merging keeps the slots in order and leaves no two free neighbours apart.
pub proof fn law_merged_tidy(a: Seq<Slot>, b: Seq<Slot>)
    requires
        placed(a),
        tidy(a),
        placed(b),
        a.len() > 0 && b.len() > 0 ==> a.last().end <= b[0].start,
    ensures
        placed(merged_all(a, b)),
        tidy(merged_all(a, b)),
    decreases b.len(),
{
    if b.len() > 0 {
        let m = merged(a, b[0]);
        let n = a.len() as int;
        assert(b[0].start < b[0].end);
        if n > 0 {
            assert(a[n - 1].start < a[n - 1].end);
        }
        assert forall|i: int| 0 <= i < m.len() implies (#[trigger] m[i]).start < m[i].end && (
        !m[i].busy ==> m[i].vm == 0) by {
            if i < n {
                assert(a[i].start < a[i].end);
            }
        }
        assert forall|i: int, j: int| 0 <= i < j < m.len() implies (#[trigger] m[i]).end <= (
        #[trigger] m[j]).start by {
            if j < n {
                assert(a[i].end <= a[j].start);
            } else if i < n - 1 {
                assert(a[i].end <= a[n - 1].start);
            }
        }
        assert forall|i: int| 0 <= i < m.len() - 1 implies #[trigger] kept_apart(m, i) by {
            if i < n - 1 {
                assert(kept_apart(a, i));
            }
        }
        let c = b.drop_first();
        assert(placed(c)) by {
            assert forall|i: int| 0 <= i < c.len() implies (#[trigger] c[i]).start < c[i].end && (
            !c[i].busy ==> c[i].vm == 0) by {
                assert(b[i + 1].start < b[i + 1].end);
            }
            assert forall|i: int, j: int| 0 <= i < j < c.len() implies (#[trigger] c[i]).end <= (
            #[trigger] c[j]).start by {
                assert(b[i + 1].end <= b[j + 1].start);
            }
        }
        if c.len() > 0 {
            assert(b[0].end <= b[1].start);
        }
        law_merged_tidy(m, c);
    }
}

/// An address in no busy slot is bound to nothing.
proof fn lemma_not_held(slots: Seq<Slot>, x: u64)
    ensures
        !held(slots, x) ==> found(slots, x) == 0,
        held(slots, x) <==> exists|i: int|
            0 <= i < slots.len() && (#[trigger] slots[i]).busy && slots[i].start <= x
                < slots[i].end,
{
    lemma_busy_around(slots, x, 0);
}

/// Merging changes nothing for any address.
proof fn lemma_merged_held(a: Seq<Slot>, b: Seq<Slot>, x: u64)
    requires
        placed(a),
        tidy(a),
        placed(b),
        a.len() > 0 && b.len() > 0 ==> a.last().end <= b[0].start,
    ensures
        held(merged_all(a, b), x) == (held(a, x) || held(b, x)),
        found(merged_all(a, b), x) == if held(a, x) {
            found(a, x)
        } else {
            found(b, x)
        },
    decreases b.len(),
{
    lemma_not_held(a, x);
    lemma_not_held(b, x);
    if b.len() > 0 {
        let m = merged(a, b[0]);
        let c = b.drop_first();
        let n = a.len() as int;
        assert(seq![b[0]].drop_first() =~= Seq::empty());
        assert(placed(seq![b[0]])) by {
            assert(b[0].start < b[0].end);
        }
        law_merged_tidy(a, seq![b[0]]);
        lemma_merged_one(a, b[0]);
        assert(placed(c)) by {
            assert forall|i: int| 0 <= i < c.len() implies (#[trigger] c[i]).start < c[i].end && (
            !c[i].busy ==> c[i].vm == 0) by {
                assert(b[i + 1].start < b[i + 1].end);
            }
            assert forall|i: int, j: int| 0 <= i < j < c.len() implies (#[trigger] c[i]).end <= (
            #[trigger] c[j]).start by {
                assert(b[i + 1].end <= b[j + 1].start);
            }
        }
        if c.len() > 0 {
            assert(b[0].end <= b[1].start);
        }
        lemma_merged_held(m, c, x);
        lemma_not_held(m, x);
        lemma_not_held(c, x);
        if held(a, x) {
            let k = busy_around(a, x, 0);
            lemma_busy_around(a, x, 0);
            assert(m[k] == a[k]);
            lemma_holder(m, x, k);
        } else if b[0].busy && b[0].start <= x < b[0].end {
            lemma_holder(b, x, 0);
            assert(m[m.len() - 1] == b[0]);
            lemma_holder(m, x, m.len() - 1);
        } else {
            if held(m, x) {
                let k = busy_around(m, x, 0);
                lemma_busy_around(m, x, 0);
                assert(k < n);
                assert(m[k] == a[k]);
                lemma_holder(a, x, k);
            }
            if held(c, x) {
                let k = busy_around(c, x, 0);
                lemma_busy_around(c, x, 0);
                assert(c[k] == b[k + 1]);
                lemma_holder(b, x, k + 1);
            }
            if held(b, x) {
                let k = busy_around(b, x, 0);
                lemma_busy_around(b, x, 0);
                assert(k > 0);
                assert(c[k - 1] == b[k]);
                lemma_holder(c, x, k - 1);
            }
        }
    }
}

/// Giving up a range frees the slot that starts there and changes nothing for
/// any other address; free stretches are in one piece afterwards.
pub proof fn law_removed_range(slots: Seq<Slot>, addr: u64, x: u64)
    requires
        placed(slots),
        busy_from(slots, addr, 0) < slots.len(),
    ensures
        ({
            let (new, vm) = removed(slots, addr);
            let s = slots[busy_from(slots, addr, 0)];
            &&& s.start == addr
            &&& vm == found(slots, addr)
            &&& placed(new)
            &&& tidy(new)
            &&& s.start <= x < s.end ==> !held(new, x)
            &&& !(s.start <= x < s.end) ==> held(new, x) == held(slots, x) && found(new, x)
                == found(slots, x)
        }),
{
    lemma_busy_from_at(slots, addr, 0);
    let i = busy_from(slots, addr, 0);
    let s = slots[i];
    let freed = slots.update(i, Slot { vm: 0, busy: false, ..s });
    assert(placed(freed)) by {
        assert forall|j: int| 0 <= j < freed.len() implies (#[trigger] freed[j]).start < freed[j].end
            && (!freed[j].busy ==> freed[j].vm == 0) by {
            assert(slots[j].start < slots[j].end);
        }
        assert forall|j: int, k: int| 0 <= j < k < freed.len() implies (#[trigger] freed[j]).end <= (
        #[trigger] freed[k]).start by {
            assert(slots[j].end <= slots[k].start);
        }
    }
    assert(s.start < s.end);
    lemma_holder(slots, addr, i);
    law_merged_tidy(Seq::empty(), freed);
    lemma_merged_held(Seq::empty(), freed, x);
    lemma_not_held(Seq::empty(), x);
    lemma_not_held(freed, x);
    lemma_not_held(slots, x);
    if s.start <= x < s.end {
        lemma_holder(freed, x, i);
    } else {
        if held(slots, x) {
            let k = busy_around(slots, x, 0);
            lemma_busy_around(slots, x, 0);
            assert(freed[k] == slots[k]);
            lemma_holder(freed, x, k);
        }
        if held(freed, x) {
            let k = busy_around(freed, x, 0);
            lemma_busy_around(freed, x, 0);
            assert(freed[k] == slots[k]);
            lemma_holder(slots, x, k);
        }
    }
}

proof fn lemma_busy_from_at(slots: Seq<Slot>, addr: u64, from: int)
    requires
        0 <= from <= slots.len(),
    ensures
        from <= busy_from(slots, addr, from) <= slots.len(),
        busy_from(slots, addr, from) < slots.len() ==> slots[busy_from(slots, addr, from)].busy
            && slots[busy_from(slots, addr, from)].start == addr,
    decreases slots.len() - from,
{
    if from < slots.len() && !(slots[from].busy && slots[from].start == addr) {
        lemma_busy_from_at(slots, addr, from + 1);
    }
}

/// `x` is a power of two.
pub open spec fn is_pow2(x: u64) -> bool {
    exists|k: nat| x == #[trigger] vstd::arithmetic::power2::pow2(k)
}

/// A power of two as a bit pattern.
proof fn lemma_pow2_bits(k: nat, x: u64)
    requires
        x == vstd::arithmetic::power2::pow2(k),
    ensures
        x > 0,
        k < 64,
        x & ((x - 1) as u64) == 0,
        forall|r: u64| (#[trigger] (r & ((x - 1) as u64)) == 0) == (r as int % x as int == 0),
{
    vstd::arithmetic::power2::lemma_pow2_pos(k);
    vstd::arithmetic::power2::lemma2_to64();
    vstd::arithmetic::power2::lemma2_to64_rest();
    if k >= 64 {
        if k > 64 {
            vstd::arithmetic::power2::lemma_pow2_strictly_increases(64, k);
        }
    }
    let m = (x - 1) as u64;
    assert forall|r: u64| (#[trigger] (r & m) == 0) == (r as int % x as int == 0) by {
        vstd::bits::lemma_u64_low_bits_mask_is_mod(r, k);
        assert(vstd::bits::low_bits_mask(k) == m);
    }
    assert((x & m == 0) == (x as int % x as int == 0));
}

/// Of two powers of two the smaller divides the larger.
proof fn lemma_pow2_divides(a: u64, b: u64, r: u64)
    requires
        is_pow2(a),
        is_pow2(b),
        a <= b,
        r as int % b as int == 0,
    ensures
        r as int % a as int == 0,
{
    let j = choose|k: nat| a == #[trigger] vstd::arithmetic::power2::pow2(k);
    let k = choose|k: nat| b == #[trigger] vstd::arithmetic::power2::pow2(k);
    if k < j {
        vstd::arithmetic::power2::lemma_pow2_strictly_increases(k, j);
    }
    vstd::arithmetic::power2::lemma_pow2_pos(j);
    vstd::arithmetic::power2::lemma_pow2_pos(k);
    let d = (k - j) as nat;
    let c = vstd::arithmetic::power2::pow2(d) as int;
    vstd::arithmetic::power2::lemma_pow2_adds(j, d);
    vstd::arithmetic::div_mod::lemma_fundamental_div_mod(r as int, b as int);
    let q = r as int / b as int;
    assert(r == (q * c) * a) by (nonlinear_arith)
        requires
            r == b * q,
            b == a * c,
    ;
    vstd::arithmetic::div_mod::lemma_mod_multiples_basic(q * c, a as int);
}

/// The range of `size` bytes at `a` is one that a caller can be given: in whole pages'
/// and the requested alignment, between the limits, and in one free slot.
pub open spec fn reservable(
    slots: Seq<Slot>,
    page_size: u64,
    size: u64,
    align: u64,
    lo: u64,
    hi: u64,
    a: u64,
) -> bool {
    &&& a as int % page_size as int == 0
    &&& a as int % align as int == 0
    &&& lo <= a
    &&& a + size <= hi
    &&& exists|i: int|
        0 <= i < slots.len() && !(#[trigger] slots[i]).busy && slots[i].start <= a && a + size
            <= slots[i].end
}

/// `a` is a multiple of the page size and of `align`, if both are powers of two.
pub open spec fn aligned_for(page_size: u64, align: u64, a: u64) -> bool {
    is_pow2(align) && is_pow2(page_size) ==> a as int % align as int == 0 && a as int
        % page_size as int == 0
}

/// What a reservation of `size` bytes between `lo` and `hi` asks for.
pub open spec fn wanted(page_size: u64, size: u64, align: u64, lo: u64, hi: u64) -> Want {
    Want { size, align: page_align(page_size, align), lo, hi }
}

proof fn lemma_zero_aligned(a: u64)
    requires
        is_pow2(a),
    ensures
        0int % a as int == 0,
{
    let k = choose|k: nat| a == #[trigger] vstd::arithmetic::power2::pow2(k);
    vstd::arithmetic::power2::lemma_pow2_pos(k);
}

/// A reservation is a multiple of the alignment that was asked for and of the page size.
pub proof fn law_alloc_aligned(
    slots: Seq<Slot>,
    page_size: u64,
    size: u64,
    align: u64,
    lo: u64,
    hi: u64,
)
    requires
        is_pow2(page_size),
        is_pow2(align),
        reserved(slots, wanted(page_size, size, align, lo, hi)).1 != 0,
    ensures
        ({
            let r = reserved(slots, wanted(page_size, size, align, lo, hi)).1;
            r as int % align as int == 0 && r as int % page_size as int == 0
        }),
{
    let want = wanted(page_size, size, align, lo, hi);
    let r = reserved(slots, want).1;
    let k = choose|k: nat| want.align == #[trigger] vstd::arithmetic::power2::pow2(k);
    lemma_pow2_bits(k, want.align);
    law_reserved_aligned(slots, want);
    assert(r & ((want.align - 1) as u64) == 0);
    lemma_pow2_divides(align, want.align, r);
    lemma_pow2_divides(page_size, want.align, r);
}

/// A reservation gets the lowest address that the caller can be given, where there is
/// room for two more slots. It fails only if there is none, or if address 0 is one, which
/// reads as a failure.
pub proof fn law_alloc_first_fit(
    slots: Seq<Slot>,
    page_size: u64,
    size: u64,
    align: u64,
    lo: u64,
    hi: u64,
)
    requires
        placed(slots),
        slots.len() + 2 <= MAX_SLOTS,
        size > 0,
        is_pow2(page_size),
        is_pow2(align),
    ensures
        ({
            let r = reserved(slots, wanted(page_size, size, align, lo, hi)).1;
            &&& r != 0 ==> reservable(slots, page_size, size, align, lo, hi, r)
            &&& r != 0 ==> forall|b: u64| #[trigger]
                reservable(slots, page_size, size, align, lo, hi, b) ==> r <= b
            &&& r == 0 && !reservable(slots, page_size, size, align, lo, hi, 0) ==> forall|b: u64|
                !#[trigger] reservable(slots, page_size, size, align, lo, hi, b)
        }),
{
    let want = wanted(page_size, size, align, lo, hi);
    let k = choose|k: nat| want.align == #[trigger] vstd::arithmetic::power2::pow2(k);
    lemma_pow2_bits(k, want.align);
    law_first_fit(slots, want);
    assert forall|b: u64| #[trigger]
        reservable(slots, page_size, size, align, lo, hi, b) == want.fits(slots, b) by {
        assert((b & ((want.align - 1) as u64) == 0) == (b as int % want.align as int == 0));
        if b as int % want.align as int == 0 {
            lemma_pow2_divides(align, want.align, b);
            lemma_pow2_divides(page_size, want.align, b);
        }
        if want.fits(slots, b) {
            let i = choose|i: int| #[trigger] want.inside(slots, i, b);
            assert(!slots[i].busy);
        }
        if reservable(slots, page_size, size, align, lo, hi, b) {
            let i = choose|i: int|
                0 <= i < slots.len() && !(#[trigger] slots[i]).busy && slots[i].start <= b && b
                    + size <= slots[i].end;
            assert(want.inside(slots, i, b));
        }
    }
    let r = reserved(slots, want).1;
    assert(reservable(slots, page_size, size, align, lo, hi, r) == want.fits(slots, r));
    assert(reservable(slots, page_size, size, align, lo, hi, 0) == want.fits(slots, 0));
}

/// Whatever the alignment, a reservation lies between the limits that were asked for, was
/// free and is held afterwards, has `size` bytes, and has none of the low bits that the
/// alignment, or the page size if that is larger, leaves out.
pub proof fn law_alloc_range(
    slots: Seq<Slot>,
    page_size: u64,
    size: u64,
    align: u64,
    lo: u64,
    hi: u64,
    x: u64,
)
    requires
        placed(slots),
        page_size > 0,
        reserved(slots, wanted(page_size, size, align, lo, hi)).1 != 0,
    ensures
        ({
            let (new, r) = reserved(slots, wanted(page_size, size, align, lo, hi));
            &&& lo <= r
            &&& r + size <= hi
            &&& r <= x < r + size ==> held(new, x) && !held(slots, x) && covered(slots, x)
            &&& !(r <= x < r + size) ==> held(new, x) == held(slots, x)
            &&& align >= page_size ==> r & ((align - 1) as u64) == 0
            &&& align <= page_size ==> r & ((page_size - 1) as u64) == 0
        }),
{
    let want = wanted(page_size, size, align, lo, hi);
    law_reserved_range(slots, want, x);
    law_reserved_aligned(slots, want);
    lemma_first(want, slots, 0);
    let i = want.first(slots, 0);
    let r = want.start_in(slots[i]);
    if r <= x < r + size {
        assert(slots[i].start <= x < slots[i].end);
    }
}

/// Nothing is reserved for no bytes.
pub proof fn law_alloc_nothing(slots: Seq<Slot>, want: Want)
    requires
        want.size == 0,
    ensures
        reserved(slots, want) == (slots, 0u64),
{
}

/// Looking up an address gives what the slot around it is bound to and where it lies, if
/// that is busy, and nothing otherwise.
pub proof fn law_look_up(slots: Seq<Slot>, x: u64, i: int)
    requires
        placed(slots),
        0 <= i < slots.len(),
        slots[i].start <= x < slots[i].end,
    ensures
        slots[i].busy ==> found(slots, x) == slots[i].vm && spanned(slots, x) == Some(
            (slots[i].start, slots[i].end),
        ),
        !slots[i].busy ==> found(slots, x) == 0 && spanned(slots, x) is None,
        held(slots, x) == slots[i].busy,
{
    lemma_holder(slots, x, i);
    lemma_busy_around(slots, x, 0);
}

/// An address in no slot is bound to nothing.
pub proof fn law_look_up_outside(slots: Seq<Slot>, x: u64)
    requires
        forall|i: int|
            0 <= i < slots.len() ==> x < (#[trigger] slots[i]).start || slots[i].end <= x,
    ensures
        found(slots, x) == 0,
        spanned(slots, x) is None,
        !held(slots, x),
{
    lemma_busy_around(slots, x, 0);
}

/// A range is given up exactly if a busy slot starts at its address; otherwise nothing
/// changes.
pub proof fn law_remove_finds(slots: Seq<Slot>, addr: u64)
    requires
        placed(slots),
    ensures
        busy_from(slots, addr, 0) < slots.len() <==> exists|i: int|
            0 <= i < slots.len() && (#[trigger] slots[i]).busy && slots[i].start == addr,
        busy_from(slots, addr, 0) >= slots.len() ==> removed(slots, addr) == (slots, 0u64),
        forall|i: int|
            0 <= i < slots.len() && (#[trigger] slots[i]).busy && slots[i].start == addr
                ==> removed(slots, addr).1 == slots[i].vm,
{
    lemma_busy_from_at(slots, addr, 0);
    assert forall|i: int|
        0 <= i < slots.len() && (#[trigger] slots[i]).busy && slots[i].start
            == addr implies busy_from(slots, addr, 0) == i by {
        lemma_busy_from(slots, addr, 0, i);
    }
}

/// Binding fails only where the range is not representable, no slot starts at the address
/// and is large enough, and no free slot around it has room; or where there are too few
/// slots to cut it out.
pub proof fn law_bind_fails(slots: Seq<Slot>, addr: u64, size: u64, vm: u64)
    requires
        placed(slots),
        slots.len() + 2 <= MAX_SLOTS,
        bound(slots, addr, size, vm).1 != 0,
    ensures
        bound(slots, addr, size, vm) == (slots, FAILED),
        addr + size > u64::MAX || forall|i: int|
            0 <= i < slots.len() ==> !((#[trigger] slots[i]).start == addr && addr + size
                <= slots[i].end) && !(!slots[i].busy && slots[i].start <= addr && addr + size
                <= slots[i].end),
{
    let end = addr + size;
    if end <= u64::MAX {
        lemma_starting_none(slots, addr, end, 0);
        lemma_around_none(slots, addr, end, 0);
    }
}

proof fn lemma_starting_none(slots: Seq<Slot>, addr: u64, end: int, from: int)
    requires
        0 <= from <= slots.len(),
        starting_at(slots, addr, end, from) >= slots.len(),
    ensures
        forall|i: int|
            from <= i < slots.len() ==> !((#[trigger] slots[i]).start == addr && end
                <= slots[i].end),
    decreases slots.len() - from,
{
    if from < slots.len() {
        lemma_starting_none(slots, addr, end, from + 1);
    }
}

proof fn lemma_around_none(slots: Seq<Slot>, addr: u64, end: int, from: int)
    requires
        0 <= from <= slots.len(),
        free_around(slots, addr, end, from) >= slots.len(),
    ensures
        forall|i: int|
            from <= i < slots.len() ==> !(!(#[trigger] slots[i]).busy && slots[i].start <= addr
                && end <= slots[i].end),
    decreases slots.len() - from,
{
    if from < slots.len() {
        lemma_around_none(slots, addr, end, from + 1);
    }
}

/// `x` lies in a slot, free or busy.
pub open spec fn covered(slots: Seq<Slot>, x: u64) -> bool {
    exists|i: int| 0 <= i < slots.len() && (#[trigger] slots[i]).start <= x < slots[i].end
}

/// At the start exactly the addresses of the range are there, and all are free.
pub proof fn law_init_free(start: u64, end: u64, x: u64)
    ensures
        covered(all_free(start, end), x) <==> start <= x < end,
        !held(all_free(start, end), x),
{
    let slots = all_free(start, end);
    lemma_not_held(slots, x);
    assert(slots[0] == free_slot(start, end));
}

/// Carving takes no address away and adds none.
proof fn lemma_carved_covers(slots: Seq<Slot>, i: int, start: u64, end: u64, vm: u64, x: u64)
    requires
        0 <= i < slots.len(),
        slots[i].start <= start < end <= slots[i].end,
        carved(slots, i, start, end, vm) is Some,
    ensures
        covered(carved(slots, i, start, end, vm)->0, x) == covered(slots, x),
{
    lemma_carved_shape(slots, i, start, end, vm);
    let new = carved(slots, i, start, end, vm)->0;
    let d = new.len() - slots.len();
    let k = if start > slots[i].start {
        i + 1
    } else {
        i
    };
    if covered(slots, x) {
        let j = choose|j: int|
            0 <= j < slots.len() && (#[trigger] slots[j]).start <= x < slots[j].end;
        if j < i {
            assert(new[j] == slots[j]);
        } else if j > i {
            assert(slots[j] == new[j + d]);
        } else if x < start {
            assert(new[i].start <= x < new[i].end);
        } else if x < end {
            assert(new[k].start <= x < new[k].end);
        } else {
            assert(new[k + 1].start <= x < new[k + 1].end);
        }
    }
    if covered(new, x) {
        let j = choose|j: int| 0 <= j < new.len() && (#[trigger] new[j]).start <= x < new[j].end;
        if j < i {
            assert(new[j] == slots[j]);
        } else if j > i + d {
            assert(new[j] == slots[j - d]);
        } else {
            assert(slots[i].start <= x < slots[i].end);
        }
    }
}

/// Merging takes no address away and adds none.
proof fn lemma_merged_covers(a: Seq<Slot>, b: Seq<Slot>, x: u64)
    requires
        forall|i: int| 0 <= i < a.len() ==> (#[trigger] a[i]).start <= a[i].end,
        forall|i: int| 0 <= i < b.len() ==> (#[trigger] b[i]).start <= b[i].end,
    ensures
        covered(merged_all(a, b), x) == (covered(a, x) || covered(b, x)),
    decreases b.len(),
{
    if b.len() > 0 {
        let m = merged(a, b[0]);
        let c = b.drop_first();
        let n = a.len() as int;
        assert(b[0].start <= b[0].end);
        if n > 0 {
            assert(a[n - 1].start <= a[n - 1].end);
        }
        assert forall|i: int| 0 <= i < m.len() implies (#[trigger] m[i]).start <= m[i].end by {
            if i < n {
                assert(a[i].start <= a[i].end);
            }
        }
        assert forall|i: int| 0 <= i < c.len() implies (#[trigger] c[i]).start <= c[i].end by {
            assert(b[i + 1].start <= b[i + 1].end);
        }
        lemma_merged_covers(m, c, x);
        if covered(a, x) {
            let j = choose|j: int| 0 <= j < n && (#[trigger] a[j]).start <= x < a[j].end;
            assert(m[j].start <= x < m[j].end);
        }
        if covered(b, x) {
            let j = choose|j: int| 0 <= j < b.len() && (#[trigger] b[j]).start <= x < b[j].end;
            if j == 0 {
                assert(m[m.len() - 1].start <= x < m[m.len() - 1].end);
            } else {
                assert(c[j - 1] == b[j]);
            }
        }
        if covered(m, x) {
            let j = choose|j: int| 0 <= j < m.len() && (#[trigger] m[j]).start <= x < m[j].end;
            if j < n - 1 {
                assert(a[j] == m[j]);
            } else if j < n && m[j] == a[j] {
                assert(a[j].start <= x < a[j].end);
            } else if j < n && x < a[j].end {
                assert(a[j].start <= x < a[j].end);
            } else {
                assert(b[0].start <= x < b[0].end);
            }
        }
        if covered(c, x) {
            let j = choose|j: int| 0 <= j < c.len() && (#[trigger] c[j]).start <= x < c[j].end;
            assert(b[j + 1] == c[j]);
        }
    }
}

/// No address is lost and none is added by reserving, binding and giving up ranges, as
/// long as there are slots enough.
pub proof fn law_nothing_lost(slots: Seq<Slot>, want: Want, addr: u64, size: u64, vm: u64, x: u64)
    requires
        placed(slots),
        size > 0,
    ensures
        reserved(slots, want).1 != 0 ==> covered(reserved(slots, want).0, x) == covered(slots, x),
        bound(slots, addr, size, vm).1 == 0 ==> covered(bound(slots, addr, size, vm).0, x)
            == covered(slots, x),
        covered(removed(slots, addr).0, x) == covered(slots, x),
{
    lemma_first(want, slots, 0);
    let i = want.first(slots, 0);
    if reserved(slots, want).1 != 0 {
        let start = want.start_in(slots[i]);
        lemma_carved_covers(slots, i, start, (start + want.size) as u64, 0, x);
    }
    let end = addr + size;
    let k = starting_at(slots, addr, end, 0);
    lemma_starting_in(slots, addr, end, 0);
    lemma_around_in(slots, addr, end, 0);
    if end <= u64::MAX && k < slots.len() {
        let new = slots.update(k, Slot { vm, busy: true, ..slots[k] });
        lemma_same_cover(slots, new, x);
    } else if bound(slots, addr, size, vm).1 == 0 {
        lemma_carved_covers(slots, free_around(slots, addr, end, 0), addr, end as u64, vm, x);
    }
    lemma_busy_from_at(slots, addr, 0);
    let j = busy_from(slots, addr, 0);
    if j < slots.len() {
        let freed = slots.update(j, Slot { vm: 0, busy: false, ..slots[j] });
        lemma_same_cover(slots, freed, x);
        assert forall|n: int| 0 <= n < freed.len() implies (#[trigger] freed[n]).start
            <= freed[n].end by {
            assert(slots[n].start < slots[n].end);
        }
        lemma_merged_covers(Seq::empty(), freed, x);
    }
}

proof fn lemma_same_cover(a: Seq<Slot>, b: Seq<Slot>, x: u64)
    requires
        a.len() == b.len(),
        forall|i: int|
            0 <= i < a.len() ==> (#[trigger] a[i]).start == b[i].start && a[i].end == b[i].end,
    ensures
        covered(a, x) == covered(b, x),
{
    if covered(b, x) {
        let i = choose|i: int| 0 <= i < b.len() && (#[trigger] b[i]).start <= x < b[i].end;
        assert(a[i].start <= x < a[i].end);
    }
    if covered(a, x) {
        let i = choose|i: int| 0 <= i < a.len() && (#[trigger] a[i]).start <= x < a[i].end;
        assert(b[i].start <= x < b[i].end);
    }
}

proof fn lemma_starting_in(slots: Seq<Slot>, addr: u64, end: int, from: int)
    requires
        0 <= from <= slots.len(),
    ensures
        from <= starting_at(slots, addr, end, from) <= slots.len(),
    decreases slots.len() - from,
{
    if from < slots.len() {
        lemma_starting_in(slots, addr, end, from + 1);
    }
}

proof fn lemma_around_in(slots: Seq<Slot>, addr: u64, end: int, from: int)
    requires
        0 <= from <= slots.len(),
    ensures
        from <= free_around(slots, addr, end, from) <= slots.len(),
        free_around(slots, addr, end, from) < slots.len() ==> {
            let s = slots[free_around(slots, addr, end, from)];
            !s.busy && s.start <= addr && end <= s.end
        },
    decreases slots.len() - from,
{
    if from < slots.len() {
        lemma_around_in(slots, addr, end, from + 1);
    }
}

/// A new size of 0 frees what there is and gives no memory; any other is passed on as it
/// is, with the old buffer exactly if that has a size.
pub proof fn law_resizing(
    ptr: Option<u64>,
    layout: Layout,
    old_layout: Layout,
    flags: Flags,
    nid: NumaNode,
)
    ensures
        match resizing(ptr, layout, old_layout, flags, nid) {
            ReallocStep::FreeThen(p, b) => layout.size == 0 && ptr == Some(p) && old_layout.size > 0
                && b.len == 0 && b.addr == layout.align,
            ReallocStep::Done(b) => layout.size == 0 && (ptr is None || old_layout.size == 0)
                && b.len == 0 && b.addr == layout.align,
            ReallocStep::Resize { old, size, align, flags: raw, nid: node } => {
                &&& layout.size > 0
                &&& layout == (Layout { size, align })
                &&& raw == flags.raw
                &&& NumaNode(node) == nid
                &&& old_layout.size > 0 && ptr is Some ==> ptr == Some(old)
                &&& old_layout.size == 0 || ptr is None ==> old == 0
            },
        },
{
}

/// The lowest address that fits is reserved exactly if there are slots enough for what is
/// left over of the slot it lies in.
pub proof fn law_slots_needed(slots: Seq<Slot>, want: Want, a: u64, i: int)
    requires
        placed(slots),
        want.size > 0,
        want.align > 0,
        want.align & ((want.align - 1) as u64) == 0,
        want.fits(slots, a),
        want.inside(slots, i, a),
        forall|b: u64| #[trigger] want.fits(slots, b) ==> a <= b,
    ensures
        reserved(slots, want).1 == if slots.len() + pieces(slots[i], a as int, a + want.size)
            <= MAX_SLOTS {
            a
        } else {
            0
        },
{
    let x = if slots[i].start < want.lo {
        want.lo
    } else {
        slots[i].start
    };
    lemma_rounded_least(x, want.align, a);
    assert(want.served_by(slots[i]));
    lemma_first(want, slots, 0);
    lemma_first_before(want, slots, 0, i);
    let f = want.first(slots, 0);
    let r = want.start_in(slots[f]);
    let y = if slots[f].start < want.lo {
        want.lo
    } else {
        slots[f].start
    };
    lemma_rounded_least(y, want.align, 0);
    assert(want.inside(slots, f, r));
    assert(want.fits(slots, r));
    if f < i {
        assert(slots[f].end <= slots[i].start);
    }
}

/// Where the slots stand after carving failed for want of slots.
proof fn lemma_lost_shape(slots: Seq<Slot>, i: int, start: u64, end: u64)
    requires
        0 <= i < slots.len(),
        !slots[i].busy,
        slots[i].start <= start < end <= slots[i].end,
    ensures
        ({
            let new = carve_lost(slots, i, start, end);
            let d = new.len() - slots.len();
            &&& d == 0 || d == 1
            &&& forall|j: int| 0 <= j < i ==> #[trigger] new[j] == slots[j]
            &&& forall|j: int| i + d < j < new.len() ==> #[trigger] new[j] == slots[j - d]
            &&& forall|j: int| i < j < slots.len() ==> #[trigger] slots[j] == new[j + d]
            &&& !new[i].busy && (new[i].vm == slots[i].vm || new[i].vm == 0)
            &&& slots[i].start <= new[i].start < new[i].end <= slots[i].end
            &&& d == 1 ==> !new[i + 1].busy && new[i + 1].vm == slots[i].vm && new[i].end
                <= new[i + 1].start < new[i + 1].end <= slots[i].end
        }),
{
    let new = carve_lost(slots, i, start, end);
    let d = new.len() - slots.len();
    assert forall|j: int| 0 <= j < i implies #[trigger] new[j] == slots[j] by {}
    assert forall|j: int| i + d < j < new.len() implies #[trigger] new[j] == slots[j - d] by {}
    assert forall|j: int| i < j < slots.len() implies #[trigger] slots[j] == new[j + d] by {}
}

/// Slots that differ from slots in order only by the free ones that slot `i` became are in
/// order.
proof fn lemma_lost_placed(slots: Seq<Slot>, i: int, start: u64, end: u64)
    requires
        placed(slots),
        0 <= i < slots.len(),
        !slots[i].busy,
        slots[i].start <= start < end <= slots[i].end,
    ensures
        placed(carve_lost(slots, i, start, end)),
{
    lemma_lost_shape(slots, i, start, end);
    let new = carve_lost(slots, i, start, end);
    let d = new.len() - slots.len();
    assert(slots[i].vm == 0);
    assert forall|j: int| 0 <= j < new.len() implies (#[trigger] new[j]).start < new[j].end && (
    !new[j].busy ==> new[j].vm == 0) by {
        if j < i {
            assert(slots[j].start < slots[j].end);
        } else if j > i + d {
            assert(slots[j - d].start < slots[j - d].end);
        } else if j > i {
            assert(j == i + 1);
        }
    }
    assert forall|a: int, b: int| 0 <= a < b < new.len() implies (#[trigger] new[a]).end <= (
    #[trigger] new[b]).start by {
        if a < i {
            if b < i {
                assert(slots[a].end <= slots[b].start);
            } else if b <= i + d {
                assert(slots[a].end <= slots[i].start);
                assert(b == i || b == i + 1);
            } else {
                assert(slots[a].end <= slots[b - d].start);
            }
        } else if a <= i + d {
            assert(a == i || a == i + 1);
            if b > i + d {
                assert(slots[i].end <= slots[b - d].start);
            }
        } else {
            assert(slots[a - d].end <= slots[b - d].start);
        }
    }
}

/// Carving that fails for want of slots touches nothing that is held.
proof fn lemma_lost_held(slots: Seq<Slot>, i: int, start: u64, end: u64, x: u64)
    requires
        placed(slots),
        0 <= i < slots.len(),
        !slots[i].busy,
        slots[i].start <= start < end <= slots[i].end,
    ensures
        ({
            let new = carve_lost(slots, i, start, end);
            &&& placed(new)
            &&& held(new, x) == held(slots, x)
            &&& found(new, x) == found(slots, x)
        }),
{
    let new = carve_lost(slots, i, start, end);
    let d = new.len() - slots.len();
    lemma_lost_shape(slots, i, start, end);
    lemma_lost_placed(slots, i, start, end);
    lemma_not_held(slots, x);
    lemma_not_held(new, x);
    lemma_busy_around(slots, x, 0);
    lemma_busy_around(new, x, 0);
    if held(slots, x) {
        let j = busy_around(slots, x, 0);
        if j < i {
            assert(new[j] == slots[j]);
            lemma_holder(new, x, j);
        } else {
            assert(j > i);
            assert(slots[j] == new[j + d]);
            lemma_holder(new, x, j + d);
        }
    }
    if held(new, x) {
        let j = busy_around(new, x, 0);
        if j < i {
            assert(new[j] == slots[j]);
            lemma_holder(slots, x, j);
        } else {
            assert(j != i && (d == 1 ==> j != i + 1));
            assert(new[j] == slots[j - d]);
            lemma_holder(slots, x, j - d);
        }
    }
}

/// A reservation or a binding that fails changes nothing of what is held and of what that
/// is bound to.
pub proof fn law_failure_keeps(
    slots: Seq<Slot>,
    want: Want,
    addr: u64,
    size: u64,
    vm: u64,
    x: u64,
)
    requires
        placed(slots),
        size > 0,
    ensures
        ({
            let (new, r) = reserved(slots, want);
            r == 0 && !(want.lo == 0 && covered(slots, 0)) ==> placed(new) && held(new, x) == held(
                slots,
                x,
            ) && found(new, x) == found(slots, x)
        }),
        ({
            let (new, rc) = bound(slots, addr, size, vm);
            rc != 0 ==> placed(new) && held(new, x) == held(slots, x) && found(new, x) == found(
                slots,
                x,
            )
        }),
{
    lemma_first(want, slots, 0);
    let i = want.first(slots, 0);
    if want.size > 0 && i < slots.len() {
        let start = want.start_in(slots[i]);
        lemma_lost_held(slots, i, start, (start + want.size) as u64, x);
        if start == 0 {
            assert(slots[i].start <= 0 < slots[i].end);
        }
    }
    let end = addr + size;
    lemma_starting_in(slots, addr, end, 0);
    lemma_around_in(slots, addr, end, 0);
    let j = free_around(slots, addr, end, 0);
    if end <= u64::MAX && j < slots.len() {
        lemma_lost_held(slots, j, addr, end as u64, x);
    }
}

/// Where there are too few slots to cut a range out of a free one, no address is added to
/// what is free, and either exactly the space before the range is lost or exactly the
/// space behind it.
pub proof fn law_lost_space(slots: Seq<Slot>, i: int, start: u64, end: u64, x: u64)
    requires
        placed(slots),
        0 <= i < slots.len(),
        slots[i].start <= start < end <= slots[i].end,
        carved(slots, i, start, end, 0) is None,
        slots.len() <= MAX_SLOTS,
    ensures
        ({
            let new = carve_lost(slots, i, start, end);
            let before = slots[i].start <= x < start;
            let behind = end <= x < slots[i].end;
            &&& covered(new, x) ==> covered(slots, x)
            &&& !before && !behind ==> covered(new, x) == covered(slots, x)
            &&& before ==> covered(new, x) == (slots.len() < MAX_SLOTS)
            &&& behind ==> covered(new, x) == (slots.len() == MAX_SLOTS && start > slots[i].start)
        }),
{
    let new = carve_lost(slots, i, start, end);
    let d = new.len() - slots.len();
    assert forall|j: int| 0 <= j < i implies #[trigger] new[j] == slots[j] by {}
    assert forall|j: int| i + d < j < new.len() implies #[trigger] new[j] == slots[j - d] by {}
    assert forall|j: int| i < j < slots.len() implies #[trigger] slots[j] == new[j + d] by {}
    if covered(new, x) {
        let j = choose|j: int| 0 <= j < new.len() && (#[trigger] new[j]).start <= x < new[j].end;
        if j < i {
            assert(slots[j] == new[j]);
            assert(slots[j].end <= slots[i].start);
        } else if j > i + d {
            assert(new[j] == slots[j - d]);
            assert(slots[i].end <= slots[j - d].start);
        } else {
            assert(slots[i].start <= x < slots[i].end);
        }
    }
    if covered(slots, x) {
        let j = choose|j: int|
            0 <= j < slots.len() && (#[trigger] slots[j]).start <= x < slots[j].end;
        if j < i {
            assert(new[j] == slots[j]);
        } else if j > i {
            assert(slots[j] == new[j + d]);
        } else if start > slots[i].start && slots.len() >= MAX_SLOTS {
            if x >= start {
                assert(new[i].start <= x < new[i].end);
            }
        } else if start > slots[i].start {
            if x < start {
                assert(new[i].start <= x < new[i].end);
            } else if x < end {
                assert(new[i + 1].start <= x < new[i + 1].end);
            }
        } else if x < end {
            assert(new[i].start <= x < new[i].end);
        }
    }
}

} // verus!
