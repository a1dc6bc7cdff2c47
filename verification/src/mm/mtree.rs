//! The range tree of an address space: a sorted array of ranges, with cursors.
//!
//! Each entry maps a closed range of addresses to a non-null pointer, and
//! adjacent ranges with the same pointer are coalesced, so each mapping is one
//! range. A store builds a whole new array; the memory for it is the caller's
//! part, who asks for it when a store says so.

use vstd::prelude::*;
use crate::error::{EBUSY, EEXIST, EINVAL, ENOMEM};
use crate::mm::ranges;
use crate::mm::ranges::{covering, fill_store, first_ge, last_lt, store_need, Ent};
use crate::mm::step;
use crate::mm::step::count_first;

verus! {

/// What a cursor knows of its position.
#[derive(Clone, Copy, PartialEq, Eq, Structural, Debug)]
pub enum MaStatus {
    Active,
    Start,
    Root,
    Hole,
    Pause,
    Overflow,
    Underflow,
    Error,
}

/// A cursor.
#[derive(Clone, Copy, PartialEq, Eq, Structural, Debug)]
pub struct MaState {
    /// First address of the range at the cursor.
    pub index: u64,
    /// Last address of the range at the cursor.
    pub last: u64,
    pub status: MaStatus,
    /// Low byte of the position of the entry at the cursor.
    pub offset: u8,
    /// The error, under [`MaStatus::Error`].
    pub err: i32,
    /// Entries that a snapshot kept with the cursor has room for.
    pub snap: Option<u32>,
    /// The snapshot was made for the next store.
    pub prealloc: bool,
}

/// What a store needs next.
#[derive(PartialEq, Eq, Debug)]
pub enum StoreStep<R> {
    /// Memory for a snapshot of this many entries; call again with the outcome.
    Snap(u32),
    /// Done, with this result.
    Done(R),
}

/// Bytes of a snapshot's header.
pub const HEADER_SIZE: u64 = 24;

/// Bytes of an entry.
pub const ENT_SIZE: u64 = 24;

/// Bytes of a snapshot with room for `cap` entries.
pub open spec fn snap_bytes(cap: int) -> int {
    HEADER_SIZE + cap * ENT_SIZE
}

/// Bytes of a snapshot with room for `cap` entries.
pub fn snap_size(cap: u32) -> (r: u64)
    ensures
        r == snap_bytes(cap as int),
{
    HEADER_SIZE + cap as u64 * ENT_SIZE
}

impl MaState {
    /// On entry `i`.
    pub open spec fn on(self, es: Seq<Ent>, i: int) -> MaState {
        MaState {
            index: es[i].start,
            last: es[i].last,
            status: MaStatus::Active,
            offset: i as u8,
            err: 0,
            ..self
        }
    }

    /// In a hole.
    pub open spec fn hole(self, start: u64, last: u64) -> MaState {
        MaState { index: start, last, status: MaStatus::Hole, err: 0, ..self }
    }

    /// Beyond the upper limit.
    pub open spec fn overflow(self) -> MaState {
        MaState { status: MaStatus::Overflow, err: 0, ..self }
    }

    /// Beyond the lower limit.
    pub open spec fn underflow(self) -> MaState {
        MaState { status: MaStatus::Underflow, err: 0, ..self }
    }

    /// Failed.
    pub open spec fn failed(self, err: i32) -> MaState {
        MaState { status: MaStatus::Error, err, ..self }
    }

    /// On the range found by a search.
    pub open spec fn found(self, index: u64, size: u64) -> MaState {
        MaState {
            index,
            last: (index + size - 1) as u64,
            status: MaStatus::Active,
            ..self
        }
    }

    /// The cursor after moving to the entry or hole at its index, and the entry.
    pub open spec fn walked(self, es: Seq<Ent>) -> (MaState, u64) {
        let i = ranges::below(es, self.index);
        if es.len() == 0 {
            (self.hole(0, u64::MAX), 0)
        } else if ranges::holds(es, i, self.index) {
            (self.on(es, i), es[i].ptr)
        } else if i < es.len() {
            (self.hole(self.index, (es[i].start - 1) as u64), 0)
        } else {
            (self.hole(self.index, u64::MAX), 0)
        }
    }

    /// The cursor after moving to the next entry up to `max`, and the entry.
    /// With `holes`, a hole in between is a stop too.
    pub open spec fn next(self, es: Seq<Ent>, max: u64, holes: bool) -> (MaState, u64) {
        let start = (self.last + 1) as u64;
        let i = ranges::below(es, start);
        if self.last >= max {
            (self.overflow(), 0)
        } else if i >= es.len() || es[i].start > max {
            if holes {
                (self.hole(start, max), 0)
            } else {
                (self.overflow(), 0)
            }
        } else if holes && es[i].start > start {
            (self.hole(start, (es[i].start - 1) as u64), 0)
        } else {
            (self.on(es, i), es[i].ptr)
        }
    }

    /// The cursor after moving to the previous entry down to `min`, and the entry.
    /// With `holes`, a hole in between is a stop too.
    pub open spec fn prev(self, es: Seq<Ent>, min: u64, holes: bool) -> (MaState, u64) {
        let i = ranges::below(es, self.index) - 1;
        if self.index <= min {
            (self.underflow(), 0)
        } else if i < 0 {
            if holes {
                (self.hole(min, (self.index - 1) as u64), 0)
            } else {
                (self.underflow(), 0)
            }
        } else if es[i].last < min {
            (self.underflow(), 0)
        } else if holes && es[i].last < self.index - 1 {
            (self.hole((es[i].last + 1) as u64, (self.index - 1) as u64), 0)
        } else {
            (self.on(es, i), es[i].ptr)
        }
    }

    fn set_entry(&mut self, e: Ent, idx: usize)
        ensures
            *final(self) == (MaState {
                index: e.start,
                last: e.last,
                status: MaStatus::Active,
                offset: idx as u8,
                err: 0,
                ..*old(self)
            }),
    {
        self.index = e.start;
        self.last = e.last;
        self.status = MaStatus::Active;
        self.offset = #[verifier::truncate]
        (idx as u8);
        self.err = 0;
    }

    fn set_none(&mut self, start: u64, last: u64)
        ensures
            *final(self) == old(self).hole(start, last),
    {
        self.index = start;
        self.last = last;
        self.status = MaStatus::Hole;
        self.err = 0;
    }

    fn set_overflow(&mut self)
        ensures
            *final(self) == old(self).overflow(),
    {
        self.status = MaStatus::Overflow;
        self.err = 0;
    }

    fn set_underflow(&mut self)
        ensures
            *final(self) == old(self).underflow(),
    {
        self.status = MaStatus::Underflow;
        self.err = 0;
    }

    fn set_err(&mut self, err: i32)
        ensures
            *final(self) == old(self).failed(err),
    {
        self.status = MaStatus::Error;
        self.err = err;
    }
}

/// The tree.
pub struct Tree {
    pub ents: Vec<Ent>,
}

impl Tree {
    /// The array is sound and short enough to count in 32 bits.
    pub open spec fn wf(&self) -> bool {
        &&& ranges::ents_ok(self.ents@)
        &&& self.ents@.len() <= u32::MAX
    }

    /// An empty tree.
    pub fn new() -> (r: Tree)
        ensures
            r.wf(),
            r.ents@.len() == 0,
    {
        Tree { ents: Vec::new() }
    }

    fn do_walk(&self, mas: &mut MaState) -> (r: u64)
        requires
            self.wf(),
        ensures
            (*final(mas), r) == old(mas).walked(self.ents@),
    {
        let es = &self.ents;
        let index = mas.index;
        if es.len() == 0 {
            mas.set_none(0, u64::MAX);
            return 0;
        }
        proof {
            ranges::lemma_below(es@, index);
        }
        if let Some(i) = covering(es, index) {
            mas.set_entry(es[i], i);
            return es[i].ptr;
        }
        let gap_last: u64 = match first_ge(es, index) {
            None => u64::MAX,
            Some(i) => es[i].start.saturating_sub(1),
        };
        let gap_start: u64 = match last_lt(es, index) {
            None => 0,
            Some(i) => if es[i].last == u64::MAX {
                u64::MAX
            } else {
                es[i].last + 1
            },
        };
        proof {
            ranges::lemma_lookup_none(es@, index);
            assert(!ranges::holds(es@, ranges::below(es@, index), index));
        }
        let start: u64 = if gap_start > index {
            gap_start
        } else {
            index
        };
        mas.set_none(start, gap_last);
        0
    }

    fn next_entry(&self, mas: &mut MaState, max: u64, holes: bool) -> (r: u64)
        requires
            self.wf(),
        ensures
            (*final(mas), r) == old(mas).next(self.ents@, max, holes),
    {
        let es = &self.ents;
        let after = mas.last;
        if after >= max {
            mas.set_overflow();
            return 0;
        }
        let start = after + 1;
        proof {
            ranges::lemma_below(es@, start);
        }
        match first_ge(es, start) {
            None => {
                if holes {
                    mas.set_none(start, max);
                } else {
                    mas.set_overflow();
                }
                0
            },
            Some(i) => {
                if es[i].start > max {
                    if holes {
                        mas.set_none(start, max);
                    } else {
                        mas.set_overflow();
                    }
                    return 0;
                }
                if holes && es[i].start > start {
                    mas.set_none(start, es[i].start - 1);
                    return 0;
                }
                mas.set_entry(es[i], i);
                es[i].ptr
            },
        }
    }

    fn prev_entry(&self, mas: &mut MaState, min: u64, holes: bool) -> (r: u64)
        requires
            self.wf(),
        ensures
            (*final(mas), r) == old(mas).prev(self.ents@, min, holes),
    {
        let es = &self.ents;
        let index = mas.index;
        if index <= min {
            mas.set_underflow();
            return 0;
        }
        let before = index - 1;
        proof {
            ranges::lemma_below(es@, index);
        }
        match last_lt(es, index) {
            None => {
                if holes {
                    mas.set_none(min, before);
                } else {
                    mas.set_underflow();
                }
                0
            },
            Some(i) => {
                if es[i].last < min {
                    mas.set_underflow();
                    return 0;
                }
                if holes && es[i].last < before {
                    let gap_start = es[i].last + 1;
                    mas.set_none(
                        if gap_start > min {
                            gap_start
                        } else {
                            min
                        },
                        before,
                    );
                    return 0;
                }
                mas.set_entry(es[i], i);
                es[i].ptr
            },
        }
    }
}

/// Entries that a snapshot of `n` ranges is made for.
pub open spec fn snap_cap(n: nat) -> nat {
    if n == 0 {
        1
    } else {
        n
    }
}

impl MaState {
    /// The snapshot kept with the cursor has room for `cap` entries.
    pub open spec fn has_snap(self, cap: nat) -> bool {
        self.prealloc && (self.snap matches Some(c) && c >= cap)
    }

    /// Without a snapshot.
    pub open spec fn bare(self) -> MaState {
        MaState { snap: None, prealloc: false, ..self }
    }

    /// Without a snapshot, and whether there was one.
    pub open spec fn dropped(self) -> (MaState, bool) {
        (self.bare(), self.snap is Some)
    }

    /// How storing `entry` over the range at the cursor goes on. `granted` is the
    /// outcome of asking for memory, `None` before that.
    pub open spec fn store(self, es: Seq<Ent>, entry: u64, granted: Option<bool>) -> (
        Seq<Ent>,
        MaState,
        StoreStep<i32>,
    ) {
        let new = ranges::stored(es, self.index, self.last, entry);
        let cap = snap_cap(new.len());
        if self.index > self.last {
            (es, self.failed(EINVAL), StoreStep::Done(EINVAL))
        } else if cap > u32::MAX {
            (es, self.failed(ENOMEM), StoreStep::Done(ENOMEM))
        } else if self.has_snap(cap) || granted == Some(true) {
            let m = if entry == 0 {
                self.bare().hole(self.index, self.last)
            } else {
                self.bare().on(new, ranges::below(new, self.index))
            };
            (new, m, StoreStep::Done(0))
        } else if granted == Some(false) {
            (es, self.failed(ENOMEM), StoreStep::Done(ENOMEM))
        } else {
            (es, self, StoreStep::Snap(cap as u32))
        }
    }

    /// Position of an entry in the range at the cursor.
    pub open spec fn in_use(self, es: Seq<Ent>) -> Option<int> {
        let i = ranges::below(es, self.index);
        if i < es.len() && es[i].start <= self.last {
            Some(i)
        } else {
            None
        }
    }

    /// The cursor after [`rust_mas_find`], and the entry.
    pub open spec fn find(self, es: Seq<Ent>, max: u64) -> (MaState, u64) {
        let stop = match self.status {
            MaStatus::Error => true,
            MaStatus::Active | MaStatus::Overflow | MaStatus::Hole | MaStatus::Pause => self.last
                >= max,
            MaStatus::Start => self.index > max,
            MaStatus::Underflow | MaStatus::Root => false,
        };
        if stop {
            (self, 0)
        } else if self.status == MaStatus::Underflow && self.index >= max {
            (self.overflow(), 0)
        } else if self.status == MaStatus::Active {
            self.next(es, max, false)
        } else {
            let m = if self.status == MaStatus::Hole || self.status == MaStatus::Pause {
                MaState { index: self.last, ..self }
            } else {
                self
            };
            let (w, e) = m.walked(es);
            if e != 0 {
                (w, e)
            } else {
                w.next(es, max, false)
            }
        }
    }

    /// The cursor after [`rust_mas_find_range`], and the entry.
    pub open spec fn find_range(self, es: Seq<Ent>, max: u64) -> (MaState, u64) {
        match self.status {
            MaStatus::Error => (self, 0),
            MaStatus::Start | MaStatus::Pause | MaStatus::Hole => {
                let (w, e) = self.walked(es);
                if e != 0 {
                    (w, e)
                } else {
                    w.next(es, max, true)
                }
            },
            _ => self.next(es, max, true),
        }
    }

    /// The cursor, moved to the range at its index if it has not started yet.
    pub open spec fn started(self, es: Seq<Ent>) -> MaState {
        if self.status == MaStatus::Start {
            self.walked(es).0
        } else {
            self
        }
    }

    /// The cursor after [`rust_mas_next`], or with `holes` [`rust_mas_next_range`], and the
    /// entry.
    pub open spec fn step_up(self, es: Seq<Ent>, max: u64, holes: bool) -> (MaState, u64) {
        self.started(es).next(es, max, holes)
    }

    /// The cursor after [`rust_mas_prev`], and the entry.
    pub open spec fn step_down(self, es: Seq<Ent>, min: u64) -> (MaState, u64) {
        self.started(es).prev(es, min, false)
    }

    /// The cursor after [`rust_mas_prev_range`], and the entry.
    pub open spec fn prev_range(self, es: Seq<Ent>, min: u64) -> (MaState, u64) {
        let m = match self.status {
            MaStatus::Start | MaStatus::Hole | MaStatus::Pause => self.walked(es).0,
            _ => self,
        };
        let (p, e) = m.prev(es, min, true);
        if p.index >= self.index && self.index > min {
            (MaState { index: min, ..p }.underflow(), 0)
        } else {
            (p, e)
        }
    }

    /// The cursor after [`rust_mas_find_rev`], and the entry.
    pub open spec fn find_rev(self, es: Seq<Ent>, min: u64) -> (MaState, u64) {
        match self.status {
            MaStatus::Error => (self, 0),
            MaStatus::Start | MaStatus::Pause | MaStatus::Hole | MaStatus::Underflow => {
                let (w, e) = self.walked(es);
                if e != 0 {
                    (w, e)
                } else {
                    w.prev(es, min, false)
                }
            },
            MaStatus::Active => if self.index <= min {
                (self, 0)
            } else {
                self.prev(es, min, false)
            },
            _ => self.prev(es, min, false),
        }
    }
}

impl MaState {
    /// How storing `entry` over the range at the cursor goes on if that has to be empty.
    pub open spec fn insert(self, es: Seq<Ent>, entry: u64, granted: Option<bool>) -> (
        Seq<Ent>,
        MaState,
        StoreStep<u64>,
    ) {
        match self.in_use(es) {
            Some(i) => (es, self.on(es, i).failed(EEXIST), StoreStep::Done(es[i].ptr)),
            None => {
                let (new, m, step) = self.store(es, entry, granted);
                (
                    new,
                    m,
                    match step {
                        StoreStep::Snap(cap) => StoreStep::Snap(cap),
                        StoreStep::Done(_) => StoreStep::Done(0),
                    },
                )
            },
        }
    }

    /// How removing the entry at the cursor's index goes on.
    pub open spec fn erase(self, es: Seq<Ent>, granted: Option<bool>) -> (
        Seq<Ent>,
        MaState,
        StoreStep<u64>,
    ) {
        let (w, e) = self.walked(es);
        if e == 0 {
            (es, w, StoreStep::Done(0))
        } else {
            let (new, m, step) = w.store(es, 0, granted);
            (
                new,
                m,
                match step {
                    StoreStep::Snap(cap) => StoreStep::Snap(cap),
                    StoreStep::Done(_) => StoreStep::Done(e),
                },
            )
        }
    }

    /// How keeping a snapshot for a store into `n` ranges goes on.
    pub open spec fn preallocated(self, n: nat, granted: Option<bool>) -> (
        MaState,
        StoreStep<i32>,
    ) {
        let cap = if n + 2 > u32::MAX {
            u32::MAX
        } else {
            (n + 2) as u32
        };
        match granted {
            None => (self, StoreStep::Snap(cap)),
            Some(false) => (self.failed(ENOMEM), StoreStep::Done(ENOMEM)),
            Some(true) => (
                MaState { snap: Some(cap), prealloc: true, ..self },
                StoreStep::Done(0),
            ),
        }
    }
}

/// How copying `es` over the ranges `new` goes on.
pub open spec fn copied(es: Seq<Ent>, new: Seq<Ent>, granted: Option<bool>) -> (
    Seq<Ent>,
    StoreStep<i32>,
) {
    if new.len() > 0 {
        (new, StoreStep::Done(EINVAL))
    } else if es.len() == 0 {
        (new, StoreStep::Done(0))
    } else {
        match granted {
            None => (new, StoreStep::Snap(es.len() as u32)),
            Some(false) => (new, StoreStep::Done(ENOMEM)),
            Some(true) => (es, StoreStep::Done(0)),
        }
    }
}

/// `step` for a caller that is told `done` whatever the result.
pub open spec fn told<R>(step: StoreStep<i32>, done: R) -> StoreStep<R> {
    match step {
        StoreStep::Snap(cap) => StoreStep::Snap(cap),
        StoreStep::Done(_) => StoreStep::Done(done),
    }
}

/// The ranges after the tree is emptied, and whether there was an array to free.
pub open spec fn emptied(es: Seq<Ent>) -> (Seq<Ent>, bool) {
    (Seq::empty(), es.len() > 0)
}

/// The message is still to be logged, or has been.
pub struct Announced {
    pub count: u32,
}

/// What is logged once, when the tree is first used.
pub const ANNOUNCEMENT: &'static str = "rust-mmap: VMA maple tree is a Rust RCU range array\n";

/// What is to be logged after `count` calls.
pub open spec fn announcement(count: u32) -> Option<&'static str> {
    if step::counted(count).1 {
        Some(ANNOUNCEMENT)
    } else {
        None
    }
}

/// The message is logged where the count begins, and nowhere else.
pub proof fn law_announced(count: u32)
    ensures
        announcement(count) is Some <==> count == 0,
        count == 0 ==> announcement(count) == Some(ANNOUNCEMENT),
{
}

/// The message to log: on the first call, and whenever the count comes round to it again.
pub fn announce_once(seen: &mut Announced) -> (r: Option<&'static str>)
    ensures
        final(seen).count == step::counted(old(seen).count).0,
        r == announcement(old(seen).count),
{
    if count_first(&mut seen.count) {
        Some(ANNOUNCEMENT)
    } else {
        None
    }
}

fn do_store(tree: &mut Tree, mas: &mut MaState, entry: u64, granted: Option<bool>) -> (r: StoreStep<
    i32,
>)
    requires
        old(tree).wf(),
    ensures
        final(tree).wf(),
        (final(tree).ents@, *final(mas), r) == old(mas).store(old(tree).ents@, entry, granted),
{
    let index = mas.index;
    let last = mas.last;
    if index > last {
        mas.set_err(EINVAL);
        return StoreStep::Done(EINVAL);
    }
    let need = store_need(&tree.ents, index, last, entry);
    let need: u64 = if need == 0 {
        1
    } else {
        need
    };
    if need > u32::MAX as u64 {
        mas.set_err(ENOMEM);
        return StoreStep::Done(ENOMEM);
    }
    let cap = need as u32;
    let use_pre = mas.prealloc && match mas.snap {
        Some(c) => c >= cap,
        None => false,
    };
    if !use_pre {
        match granted {
            None => {
                return StoreStep::Snap(cap);
            },
            Some(false) => {
                mas.set_err(ENOMEM);
                return StoreStep::Done(ENOMEM);
            },
            Some(true) => {},
        }
    }
    match fill_store(cap, &tree.ents, index, last, entry) {
        None => {
            mas.set_err(ENOMEM);
            StoreStep::Done(ENOMEM)
        },
        Some(ents) => {
            proof {
                ranges::law_store_lookup(tree.ents@, index, last, entry, index);
            }
            mas.snap = None;
            mas.prealloc = false;
            tree.ents = ents;
            if entry == 0 {
                mas.set_none(index, last);
            } else if let Some(i) = covering(&tree.ents, index) {
                mas.set_entry(tree.ents[i], i);
            } else {
                mas.status = MaStatus::Start;
            }
            StoreStep::Done(0)
        },
    }
}

/// The pointer at `index`, or 0.
pub fn rust_mt_load(tree: &Tree, index: u64) -> (r: u64)
    requires
        tree.wf(),
    ensures
        r == ranges::lookup(tree.ents@, index),
{
    match covering(&tree.ents, index) {
        None => 0,
        Some(i) => tree.ents[i].ptr,
    }
}

/// Moves the cursor to the entry or hole at its index.
pub fn rust_mas_walk(tree: &Tree, mas: &mut MaState) -> (r: u64)
    requires
        tree.wf(),
    ensures
        (*final(mas), r) == old(mas).walked(tree.ents@),
{
    tree.do_walk(mas)
}

/// Stores `entry` over the range at the cursor.
pub fn rust_mas_store(tree: &mut Tree, mas: &mut MaState, entry: u64, granted: Option<bool>) -> (r:
    StoreStep<u64>)
    requires
        old(tree).wf(),
    ensures
        final(tree).wf(),
        ({
            let (es, m, step) = old(mas).store(old(tree).ents@, entry, granted);
            &&& final(tree).ents@ == es
            &&& *final(mas) == m
            &&& r == told(step, 0u64)
        }),
{
    match do_store(tree, mas, entry, granted) {
        StoreStep::Snap(cap) => StoreStep::Snap(cap),
        StoreStep::Done(_) => StoreStep::Done(0),
    }
}

/// Stores `entry` over the range at the cursor and says whether that worked.
pub fn rust_mas_store_gfp(tree: &mut Tree, mas: &mut MaState, entry: u64, granted: Option<bool>) -> (r:
    StoreStep<i32>)
    requires
        old(tree).wf(),
    ensures
        final(tree).wf(),
        (final(tree).ents@, *final(mas), r) == old(mas).store(old(tree).ents@, entry, granted),
{
    do_store(tree, mas, entry, granted)
}

/// Stores `entry` over the range at the cursor, with the snapshot kept there if it fits.
pub fn rust_mas_store_prealloc(
    tree: &mut Tree,
    mas: &mut MaState,
    entry: u64,
    granted: Option<bool>,
) -> (r: StoreStep<()>)
    requires
        old(tree).wf(),
    ensures
        final(tree).wf(),
        ({
            let (es, m, step) = old(mas).store(old(tree).ents@, entry, granted);
            &&& final(tree).ents@ == es
            &&& *final(mas) == m
            &&& r == told(step, ())
        }),
{
    match do_store(tree, mas, entry, granted) {
        StoreStep::Snap(cap) => StoreStep::Snap(cap),
        StoreStep::Done(_) => StoreStep::Done(()),
    }
}

/// Keeps a snapshot with the cursor that any single store fits in.
pub fn rust_mas_preallocate(tree: &Tree, mas: &mut MaState, granted: Option<bool>) -> (r: StoreStep<
    i32,
>)
    requires
        tree.wf(),
    ensures
        (*final(mas), r) == old(mas).preallocated(tree.ents@.len(), granted),
{
    let n = tree.ents.len() as u32;
    let cap = n.saturating_add(2);
    match granted {
        None => StoreStep::Snap(cap),
        Some(false) => {
            mas.set_err(ENOMEM);
            StoreStep::Done(ENOMEM)
        },
        Some(true) => {
            mas.snap = Some(cap);
            mas.prealloc = true;
            StoreStep::Done(0)
        },
    }
}

/// Drops an unused snapshot; true if there is one to free.
pub fn rust_mas_destroy(mas: &mut MaState) -> (r: bool)
    ensures
        (*final(mas), r) == old(mas).dropped(),
{
    let r = mas.snap.is_some();
    mas.snap = None;
    mas.prealloc = false;
    r
}

/// Moves the cursor to the entry at its index or the next one up to `max`.
pub fn rust_mas_find(tree: &Tree, mas: &mut MaState, max: u64) -> (r: u64)
    requires
        tree.wf(),
    ensures
        (*final(mas), r) == old(mas).find(tree.ents@, max),
{
    match mas.status {
        MaStatus::Error => {
            return 0;
        },
        MaStatus::Active => {
            if mas.last >= max {
                return 0;
            }
            return tree.next_entry(mas, max, false);
        },
        MaStatus::Overflow => {
            if mas.last >= max {
                return 0;
            }
        },
        MaStatus::Underflow => {
            if mas.index >= max {
                mas.set_overflow();
                return 0;
            }
        },
        MaStatus::Hole | MaStatus::Pause => {
            if mas.last >= max {
                return 0;
            }
            mas.index = mas.last;
        },
        MaStatus::Start => {
            if mas.index > max {
                return 0;
            }
        },
        MaStatus::Root => {},
    }
    let e = tree.do_walk(mas);
    if e != 0 {
        return e;
    }
    tree.next_entry(mas, max, false)
}

/// Moves the cursor to the entry or hole at its index or the next one up to `max`.
pub fn rust_mas_find_range(tree: &Tree, mas: &mut MaState, max: u64) -> (r: u64)
    requires
        tree.wf(),
    ensures
        (*final(mas), r) == old(mas).find_range(tree.ents@, max),
{
    match mas.status {
        MaStatus::Start | MaStatus::Pause | MaStatus::Hole => {
            let e = tree.do_walk(mas);
            if e != 0 {
                return e;
            }
        },
        MaStatus::Error => {
            return 0;
        },
        _ => {},
    }
    tree.next_entry(mas, max, true)
}

/// Moves the cursor to the next entry up to `max`.
pub fn rust_mas_next(tree: &Tree, mas: &mut MaState, max: u64) -> (r: u64)
    requires
        tree.wf(),
    ensures
        (*final(mas), r) == old(mas).step_up(tree.ents@, max, false),
{
    if mas.status == MaStatus::Start {
        tree.do_walk(mas);
    }
    tree.next_entry(mas, max, false)
}

/// Moves the cursor to the next entry or hole up to `max`.
pub fn rust_mas_next_range(tree: &Tree, mas: &mut MaState, max: u64) -> (r: u64)
    requires
        tree.wf(),
    ensures
        (*final(mas), r) == old(mas).step_up(tree.ents@, max, true),
{
    if mas.status == MaStatus::Start {
        tree.do_walk(mas);
    }
    tree.next_entry(mas, max, true)
}

/// Moves the cursor to the previous entry down to `min`.
pub fn rust_mas_prev(tree: &Tree, mas: &mut MaState, min: u64) -> (r: u64)
    requires
        tree.wf(),
    ensures
        (*final(mas), r) == old(mas).step_down(tree.ents@, min),
{
    if mas.status == MaStatus::Start {
        tree.do_walk(mas);
    }
    tree.prev_entry(mas, min, false)
}

/// Moves the cursor to the previous entry or hole down to `min`. A cursor that
/// would not move back is past the lower limit.
pub fn rust_mas_prev_range(tree: &Tree, mas: &mut MaState, min: u64) -> (r: u64)
    requires
        tree.wf(),
    ensures
        (*final(mas), r) == old(mas).prev_range(tree.ents@, min),
{
    let old_index = mas.index;
    match mas.status {
        MaStatus::Start | MaStatus::Hole | MaStatus::Pause => {
            tree.do_walk(mas);
        },
        _ => {},
    }
    let e = tree.prev_entry(mas, min, true);
    if mas.index >= old_index && old_index > min {
        mas.index = min;
        mas.set_underflow();
        return 0;
    }
    e
}

/// Moves the cursor to the entry at its index or the previous one down to `min`.
pub fn rust_mas_find_rev(tree: &Tree, mas: &mut MaState, min: u64) -> (r: u64)
    requires
        tree.wf(),
    ensures
        (*final(mas), r) == old(mas).find_rev(tree.ents@, min),
{
    match mas.status {
        MaStatus::Start | MaStatus::Pause | MaStatus::Hole | MaStatus::Underflow => {
            let e = tree.do_walk(mas);
            if e != 0 {
                return e;
            }
        },
        MaStatus::Error => {
            return 0;
        },
        MaStatus::Active => {
            if mas.index <= min {
                return 0;
            }
        },
        _ => {},
    }
    tree.prev_entry(mas, min, false)
}

/// The same as [`rust_mas_prev_range`].
pub fn rust_mas_find_range_rev(tree: &Tree, mas: &mut MaState, min: u64) -> (r: u64)
    requires
        tree.wf(),
    ensures
        (*final(mas), r) == old(mas).prev_range(tree.ents@, min),
{
    rust_mas_prev_range(tree, mas, min)
}

/// Stores `entry` over the range at the cursor if that is empty. Fails with
/// `EEXIST` if it already holds an entry, and returns that entry.
pub fn rust_mas_insert(tree: &mut Tree, mas: &mut MaState, entry: u64, granted: Option<bool>) -> (r:
    StoreStep<u64>)
    requires
        old(tree).wf(),
    ensures
        final(tree).wf(),
        (final(tree).ents@, *final(mas), r) == old(mas).insert(old(tree).ents@, entry, granted),
{
    let index = mas.index;
    let last = mas.last;
    if let Some(i) = first_ge(&tree.ents, index) {
        if tree.ents[i].start <= last {
            mas.set_entry(tree.ents[i], i);
            mas.set_err(EEXIST);
            return StoreStep::Done(tree.ents[i].ptr);
        }
    }
    proof {
        ranges::lemma_below(tree.ents@, index);
    }
    match do_store(tree, mas, entry, granted) {
        StoreStep::Snap(cap) => StoreStep::Snap(cap),
        StoreStep::Done(_) => StoreStep::Done(0),
    }
}

/// Removes the entry at the cursor's index and returns it.
pub fn rust_mas_erase(tree: &mut Tree, mas: &mut MaState, granted: Option<bool>) -> (r: StoreStep<
    u64,
>)
    requires
        old(tree).wf(),
    ensures
        final(tree).wf(),
        (final(tree).ents@, *final(mas), r) == old(mas).erase(old(tree).ents@, granted),
{
    let e = tree.do_walk(mas);
    if e == 0 {
        return StoreStep::Done(0);
    }
    match do_store(tree, mas, 0, granted) {
        StoreStep::Snap(cap) => StoreStep::Snap(cap),
        StoreStep::Done(_) => StoreStep::Done(e),
    }
}

/// Empties the tree; true if there was an array to free.
pub fn rust_mt_destroy(tree: &mut Tree) -> (r: bool)
    requires
        old(tree).wf(),
    ensures
        final(tree).wf(),
        (final(tree).ents@, r) == emptied(old(tree).ents@),
{
    let r = tree.ents.len() > 0;
    tree.ents = Vec::new();
    r
}

/// Copies the tree into the empty tree `new`.
pub fn rust_mt_dup(tree: &Tree, new: &mut Tree, granted: Option<bool>) -> (r: StoreStep<i32>)
    requires
        tree.wf(),
        old(new).wf(),
    ensures
        final(new).wf(),
        (final(new).ents@, r) == copied(tree.ents@, old(new).ents@, granted),
{
    if new.ents.len() > 0 {
        return StoreStep::Done(EINVAL);
    }
    let n = tree.ents.len();
    if n == 0 {
        return StoreStep::Done(0);
    }
    match granted {
        None => StoreStep::Snap(n as u32),
        Some(false) => StoreStep::Done(ENOMEM),
        Some(true) => {
            new.ents = tree.ents.clone();
            assert(new.ents@ =~= tree.ents@);
            StoreStep::Done(0)
        },
    }
}

/// The `size` addresses from `s` lie in `min..=max` and are empty.
pub open spec fn fits(es: Seq<Ent>, min: u64, max: u64, size: u64, s: u64) -> bool {
    &&& min <= s
    &&& s + size - 1 <= max
    &&& forall|i: int|
        0 <= i < es.len() ==> (#[trigger] es[i]).last < s || es[i].start > s + size - 1
}

/// Some `size` addresses in `min..=max` are empty.
pub open spec fn some_fit(es: Seq<Ent>, min: u64, max: u64, size: u64) -> bool {
    exists|s: u64| fits(es, min, max, size, s)
}

/// The limits leave no room for `size` addresses.
pub open spec fn bad_area(min: u64, max: u64, size: u64) -> bool {
    min > max || size == 0 || max - min < size - 1
}

/// The outcome `r` of a search from below: the cursor is on the lowest range that
/// fits, or where it was if there is none.
pub open spec fn lowest(
    es: Seq<Ent>,
    min: u64,
    max: u64,
    size: u64,
    before: MaState,
    after: MaState,
    r: i32,
) -> bool {
    if bad_area(min, max, size) {
        r == EINVAL && after == before
    } else if some_fit(es, min, max, size) {
        &&& r == 0
        &&& fits(es, min, max, size, after.index)
        &&& forall|s: u64| #[trigger] fits(es, min, max, size, s) ==> after.index <= s
        &&& after == before.found(after.index, size)
    } else {
        r == EBUSY && after == before
    }
}

/// The outcome `r` of a search from above: the cursor is on the highest range that
/// fits, or where it was if there is none.
pub open spec fn highest(
    es: Seq<Ent>,
    min: u64,
    max: u64,
    size: u64,
    before: MaState,
    after: MaState,
    r: i32,
) -> bool {
    if bad_area(min, max, size) {
        r == EINVAL && after == before
    } else if some_fit(es, min, max, size) {
        &&& r == 0
        &&& fits(es, min, max, size, after.index)
        &&& forall|s: u64| #[trigger] fits(es, min, max, size, s) ==> s <= after.index
        &&& after == before.found(after.index, size)
    } else {
        r == EBUSY && after == before
    }
}

/// `start` if `start..=end` has room for `size` addresses.
fn gap_ok(start: u64, end: u64, size: u64) -> (r: Option<u64>)
    requires
        end - start < u64::MAX,
    ensures
        r == if start <= end && end - start + 1 >= size {
            Some(start)
        } else {
            None
        },
{
    if end < start {
        return None;
    }
    let len = end - start + 1;
    if len >= size {
        Some(start)
    } else {
        None
    }
}

/// Moves the cursor to the lowest empty range of `size` addresses in `min..=max`.
///
/// The length of the whole address space is not representable, so an empty tree
/// is not searched over all of it.
pub fn rust_mas_empty_area(tree: &Tree, mas: &mut MaState, min: u64, max: u64, size: u64) -> (r: i32)
    requires
        tree.wf(),
        size > 0 && min == 0 && max == u64::MAX ==> tree.ents@.len() > 0,
    ensures
        lowest(tree.ents@, min, max, size, *old(mas), *final(mas), r),
{
    if min > max || size == 0 || max - min < size - 1 {
        return EINVAL;
    }
    let ghost es = tree.ents@;
    let mut pos = min;
    let mut k: usize = 0;
    while k < tree.ents.len()
        invariant
            tree.wf(),
            es == tree.ents@,
            *mas == *old(mas),
            k <= es.len(),
            !bad_area(min, max, size),
            min <= pos <= max,
            pos == 0 ==> k == 0,
            forall|i: int| 0 <= i < k ==> (#[trigger] es[i]).last < pos,
            forall|s: u64| #[trigger] fits(es, min, max, size, s) ==> s >= pos,
        decreases es.len() - k,
    {
        let e = tree.ents[k];
        if e.last >= min {
            if e.start > pos {
                let gap_end: u64 = if e.start - 1 < max {
                    e.start - 1
                } else {
                    max
                };
                if let Some(s) = gap_ok(pos, gap_end, size) {
                    proof {
                        assert forall|i: int| 0 <= i < es.len() implies (#[trigger] es[i]).last < s
                            || es[i].start > s + size - 1 by {
                            if i > k {
                                assert(es[k as int].last < es[i].start);
                            }
                        }
                        assert(fits(es, min, max, size, s));
                    }
                    mas.index = s;
                    mas.last = s + (size - 1);
                    mas.status = MaStatus::Active;
                    return 0;
                }
            }
            proof {
                assert forall|s: u64| #[trigger] fits(es, min, max, size, s) implies s > e.last by {
                    assert(es[k as int].last < s || es[k as int].start > s + size - 1);
                }
            }
            if e.last >= max {
                return EBUSY;
            }
            pos = e.last + 1;
            if pos < min {
                pos = min;
            }
        }
        k = k + 1;
    }
    if let Some(s) = gap_ok(pos, max, size) {
        assert(fits(es, min, max, size, s));
        mas.index = s;
        mas.last = s + (size - 1);
        mas.status = MaStatus::Active;
        return 0;
    }
    EBUSY
}

/// Moves the cursor to the highest empty range of `size` addresses in `min..=max`.
///
/// The length of the whole address space is not representable, so an empty tree
/// is not searched over all of it.
pub fn rust_mas_empty_area_rev(tree: &Tree, mas: &mut MaState, min: u64, max: u64, size: u64) -> (r:
    i32)
    requires
        tree.wf(),
        size > 0 && min == 0 && max == u64::MAX ==> tree.ents@.len() > 0,
    ensures
        highest(tree.ents@, min, max, size, *old(mas), *final(mas), r),
{
    if min > max || size == 0 || max - min < size - 1 {
        return EINVAL;
    }
    let ghost es = tree.ents@;
    let mut pos = max;
    let mut k: usize = tree.ents.len();
    while k > 0
        invariant
            tree.wf(),
            es == tree.ents@,
            *mas == *old(mas),
            k <= es.len(),
            !bad_area(min, max, size),
            min <= pos <= max,
            pos == u64::MAX && min == 0 && es.len() > 0 ==> k == es.len(),
            forall|i: int| k <= i < es.len() ==> (#[trigger] es[i]).start > pos,
            forall|s: u64| #[trigger] fits(es, min, max, size, s) ==> s + size - 1 <= pos,
        decreases k,
    {
        k = k - 1;
        let e = tree.ents[k];
        if e.start <= max {
            if e.last < pos {
                let gap_start = e.last + 1;
                let gap_end = pos;
                let len = gap_end - gap_start + 1;
                if len >= size {
                    let s = gap_end - size + 1;
                    if s >= min {
                        proof {
                            assert forall|i: int| 0 <= i < es.len() implies (#[trigger] es[i]).last
                                < s || es[i].start > s + size - 1 by {
                                if i < k {
                                    assert(es[i].last < es[k as int].start);
                                }
                            }
                            assert(fits(es, min, max, size, s));
                        }
                        mas.index = s;
                        mas.last = s + (size - 1);
                        mas.status = MaStatus::Active;
                        return 0;
                    }
                }
            }
            proof {
                assert forall|s: u64| #[trigger] fits(es, min, max, size, s) implies s + size - 1
                    < e.start by {
                    assert(es[k as int].last < s || es[k as int].start > s + size - 1);
                }
            }
            if e.start == 0 {
                return EBUSY;
            }
            pos = e.start - 1;
            proof {
                assert forall|i: int| k <= i < es.len() implies (#[trigger] es[i]).start > pos by {
                    if i > k {
                        assert(es[k as int].last < es[i].start);
                    }
                }
            }
            if pos < min {
                return EBUSY;
            }
        } else {
            assert forall|i: int| k <= i < es.len() implies (#[trigger] es[i]).start > pos by {
                if i > k {
                    assert(es[k as int].last < es[i].start);
                }
            }
        }
    }
    let len = pos - min + 1;
    if len >= size {
        let s = pos - (size - 1);
        if s >= min {
            assert(fits(es, min, max, size, s));
            mas.index = s;
            mas.last = s + (size - 1);
            mas.status = MaStatus::Active;
            return 0;
        }
    }
    EBUSY
}

/// Walking finds what a load finds.
pub proof fn law_walk_loads(m: MaState, es: Seq<Ent>)
    requires
        ranges::ents_ok(es),
    ensures
        m.walked(es).1 == ranges::lookup(es, m.index),
{
    ranges::lemma_below(es, m.index);
}

/// Going forward visits the entries in order, and going back returns.
pub proof fn law_next_prev(m: MaState, es: Seq<Ent>, i: int, max: u64, min: u64)
    requires
        ranges::ents_ok(es),
        0 <= i < es.len() - 1,
        m.last == es[i].last,
        es[i + 1].start <= max,
        min <= es[i].last,
    ensures
        m.next(es, max, false) == (m.on(es, i + 1), es[i + 1].ptr),
        m.on(es, i + 1).prev(es, min, false) == (m.on(es, i), es[i].ptr),
{
    assert(es[i].last < es[i + 1].start);
    let x = (es[i].last + 1) as u64;
    assert(es[i + 1].start <= es[i + 1].last);
    ranges::lemma_split_at(es, x, i + 1);
    ranges::lemma_split_at(es, es[i + 1].start, i + 1);
}

/// After the last entry there is no next one, and before the first no previous one.
pub proof fn law_ends(m: MaState, es: Seq<Ent>, max: u64, min: u64)
    requires
        ranges::ents_ok(es),
        es.len() > 0,
    ensures
        m.last == es.last().last ==> m.next(es, max, false) == (m.overflow(), 0u64),
        m.index == es[0].start ==> m.prev(es, min, false) == (m.underflow(), 0u64),
{
    if m.last == es.last().last && m.last < max {
        ranges::lemma_split_at(es, (m.last + 1) as u64, es.len() as int);
    }
    if m.index == es[0].start {
        assert(es[0].start <= es[0].last);
        ranges::lemma_split_at(es, m.index, 0);
    }
}

/// A snapshot made by [`rust_mas_preallocate`] lets the next store succeed
/// without asking for memory, in a tree that is not full.
pub proof fn law_prealloc_suffices(m: MaState, es: Seq<Ent>, entry: u64)
    requires
        ranges::ents_ok(es),
        es.len() + 2 <= u32::MAX,
        m.prealloc,
        m.snap == Some((es.len() + 2) as u32),
        m.index <= m.last,
    ensures
        m.store(es, entry, None).2 == StoreStep::Done(0i32),
        m.store(es, entry, None).0 == ranges::stored(es, m.index, m.last, entry),
{
    ranges::law_store_grows_by_two(es, m.index, m.last, entry);
}

/// A store gives an error or changes the tree, never both.
pub proof fn law_store_all_or_nothing(m: MaState, es: Seq<Ent>, entry: u64, granted: Option<bool>)
    requires
        ranges::ents_ok(es),
    ensures
        ({
            let (new, after, step) = m.store(es, entry, granted);
            &&& step == StoreStep::Done(0i32) ==> new == ranges::stored(es, m.index, m.last, entry)
                && after.status != MaStatus::Error
            &&& step != StoreStep::Done(0i32) ==> new == es
            &&& step is Done && step != StoreStep::Done(0i32) ==> after.status == MaStatus::Error
        }),
{
}

/// An insertion is refused exactly where the range holds an entry.
pub proof fn law_insert_refused(m: MaState, es: Seq<Ent>)
    requires
        ranges::ents_ok(es),
        m.index <= m.last,
    ensures
        m.in_use(es) is Some <==> exists|x: u64|
            m.index <= x <= m.last && #[trigger] ranges::lookup(es, x) != 0,
{
    ranges::lemma_below(es, m.index);
    let i = ranges::below(es, m.index);
    if m.in_use(es) is Some {
        let x = if es[i].start > m.index {
            es[i].start
        } else {
            m.index
        };
        assert(es[i].start <= es[i].last);
        ranges::lemma_lookup(es, i, x);
        assert(ranges::lookup(es, x) != 0);
    } else {
        assert forall|x: u64| m.index <= x <= m.last implies #[trigger] ranges::lookup(es, x)
            == 0 by {
            ranges::lemma_lookup_none(es, x);
            if ranges::lookup(es, x) != 0 {
                let j = ranges::below(es, x);
                if j < i {
                    assert(es[j].last < m.index);
                } else if j > i {
                    assert(es[i].last < es[j].start);
                    assert(es[i].start <= es[i].last);
                }
            }
        }
    }
}

/// Erasing empties the range of the entry that was found and nothing else.
pub proof fn law_erase_lookup(m: MaState, es: Seq<Ent>, x: u64)
    requires
        ranges::ents_ok(es),
        es.len() <= u32::MAX,
        m.walked(es).1 != 0,
    ensures
        ({
            let w = m.walked(es).0;
            let new = w.store(es, 0, Some(true)).0;
            &&& w.index <= m.index <= w.last
            &&& ranges::lookup(new, x) == if w.index <= x <= w.last {
                0
            } else {
                ranges::lookup(es, x)
            }
        }),
{
    let w = m.walked(es).0;
    ranges::law_store_lookup(es, w.index, w.last, 0, x);
    ranges::lemma_below(es, m.index);
    ranges::law_hole_shrinks(es, ranges::below(es, m.index));
}

/// A range that fits is empty.
pub proof fn law_fit_is_empty(es: Seq<Ent>, min: u64, max: u64, size: u64, s: u64, x: u64)
    requires
        ranges::ents_ok(es),
        fits(es, min, max, size, s),
        s <= x <= s + size - 1,
    ensures
        ranges::lookup(es, x) == 0,
        min <= x <= max,
{
    ranges::lemma_lookup_none(es, x);
}

/// What a search from below finds is empty and between the limits.
pub proof fn law_area_is_empty(
    es: Seq<Ent>,
    min: u64,
    max: u64,
    size: u64,
    before: MaState,
    after: MaState,
    x: u64,
)
    requires
        ranges::ents_ok(es),
        lowest(es, min, max, size, before, after, 0),
        after.index <= x <= after.last,
    ensures
        ranges::lookup(es, x) == 0,
        min <= x <= max,
        after.last - after.index + 1 == size,
{
    law_fit_is_empty(es, min, max, size, after.index, x);
}

/// What a search from above finds is empty and between the limits.
pub proof fn law_rev_is_empty(
    es: Seq<Ent>,
    min: u64,
    max: u64,
    size: u64,
    before: MaState,
    after: MaState,
    x: u64,
)
    requires
        ranges::ents_ok(es),
        highest(es, min, max, size, before, after, 0),
        after.index <= x <= after.last,
    ensures
        ranges::lookup(es, x) == 0,
        min <= x <= max,
        after.last - after.index + 1 == size,
{
    law_fit_is_empty(es, min, max, size, after.index, x);
}

/// The searches from below and from above give the same result, and what the first
/// finds lies no higher than what the second finds.
pub proof fn law_searches_agree(
    es: Seq<Ent>,
    min: u64,
    max: u64,
    size: u64,
    before: MaState,
    low: MaState,
    high: MaState,
    r: i32,
    q: i32,
)
    requires
        lowest(es, min, max, size, before, low, r),
        highest(es, min, max, size, before, high, q),
    ensures
        r == q,
        low.index <= high.index,
        r != 0 ==> low == before && high == before,
{
}

/// Entry `i` is the first that ends at or above `from`, and starts no higher than `max`.
pub open spec fn first_entry(es: Seq<Ent>, from: u64, max: u64, i: int) -> bool {
    &&& 0 <= i < es.len()
    &&& from <= es[i].last
    &&& es[i].start <= max
    &&& forall|k: int| 0 <= k < i ==> (#[trigger] es[k]).last < from
}

/// Entry `i` is the last that ends below `to`, and ends no lower than `min`.
pub open spec fn last_entry(es: Seq<Ent>, to: u64, min: u64, i: int) -> bool {
    &&& 0 <= i < es.len()
    &&& min <= es[i].last < to
    &&& forall|k: int| i < k < es.len() ==> to <= (#[trigger] es[k]).last
}

/// The addresses from `a` to `b`, both included, hold nothing.
pub open spec fn empty_between(es: Seq<Ent>, a: int, b: int) -> bool {
    forall|x: u64| a <= x <= b ==> #[trigger] ranges::lookup(es, x) == 0
}

/// The cursor is on entry `i`, and `e` is the entry.
pub open spec fn stands_on(w: MaState, e: u64, es: Seq<Ent>, i: int) -> bool {
    &&& w.status == MaStatus::Active
    &&& w.err == 0
    &&& w.index == es[i].start
    &&& w.last == es[i].last
    &&& w.offset == i as u8
    &&& e == es[i].ptr
    &&& e != 0
}

/// The outcome of a search upwards: the first entry from `from` on that starts no higher
/// than `max`, or none and the cursor past the limit.
pub open spec fn found_up(w: MaState, e: u64, es: Seq<Ent>, from: u64, max: u64) -> bool {
    ||| exists|i: int| #[trigger] first_entry(es, from, max, i) && stands_on(w, e, es, i)
    ||| {
        &&& e == 0
        &&& w.status == MaStatus::Overflow
        &&& empty_between(es, from as int, max as int)
        &&& forall|i: int| !#[trigger] first_entry(es, from, max, i)
    }
}

/// The outcome of a search downwards: the last entry below `to` that ends no lower than
/// `min`, or none and the cursor past the limit.
pub open spec fn found_down(w: MaState, e: u64, es: Seq<Ent>, to: u64, min: u64) -> bool {
    ||| exists|i: int| #[trigger] last_entry(es, to, min, i) && stands_on(w, e, es, i)
    ||| {
        &&& e == 0
        &&& w.status == MaStatus::Underflow
        &&& forall|i: int| !#[trigger] last_entry(es, to, min, i)
    }
}

proof fn lemma_empty_between(es: Seq<Ent>, i: int, from: u64, max: u64)
    requires
        ranges::ents_ok(es),
        0 <= i <= es.len(),
        forall|k: int| 0 <= k < i ==> (#[trigger] es[k]).last < from,
        i < es.len() ==> es[i].start > max,
    ensures
        empty_between(es, from as int, max as int),
        forall|k: int| !#[trigger] first_entry(es, from, max, k),
{
    assert forall|x: u64| from <= x <= max implies #[trigger] ranges::lookup(es, x) == 0 by {
        ranges::lemma_lookup_none(es, x);
        assert forall|k: int| !#[trigger] ranges::holds(es, k, x) by {
            if 0 <= k < es.len() && k > i {
                assert(es[i].last < es[k].start);
                assert(es[i].start <= es[i].last);
            }
        }
    }
    assert forall|k: int| !#[trigger] first_entry(es, from, max, k) by {
        if 0 <= k < es.len() && k > i {
            assert(es[i].last < es[k].start);
            assert(es[i].start <= es[i].last);
        }
    }
}

/// Going forward finds the first entry behind the cursor up to the limit, or none.
pub proof fn law_next(m: MaState, es: Seq<Ent>, max: u64)
    requires
        ranges::ents_ok(es),
    ensures
        ({
            let (w, e) = m.next(es, max, false);
            &&& m.last < max ==> found_up(w, e, es, (m.last + 1) as u64, max)
            &&& m.last >= max ==> e == 0 && w == m.overflow()
        }),
{
    if m.last < max {
        let from = (m.last + 1) as u64;
        ranges::lemma_below(es, from);
        let i = ranges::below(es, from);
        if i < es.len() && es[i].start <= max {
            assert(first_entry(es, from, max, i));
        } else {
            lemma_empty_between(es, i, from, max);
        }
    }
}

/// Walking stands on the entry or in the hole at the index, as far as it reaches.
pub proof fn law_walk(m: MaState, es: Seq<Ent>)
    requires
        ranges::ents_ok(es),
    ensures
        ({
            let (w, e) = m.walked(es);
            &&& e == ranges::lookup(es, m.index)
            &&& w.index <= m.index <= w.last
            &&& e != 0 ==> exists|i: int| #[trigger]
                ranges::holds(es, i, m.index) && stands_on(w, e, es, i)
            &&& e == 0 ==> w.status == MaStatus::Hole && w.err == 0
            &&& forall|x: u64| w.index <= x <= w.last ==> #[trigger] ranges::lookup(es, x) == e
            &&& w.last < u64::MAX ==> ranges::lookup(es, (w.last + 1) as u64) != e
            &&& w.snap == m.snap && w.prealloc == m.prealloc
        }),
{
    let (w, e) = m.walked(es);
    ranges::lemma_below(es, m.index);
    let i = ranges::below(es, m.index);
    if ranges::holds(es, i, m.index) {
        assert forall|x: u64| w.index <= x <= w.last implies #[trigger] ranges::lookup(es, x)
            == e by {
            ranges::lemma_lookup(es, i, x);
        }
        if w.last < u64::MAX {
            let y = (w.last + 1) as u64;
            ranges::lemma_lookup_none(es, y);
            if ranges::lookup(es, y) != 0 {
                let j = ranges::below(es, y);
                if j > i + 1 {
                    assert(es[i + 1].last < es[j].start);
                    assert(es[i].last < es[i + 1].start);
                    assert(es[i + 1].start <= es[i + 1].last);
                } else if j < i {
                    assert(es[j].last < es[i].start);
                } else if j == i + 1 {
                    assert(es[i].last < es[i + 1].start);
                    assert(ranges::parted(es, i));
                }
            }
        }
    } else {
        ranges::lemma_lookup_none(es, m.index);
        if es.len() == 0 {
            assert forall|x: u64| w.index <= x <= w.last implies #[trigger] ranges::lookup(es, x)
                == e by {
                ranges::lemma_lookup_none(es, x);
            }
        } else {
            lemma_empty_between(es, i, m.index, w.last);
            assert forall|x: u64| w.index <= x <= w.last implies #[trigger] ranges::lookup(es, x)
                == e by {}
        }
        if i < es.len() {
            assert(es[i].start <= es[i].last);
            ranges::lemma_lookup(es, i, es[i].start);
        }
    }
}

/// Where a search upwards begins: at the index, or behind what a cursor has seen.
pub open spec fn find_from(m: MaState) -> int {
    match m.status {
        MaStatus::Active => m.last + 1,
        MaStatus::Hole | MaStatus::Pause => m.last as int,
        _ => m.index as int,
    }
}

/// Finding gives the first entry from where the search begins up to the limit, and
/// nothing only if there is none. A fresh cursor begins at its index.
pub proof fn law_find(m: MaState, es: Seq<Ent>, max: u64)
    requires
        ranges::ents_ok(es),
        m.status != MaStatus::Error,
        find_from(m) <= max,
        m.status == MaStatus::Overflow || m.status == MaStatus::Hole || m.status
            == MaStatus::Pause ==> m.last < max,
        m.status == MaStatus::Underflow ==> m.index < max,
    ensures
        ({
            let (w, e) = m.find(es, max);
            found_up(w, e, es, find_from(m) as u64, max)
        }),
{
    let (w, e) = m.find(es, max);
    if m.status == MaStatus::Active {
        law_next(m, es, max);
    } else {
        let n = if m.status == MaStatus::Hole || m.status == MaStatus::Pause {
            MaState { index: m.last, ..m }
        } else {
            m
        };
        lemma_walk_then_next(n, es, max);
    }
}

proof fn lemma_walk_then_next(m: MaState, es: Seq<Ent>, max: u64)
    requires
        ranges::ents_ok(es),
        m.index <= max,
    ensures
        ({
            let (w, e) = m.walked(es);
            let (x, f) = w.next(es, max, false);
            &&& e != 0 ==> found_up(w, e, es, m.index, max)
            &&& e == 0 ==> found_up(x, f, es, m.index, max)
            &&& e == 0 ==> w.next(es, max, true) == w.next(es, max, false)
        }),
{
    let (w, e) = m.walked(es);
    ranges::lemma_below(es, m.index);
    let i = ranges::below(es, m.index);
    if e != 0 {
        assert(first_entry(es, m.index, max, i));
    } else if es.len() == 0 {
        lemma_empty_between(es, 0, m.index, max);
    } else if i < es.len() {
        let start = es[i].start;
        assert(es[i].start <= es[i].last);
        if w.last < max {
            ranges::lemma_split_at(es, start, i);
            assert(first_entry(es, m.index, max, i));
        } else {
            lemma_empty_between(es, i, m.index, max);
        }
    } else {
        lemma_empty_between(es, i, m.index, max);
    }
}

/// A cursor that is at the limit already, or failed, finds nothing. Only one that had
/// come from above leaves for the upper end.
pub proof fn law_find_stops(m: MaState, es: Seq<Ent>, max: u64)
    requires
        match m.status {
            MaStatus::Error => true,
            MaStatus::Start => m.index > max,
            MaStatus::Underflow => m.index >= max,
            MaStatus::Root => false,
            _ => m.last >= max,
        },
    ensures
        m.find(es, max).1 == 0,
        m.status != MaStatus::Underflow ==> m.find(es, max).0 == m,
        m.status == MaStatus::Underflow ==> m.find(es, max).0 == m.overflow(),
{
}

/// Going forward with holes stops at whatever comes right behind the cursor: the entry
/// there, or the hole up to the next entry or the limit.
pub proof fn law_next_range(m: MaState, es: Seq<Ent>, max: u64)
    requires
        ranges::ents_ok(es),
    ensures
        ({
            let (w, e) = m.next(es, max, true);
            &&& m.last >= max ==> e == 0 && w == m.overflow()
            &&& m.last < max ==> {
                let from = (m.last + 1) as u64;
                &&& e == ranges::lookup(es, from)
                &&& w.index <= from <= w.last
                &&& e != 0 ==> exists|i: int| #[trigger]
                    ranges::holds(es, i, from) && stands_on(w, e, es, i)
                &&& e == 0 ==> {
                    &&& w.status == MaStatus::Hole
                    &&& w.index == from
                    &&& w.last <= max
                    &&& empty_between(es, from as int, w.last as int)
                    &&& w.last < max ==> ranges::lookup(es, (w.last + 1) as u64) != 0
                }
            }
        }),
{
    if m.last < max {
        let (w, e) = m.next(es, max, true);
        let from = (m.last + 1) as u64;
        ranges::lemma_below(es, from);
        let i = ranges::below(es, from);
        ranges::lemma_lookup_none(es, from);
        if i < es.len() && es[i].start <= from {
            assert(ranges::holds(es, i, from));
            ranges::lemma_lookup(es, i, from);
        } else {
            lemma_empty_between(es, i, from, w.last);
            if i < es.len() && es[i].start <= max {
                assert(es[i].start <= es[i].last);
                ranges::lemma_lookup(es, i, es[i].start);
            }
        }
    }
}

/// Going back finds the last entry below the cursor down to the limit, or none.
pub proof fn law_prev(m: MaState, es: Seq<Ent>, min: u64)
    requires
        ranges::ents_ok(es),
    ensures
        ({
            let (w, e) = m.prev(es, min, false);
            &&& m.index > min ==> found_down(w, e, es, m.index, min)
            &&& m.index <= min ==> e == 0 && w == m.underflow()
        }),
{
    if m.index > min {
        ranges::lemma_below(es, m.index);
        let i = ranges::below(es, m.index) - 1;
        lemma_last_entry(es, m.index, min);
        if i >= 0 && es[i].last >= min {
            assert(last_entry(es, m.index, min, i));
        }
    }
}

proof fn lemma_last_entry(es: Seq<Ent>, to: u64, min: u64)
    requires
        ranges::ents_ok(es),
    ensures
        ({
            let i = ranges::below(es, to) - 1;
            &&& i >= 0 && es[i].last >= min ==> last_entry(es, to, min, i)
            &&& i < 0 || es[i].last < min ==> forall|k: int| !#[trigger] last_entry(es, to, min, k)
        }),
{
    ranges::lemma_below(es, to);
    let i = ranges::below(es, to) - 1;
    assert forall|k: int| i < k < es.len() implies to <= (#[trigger] es[k]).last by {
        if k > i + 1 {
            assert(es[i + 1].last < es[k].start);
            assert(es[k].start <= es[k].last);
        }
    }
    if i < 0 || es[i].last < min {
        assert forall|k: int| !#[trigger] last_entry(es, to, min, k) by {
            if 0 <= k < es.len() && k < i {
                assert(es[k].last < es[i].start);
                assert(es[i].start <= es[i].last);
            }
        }
    }
}

/// Going back with holes stops at whatever comes right before the cursor: the entry
/// there, or the hole down to the previous entry or the limit.
pub proof fn law_prev_hole(m: MaState, es: Seq<Ent>, min: u64)
    requires
        ranges::ents_ok(es),
        m.index > min,
        forall|k: int| 0 <= k < es.len() ==> m.index <= (#[trigger] es[k]).start || es[k].last
            < m.index,
        forall|k: int| 0 <= k < es.len() ==> (#[trigger] es[k]).last >= min,
    ensures
        ({
            let (w, e) = m.prev(es, min, true);
            let x = (m.index - 1) as u64;
            &&& e == ranges::lookup(es, x)
            &&& e != 0 ==> exists|i: int| #[trigger]
                ranges::holds(es, i, x) && stands_on(w, e, es, i)
            &&& e == 0 ==> {
                &&& w.status == MaStatus::Hole
                &&& w.last == x
                &&& min <= w.index <= x
                &&& empty_between(es, w.index as int, x as int)
                &&& w.index > min ==> ranges::lookup(es, (w.index - 1) as u64) != 0
            }
        }),
{
    let (w, e) = m.prev(es, min, true);
    let x = (m.index - 1) as u64;
    ranges::lemma_below(es, m.index);
    let b = ranges::below(es, m.index);
    let i = b - 1;
    ranges::lemma_lookup_none(es, x);
    if i >= 0 && es[i].last == x {
        assert(es[i].start <= es[i].last);
        assert(ranges::holds(es, i, x));
        ranges::lemma_lookup(es, i, x);
    } else {
        if i >= 0 {
            assert(es[i].start <= es[i].last);
            ranges::lemma_lookup(es, i, es[i].last);
            assert forall|k: int| 0 <= k < b implies (#[trigger] es[k]).last < w.index by {
                if k < i {
                    assert(es[k].last < es[i].start);
                }
            }
        }
        if b < es.len() {
            assert(es[b].last >= m.index);
        }
        lemma_empty_between(es, b, w.index, x);
        assert(ranges::lookup(es, x) == 0);
    }
}

/// Going back with holes never stays or goes up: the cursor is below where it was, or
/// past the lower limit.
pub proof fn law_prev_range_descends(m: MaState, es: Seq<Ent>, min: u64)
    requires
        ranges::ents_ok(es),
        m.index > min,
    ensures
        ({
            let (w, e) = m.prev_range(es, min);
            &&& w.index < m.index
            &&& e != 0 ==> w.status == MaStatus::Active && e == ranges::lookup(es, w.index)
        }),
{
    ranges::lemma_below(es, m.index);
    let n = match m.status {
        MaStatus::Start | MaStatus::Hole | MaStatus::Pause => m.walked(es).0,
        _ => m,
    };
    let (p, e) = n.prev(es, min, true);
    ranges::lemma_below(es, n.index);
    let i = ranges::below(es, n.index) - 1;
    if e != 0 {
        assert(es[i].start <= es[i].last);
        ranges::lemma_lookup(es, i, es[i].start);
    }
}

/// Finding backwards gives the entry at the index, or else the last one below it down to
/// the limit.
pub proof fn law_find_rev(m: MaState, es: Seq<Ent>, min: u64)
    requires
        ranges::ents_ok(es),
        m.index > min,
        m.status == MaStatus::Start || m.status == MaStatus::Pause || m.status == MaStatus::Hole
            || m.status == MaStatus::Underflow,
    ensures
        ({
            let (w, e) = m.find_rev(es, min);
            if ranges::lookup(es, m.index) != 0 {
                exists|i: int| #[trigger] ranges::holds(es, i, m.index) && stands_on(w, e, es, i)
            } else {
                found_down(w, e, es, m.index, min)
            }
        }),
{
    law_walk(m, es);
    let w = m.walked(es).0;
    if m.walked(es).1 == 0 {
        law_prev(w, es, min);
        if es.len() == 0 {
            assert forall|i: int| !#[trigger] last_entry(es, m.index, min, i) by {}
        }
    }
}

/// Finding backwards from an entry finds the one before it, and nothing at the limit.
pub proof fn law_find_rev_on(m: MaState, es: Seq<Ent>, min: u64)
    requires
        ranges::ents_ok(es),
        m.status == MaStatus::Active,
    ensures
        ({
            let (w, e) = m.find_rev(es, min);
            &&& m.index > min ==> found_down(w, e, es, m.index, min)
            &&& m.index <= min ==> e == 0 && w == m
        }),
{
    law_prev(m, es, min);
}

/// Finding with holes gives the entry at the index or the next one, for a cursor that
/// has no entry, and goes on with holes for one that has.
pub proof fn law_find_range(m: MaState, es: Seq<Ent>, max: u64)
    requires
        ranges::ents_ok(es),
    ensures
        ({
            let (w, e) = m.find_range(es, max);
            &&& m.status == MaStatus::Error ==> e == 0 && w == m
            &&& m.index <= max && (m.status == MaStatus::Start || m.status == MaStatus::Pause
                || m.status == MaStatus::Hole) ==> found_up(w, e, es, m.index, max)
            &&& m.status == MaStatus::Active || m.status == MaStatus::Overflow || m.status
                == MaStatus::Underflow || m.status == MaStatus::Root ==> (w, e) == m.next(
                es,
                max,
                true,
            )
        }),
{
    if m.index <= max {
        lemma_walk_then_next(m, es, max);
    }
}

/// A fresh cursor goes forward from behind the entry at its index, and back from before
/// it; any other cursor from where it is.
pub proof fn law_started(m: MaState, es: Seq<Ent>)
    requires
        ranges::ents_ok(es),
    ensures
        m.status != MaStatus::Start ==> m.started(es) == m,
        m.status == MaStatus::Start ==> {
            let w = m.started(es);
            &&& w.index <= m.index <= w.last
            &&& forall|x: u64| w.index <= x <= w.last ==> #[trigger] ranges::lookup(es, x)
                == ranges::lookup(es, m.index)
            &&& w.last < u64::MAX ==> ranges::lookup(es, (w.last + 1) as u64) != ranges::lookup(
                es,
                m.index,
            )
        },
{
    law_walk(m, es);
}

/// How a store comes out: it fails for a range that is upside down and where there is no
/// memory, and asks for memory once unless a snapshot is large enough. Where it succeeds
/// the range holds the entry, every other address what it held, and the cursor stands on
/// all that holds the entry there, or in the hole.
pub proof fn law_store_outcome(
    m: MaState,
    es: Seq<Ent>,
    entry: u64,
    granted: Option<bool>,
    x: u64,
)
    requires
        ranges::ents_ok(es),
        es.len() + 2 <= u32::MAX,
    ensures
        ({
            let (new, w, step) = m.store(es, entry, granted);
            &&& step == StoreStep::Done(EINVAL) <==> m.index > m.last
            &&& step == StoreStep::Done(ENOMEM) ==> granted == Some(false)
            &&& step matches StoreStep::Done(e) ==> e == 0 || e == EINVAL || e == ENOMEM
            &&& step is Snap ==> granted is None && m.index <= m.last
            &&& step matches StoreStep::Snap(cap) ==> w == m && 1 <= cap <= es.len() + 2
            &&& m.index <= m.last && granted == Some(true) ==> step == StoreStep::Done(0i32)
            &&& step != StoreStep::Done(0i32) ==> new == es
            &&& step == StoreStep::Done(0i32) ==> {
                &&& ranges::lookup(new, x) == if m.index <= x <= m.last {
                    entry
                } else {
                    ranges::lookup(es, x)
                }
                &&& w.index <= m.index && m.last <= w.last
                &&& w.index <= x <= w.last ==> ranges::lookup(new, x) == entry
                &&& entry != 0 <==> w.status == MaStatus::Active
                &&& entry == 0 <==> w.status == MaStatus::Hole
                &&& w.snap is None && !w.prealloc
            }
        }),
{
    assert(granted is None || granted == Some(true) || granted == Some(false)) by {
        if let Some(g) = granted {
            assert(g || !g);
        }
    }
    if m.index <= m.last {
        let new = ranges::stored(es, m.index, m.last, entry);
        ranges::law_store_grows_by_two(es, m.index, m.last, entry);
        ranges::law_store_lookup(es, m.index, m.last, entry, x);
        ranges::law_store_lookup(es, m.index, m.last, entry, m.index);
        if entry != 0 {
            ranges::lemma_lookup_none(new, m.index);
            let i = ranges::below(new, m.index);
            assert(ranges::holds(new, i, m.index));
            if new[i].last < m.last {
                let y = (new[i].last + 1) as u64;
                let n = m.on(new, i);
                law_walk(MaState { index: m.index, ..n }, new);
                ranges::law_store_lookup(es, m.index, m.last, entry, y);
            }
            if new[i].start <= x <= new[i].last {
                ranges::lemma_lookup(new, i, x);
            }
        }
    }
}

/// An insertion into a range that holds an entry is refused: the tree stays, and the
/// lowest such entry is returned. Into an empty range it is a store.
pub proof fn law_insert(m: MaState, es: Seq<Ent>, entry: u64, granted: Option<bool>)
    requires
        ranges::ents_ok(es),
        m.index <= m.last,
    ensures
        ({
            let (new, w, step) = m.insert(es, entry, granted);
            let empty = empty_between(es, m.index as int, m.last as int);
            &&& empty ==> new == m.store(es, entry, granted).0 && w == m.store(
                es,
                entry,
                granted,
            ).1 && step == told(m.store(es, entry, granted).2, 0u64)
            &&& !empty ==> {
                &&& new == es
                &&& w.status == MaStatus::Error
                &&& w.err == EEXIST
                &&& exists|i: int| #[trigger]
                    first_entry(es, m.index, m.last, i) && step == StoreStep::Done(es[i].ptr)
                        && w.index == es[i].start && w.last == es[i].last
            }
        }),
{
    law_insert_refused(m, es);
    ranges::lemma_below(es, m.index);
    let i = ranges::below(es, m.index);
    if m.in_use(es) is Some {
        assert(first_entry(es, m.index, m.last, i));
        let x = choose|x: u64|
            m.index <= x <= m.last && #[trigger] ranges::lookup(es, x) != 0;
        assert(ranges::lookup(es, x) != 0);
    } else {
        assert forall|x: u64| m.index <= x <= m.last implies #[trigger] ranges::lookup(es, x)
            == 0 by {}
    }
}

/// Erasing returns the entry at the index and empties its range, with everything else as
/// it was. Where there is no entry nothing changes.
pub proof fn law_erase(m: MaState, es: Seq<Ent>, x: u64)
    requires
        ranges::ents_ok(es),
        es.len() <= u32::MAX,
    ensures
        ({
            let (new, w, step) = m.erase(es, Some(true));
            let e = ranges::lookup(es, m.index);
            let range = m.walked(es).0;
            &&& step == StoreStep::Done(e)
            &&& e == 0 ==> new == es
            &&& e != 0 ==> ranges::lookup(new, m.index) == 0
            &&& e != 0 && range.index <= x <= range.last ==> ranges::lookup(es, x) == e
                && ranges::lookup(new, x) == 0
            &&& e != 0 && !(range.index <= x <= range.last) ==> ranges::lookup(new, x)
                == ranges::lookup(es, x)
        }),
{
    law_walk(m, es);
    if ranges::lookup(es, m.index) != 0 {
        law_erase_lookup(m, es, x);
        law_erase_lookup(m, es, m.index);
        ranges::lemma_below(es, m.index);
        ranges::law_hole_shrinks(es, ranges::below(es, m.index));
        let (w, e) = m.walked(es);
        assert(w.index <= m.index <= w.last);
    }
}

/// Keeping a snapshot succeeds if there is memory for it, and the next store then needs
/// no more, whatever it stores.
pub proof fn law_preallocated(m: MaState, es: Seq<Ent>, index: u64, last: u64, entry: u64)
    requires
        ranges::ents_ok(es),
        es.len() + 2 <= u32::MAX,
        index <= last,
    ensures
        ({
            let (w, step) = m.preallocated(es.len(), Some(true));
            let (new, _, done) = (MaState { index, last, ..w }).store(es, entry, None);
            &&& step == StoreStep::Done(0i32)
            &&& w.index == m.index && w.last == m.last && w.status == m.status
            &&& done == StoreStep::Done(0i32)
            &&& new == ranges::stored(es, index, last, entry)
        }),
        m.preallocated(es.len(), Some(false)).1 == StoreStep::Done(ENOMEM),
        m.preallocated(es.len(), None).1 is Snap,
        m.preallocated(es.len(), None).0 == m,
{
    let w = m.preallocated(es.len(), Some(true)).0;
    law_prealloc_suffices(MaState { index, last, ..w }, es, entry);
}

/// A copy into an empty tree holds at every address what the tree holds, if there is
/// memory for it. A tree that is not empty is left alone.
pub proof fn law_copied(es: Seq<Ent>, new: Seq<Ent>, granted: Option<bool>, x: u64)
    requires
        ranges::ents_ok(es),
        ranges::ents_ok(new),
    ensures
        ({
            let (after, step) = copied(es, new, granted);
            &&& new.len() > 0 ==> after == new && step == StoreStep::Done(EINVAL)
            &&& new.len() == 0 && step == StoreStep::Done(0i32) ==> ranges::lookup(after, x)
                == ranges::lookup(es, x)
            &&& new.len() == 0 && granted == Some(true) ==> step == StoreStep::Done(0i32)
            &&& step != StoreStep::Done(0i32) ==> after == new
            &&& step matches StoreStep::Snap(cap) ==> granted is None && cap == es.len() as u32
        }),
{
    assert(granted is None || granted == Some(true) || granted == Some(false)) by {
        if let Some(g) = granted {
            assert(g || !g);
        }
    }
    ranges::lemma_lookup_none(es, x);
    ranges::lemma_lookup_none(new, x);
}

/// The pointer at an address is that of the entry around it, and 0 without one.
pub proof fn law_load(es: Seq<Ent>, x: u64)
    requires
        ranges::ents_ok(es),
    ensures
        forall|i: int| #[trigger] ranges::holds(es, i, x) ==> ranges::lookup(es, x) == es[i].ptr,
        (forall|i: int| !#[trigger] ranges::holds(es, i, x)) ==> ranges::lookup(es, x) == 0,
{
    ranges::lemma_lookup_none(es, x);
    assert forall|i: int| #[trigger] ranges::holds(es, i, x) implies ranges::lookup(es, x)
        == es[i].ptr by {
        ranges::lemma_lookup(es, i, x);
    }
}

/// A range of the size lies between the limits and is empty.
pub open spec fn empty_range(es: Seq<Ent>, min: u64, max: u64, size: u64, s: u64) -> bool {
    min <= s && s + size - 1 <= max && empty_between(es, s as int, s + size - 1)
}

proof fn lemma_empty_fits(es: Seq<Ent>, min: u64, max: u64, size: u64, s: u64)
    requires
        ranges::ents_ok(es),
        size > 0,
    ensures
        empty_range(es, min, max, size, s) == fits(es, min, max, size, s),
{
    if min <= s && s + size - 1 <= max {
        if empty_range(es, min, max, size, s) {
            assert forall|i: int| 0 <= i < es.len() implies (#[trigger] es[i]).last < s
                || es[i].start > s + size - 1 by {
                assert(es[i].start <= es[i].last);
                let x = if es[i].start < s {
                    s
                } else {
                    es[i].start
                };
                if es[i].last >= s && es[i].start <= s + size - 1 {
                    ranges::lemma_lookup(es, i, x);
                    assert(ranges::lookup(es, x) == 0);
                }
            }
        }
        if fits(es, min, max, size, s) {
            assert forall|x: u64| s <= x <= s + size - 1 implies #[trigger] ranges::lookup(es, x)
                == 0 by {
                law_fit_is_empty(es, min, max, size, s, x);
            }
        }
    }
}

/// The searches for an empty range fail only for limits that leave no room, and where no
/// range between them is empty. Otherwise the one from below finds the lowest and the
/// one from above the highest.
pub proof fn law_area_found(
    es: Seq<Ent>,
    min: u64,
    max: u64,
    size: u64,
    before: MaState,
    low: MaState,
    high: MaState,
    r: i32,
    q: i32,
    s: u64,
)
    requires
        ranges::ents_ok(es),
        lowest(es, min, max, size, before, low, r),
        highest(es, min, max, size, before, high, q),
    ensures
        r == q,
        r == EINVAL <==> size == 0 || min + size - 1 > max,
        r == 0 || r == EINVAL || r == EBUSY,
        r == 0 ==> empty_range(es, min, max, size, low.index) && empty_range(
            es,
            min,
            max,
            size,
            high.index,
        ),
        r == 0 ==> low.last == low.index + size - 1 && high.last == high.index + size - 1,
        r == 0 ==> low.status == MaStatus::Active && high.status == MaStatus::Active,
        size > 0 && empty_range(es, min, max, size, s) ==> r == 0 && low.index <= s <= high.index,
{
    if size > 0 {
        lemma_empty_fits(es, min, max, size, s);
        lemma_empty_fits(es, min, max, size, low.index);
        lemma_empty_fits(es, min, max, size, high.index);
    }
}

/// Entry `i` is the first that starts above `x`, and starts no higher than `max`.
pub open spec fn next_above(es: Seq<Ent>, x: u64, max: u64, i: int) -> bool {
    &&& 0 <= i < es.len()
    &&& x < es[i].start <= max
    &&& forall|k: int| 0 <= k < i ==> (#[trigger] es[k]).start <= x
}

/// A step forward by a fresh cursor finds the first entry that starts above its index, up
/// to the limit, and nothing only if there is none. Any other cursor goes on from the end
/// of its range.
pub proof fn law_step_up(m: MaState, es: Seq<Ent>, max: u64)
    requires
        ranges::ents_ok(es),
    ensures
        ({
            let (w, e) = m.step_up(es, max, false);
            &&& m.status != MaStatus::Start && m.last < max ==> found_up(
                w,
                e,
                es,
                (m.last + 1) as u64,
                max,
            )
            &&& m.status != MaStatus::Start && m.last >= max ==> e == 0 && w == m.overflow()
            &&& m.status == MaStatus::Start && e != 0 ==> exists|i: int| #[trigger]
                next_above(es, m.index, max, i) && stands_on(w, e, es, i)
            &&& m.status == MaStatus::Start && e == 0 ==> w.status == MaStatus::Overflow
            &&& m.status == MaStatus::Start && e == 0 ==> forall|i: int| !#[trigger]
                next_above(es, m.index, max, i)
        }),
{
    let s = m.started(es);
    law_next(s, es, max);
    if m.status == MaStatus::Start {
        law_walk(m, es);
        let (w, e) = m.step_up(es, max, false);
        if e != 0 {
            let from = (s.last + 1) as u64;
            let i = choose|i: int| #[trigger]
                first_entry(es, from, max, i) && stands_on(w, e, es, i);
            lemma_above(es, m.index, s.last, i);
            assert(next_above(es, m.index, max, i));
        } else {
            assert forall|i: int| !#[trigger] next_above(es, m.index, max, i) by {
                if next_above(es, m.index, max, i) {
                    assert(es[i].start <= es[i].last);
                    if s.last < max {
                        let from = (s.last + 1) as u64;
                        lemma_same_range(es, m.index, s.last, i);
                        assert forall|k: int| 0 <= k < i implies (#[trigger] es[k]).last
                            < from by {
                            if es[k].last >= from {
                                assert(es[k].start <= m.index);
                                lemma_reaches(es, m.index, s.last, k);
                            }
                        }
                        assert(first_entry(es, from, max, i));
                    } else {
                        lemma_same_range(es, m.index, s.last, i);
                    }
                }
            }
        }
    }
}

/// In a stretch that holds one thing no entry starts behind its first address.
proof fn lemma_same_range(es: Seq<Ent>, x: u64, last: u64, i: int)
    requires
        ranges::ents_ok(es),
        0 <= i < es.len(),
        forall|y: u64| x <= y <= last ==> #[trigger] ranges::lookup(es, y) == ranges::lookup(es, x),
    ensures
        !(x < es[i].start <= last),
{
    if x < es[i].start <= last {
        let a = es[i].start;
        let b = (a - 1) as u64;
        assert(es[i].start <= es[i].last);
        ranges::lemma_lookup(es, i, a);
        assert(ranges::lookup(es, a) == ranges::lookup(es, x));
        assert(ranges::lookup(es, b) == ranges::lookup(es, x));
        ranges::lemma_lookup_none(es, b);
        let j = ranges::below(es, b);
        if j > i {
            assert(es[i].last < es[j].start);
        } else if j < i - 1 {
            assert(es[j].last < es[i - 1].start);
            assert(es[i - 1].last < es[i].start);
            assert(es[i - 1].start <= es[i - 1].last);
        } else if j == i - 1 {
            assert(es[j].last < es[i].start);
            assert(ranges::parted(es, j));
        }
    }
}

/// No entry reaches from a stretch beyond it if it does not hold the same there.
proof fn lemma_reaches(es: Seq<Ent>, x: u64, last: u64, k: int)
    requires
        ranges::ents_ok(es),
        0 <= k < es.len(),
        x <= last < u64::MAX,
        ranges::lookup(es, (last + 1) as u64) != ranges::lookup(es, x),
    ensures
        !(es[k].start <= x && last < es[k].last),
{
    if es[k].start <= x && last < es[k].last {
        ranges::lemma_lookup(es, k, x);
        ranges::lemma_lookup(es, k, (last + 1) as u64);
    }
}

proof fn lemma_above(es: Seq<Ent>, x: u64, last: u64, i: int)
    requires
        ranges::ents_ok(es),
        0 <= i < es.len(),
        x <= last < u64::MAX,
        es[i].last > last,
        forall|k: int| 0 <= k < i ==> (#[trigger] es[k]).last <= last,
        forall|y: u64| x <= y <= last ==> #[trigger] ranges::lookup(es, y) == ranges::lookup(es, x),
        ranges::lookup(es, (last + 1) as u64) != ranges::lookup(es, x),
    ensures
        es[i].start > x,
        forall|k: int| 0 <= k < i ==> (#[trigger] es[k]).start <= x,
{
    lemma_reaches(es, x, last, i);
    assert forall|k: int| 0 <= k < i implies (#[trigger] es[k]).start <= x by {
        assert(es[k].start <= es[k].last);
        lemma_same_range(es, x, last, k);
    }
}

/// A step forward with holes by a fresh cursor stops at what comes right behind the entry
/// or hole at its index, unless that reaches the limit.
pub proof fn law_step_up_range(m: MaState, es: Seq<Ent>, max: u64)
    requires
        ranges::ents_ok(es),
    ensures
        ({
            let (w, e) = m.step_up(es, max, true);
            &&& m.status != MaStatus::Start ==> (w, e) == m.next(es, max, true)
            &&& m.status == MaStatus::Start && w.status != MaStatus::Overflow ==> {
                &&& m.index < w.last
                &&& e == ranges::lookup(es, w.index)
                &&& e != ranges::lookup(es, m.index)
                &&& m.index < w.index ==> forall|x: u64|
                    m.index <= x < w.index ==> #[trigger] ranges::lookup(es, x) == ranges::lookup(
                        es,
                        m.index,
                    )
                &&& m.index < w.index <= max
            }
            &&& m.status == MaStatus::Start && w.status == MaStatus::Overflow ==> e == 0
                && forall|x: u64|
                m.index <= x <= max ==> #[trigger] ranges::lookup(es, x) == ranges::lookup(
                    es,
                    m.index,
                )
        }),
{
    let s = m.started(es);
    law_next_range(s, es, max);
    if m.status == MaStatus::Start {
        law_walk(m, es);
        let (w, e) = m.step_up(es, max, true);
        if s.last < max {
            let from = (s.last + 1) as u64;
            ranges::lemma_below(es, from);
            if e != 0 {
                let i = choose|i: int| #[trigger]
                    ranges::holds(es, i, from) && stands_on(w, e, es, i);
                if es[i].start < from {
                    ranges::lemma_lookup(es, i, s.last);
                }
                ranges::lemma_lookup(es, i, es[i].start);
            }
        }
    }
}

/// A step back by a fresh cursor finds the last entry that ends below its index, down to
/// the limit, and nothing only if there is none. Any other cursor goes on from the start of
/// its range.
pub proof fn law_step_down(m: MaState, es: Seq<Ent>, min: u64)
    requires
        ranges::ents_ok(es),
    ensures
        ({
            let (w, e) = m.step_down(es, min);
            &&& m.status != MaStatus::Start && m.index > min ==> found_down(w, e, es, m.index, min)
            &&& m.index <= min ==> e == 0
            &&& m.status == MaStatus::Start && m.index > min ==> found_down(
                w,
                e,
                es,
                m.index,
                min,
            )
        }),
{
    let s = m.started(es);
    law_prev(s, es, min);
    if m.status == MaStatus::Start {
        law_walk(m, es);
        ranges::lemma_below(es, m.index);
        let i = ranges::below(es, m.index);
        lemma_last_entry(es, m.index, min);
        if ranges::holds(es, i, m.index) {
            ranges::lemma_split_at(es, s.index, i);
            lemma_last_entry(es, s.index, min);
            if i > 0 {
                assert(es[i - 1].last < es[i].start);
            }
            if s.index <= min && m.index > min && i > 0 {
                assert(es[i - 1].last < min);
            }
        } else if es.len() == 0 {
            assert forall|k: int| !#[trigger] last_entry(es, m.index, min, k) by {}
        }
    }
}

/// A step back with holes by a cursor without an entry stops at what comes right before the
/// entry at its index, or before the index itself if that is in a hole: the entry there, or
/// the hole down to the previous entry or the limit. Entries that end below the limit are
/// not looked at here: one of those next to the cursor ends the search at once.
pub proof fn law_prev_range(m: MaState, es: Seq<Ent>, min: u64, b: u64)
    requires
        ranges::ents_ok(es),
        es.len() > 0,
        m.status == MaStatus::Start || m.status == MaStatus::Hole || m.status == MaStatus::Pause,
        min < b <= m.index,
        ranges::lookup(es, m.index) == 0 ==> b == m.index,
        ranges::lookup(es, m.index) != 0 ==> exists|i: int| #[trigger]
            ranges::holds(es, i, m.index) && es[i].start == b,
        forall|k: int| 0 <= k < es.len() ==> (#[trigger] es[k]).last >= min,
    ensures
        ({
            let (w, e) = m.prev_range(es, min);
            let x = (b - 1) as u64;
            &&& e == ranges::lookup(es, x)
            &&& e != 0 ==> exists|i: int| #[trigger]
                ranges::holds(es, i, x) && stands_on(w, e, es, i)
            &&& e == 0 ==> {
                &&& w.status == MaStatus::Hole
                &&& w.last == x
                &&& min <= w.index <= x
                &&& empty_between(es, w.index as int, x as int)
                &&& w.index > min ==> ranges::lookup(es, (w.index - 1) as u64) != 0
            }
        }),
{
    law_walk(m, es);
    let s = m.walked(es).0;
    ranges::lemma_below(es, m.index);
    let i = ranges::below(es, m.index);
    if ranges::lookup(es, m.index) != 0 {
        let j = choose|j: int| #[trigger] ranges::holds(es, j, m.index) && es[j].start == b;
        ranges::lemma_lookup(es, j, m.index);
        assert forall|k: int| 0 <= k < es.len() implies s.index <= (#[trigger] es[k]).start
            || es[k].last < s.index by {
            if k < j {
                assert(es[k].last < es[j].start);
            } else if k > j {
                assert(es[j].last < es[k].start);
            }
        }
    } else {
        ranges::lemma_lookup_none(es, m.index);
        assert forall|k: int| 0 <= k < es.len() implies s.index <= (#[trigger] es[k]).start
            || es[k].last < s.index by {
            assert(!ranges::holds(es, k, m.index));
        }
    }
    law_prev_hole(s, es, min);
}

/// A cursor that failed finds nothing backwards and stays. One without an entry at or below
/// the limit finds only what is at its index. One past the upper limit goes on from its
/// index.
pub proof fn law_find_rev_stops(m: MaState, es: Seq<Ent>, min: u64)
    requires
        ranges::ents_ok(es),
    ensures
        ({
            let (w, e) = m.find_rev(es, min);
            &&& m.status == MaStatus::Error ==> e == 0 && w == m
            &&& m.index <= min && (m.status == MaStatus::Start || m.status == MaStatus::Pause
                || m.status == MaStatus::Hole || m.status == MaStatus::Underflow) ==> {
                &&& e == ranges::lookup(es, m.index)
                &&& e != 0 ==> exists|i: int| #[trigger]
                    ranges::holds(es, i, m.index) && stands_on(w, e, es, i)
                &&& e == 0 ==> w.status == MaStatus::Underflow
            }
            &&& m.index > min && (m.status == MaStatus::Overflow || m.status == MaStatus::Root)
                ==> found_down(w, e, es, m.index, min)
            &&& m.index <= min && (m.status == MaStatus::Overflow || m.status == MaStatus::Root)
                ==> e == 0 && w.status == MaStatus::Underflow
        }),
{
    law_walk(m, es);
    law_prev(m, es, min);
    law_prev(m.walked(es).0, es, min);
}

/// A cursor without an entry above the limit finds with holes only what is at its index.
pub proof fn law_find_range_stops(m: MaState, es: Seq<Ent>, max: u64)
    requires
        ranges::ents_ok(es),
        m.index > max,
        m.status == MaStatus::Start || m.status == MaStatus::Pause || m.status == MaStatus::Hole,
    ensures
        ({
            let (w, e) = m.find_range(es, max);
            &&& e == ranges::lookup(es, m.index)
            &&& e != 0 ==> exists|i: int| #[trigger]
                ranges::holds(es, i, m.index) && stands_on(w, e, es, i)
            &&& e == 0 ==> w.status == MaStatus::Overflow
        }),
{
    law_walk(m, es);
}

/// A store asks for memory exactly if the snapshot that the cursor keeps for it is too
/// small. What it asks for is enough and no more than needed. Without memory it fails, and
/// then the tree and the range stay as they are.
pub proof fn law_store_memory(m: MaState, es: Seq<Ent>, entry: u64, granted: Option<bool>)
    requires
        m.index <= m.last,
        ranges::stored(es, m.index, m.last, entry).len() <= u32::MAX,
    ensures
        ({
            let (new, w, step) = m.store(es, entry, granted);
            let n = ranges::stored(es, m.index, m.last, entry).len() as int;
            let room = m.prealloc && (m.snap matches Some(c) && 0 < c && n <= c);
            &&& step == StoreStep::Done(0i32) <==> room || granted == Some(true)
            &&& step == StoreStep::Done(ENOMEM) <==> !room && granted == Some(false)
            &&& step is Snap <==> !room && granted is None
            &&& step matches StoreStep::Snap(cap) ==> n <= cap && 0 < cap && (cap == n || cap == 1)
            &&& step == StoreStep::Done(0i32) ==> w.snap is None && !w.prealloc && w.err == 0
            &&& step == StoreStep::Done(ENOMEM) ==> {
                &&& new == es
                &&& w.status == MaStatus::Error
                &&& w.err == ENOMEM
                &&& w.index == m.index && w.last == m.last
                &&& w.snap == m.snap && w.prealloc == m.prealloc
            }
        }),
{
    assert(granted is None || granted == Some(true) || granted == Some(false));
}

/// A range that is upside down is refused, and nothing changes but the cursor's error. A
/// tree that would have too many ranges to count is refused for want of memory.
pub proof fn law_store_refused(m: MaState, es: Seq<Ent>, entry: u64, granted: Option<bool>)
    ensures
        ({
            let (new, w, step) = m.store(es, entry, granted);
            let n = ranges::stored(es, m.index, m.last, entry).len();
            &&& m.index > m.last ==> step == StoreStep::Done(EINVAL) && w.err == EINVAL
            &&& m.index <= m.last && n > u32::MAX ==> step == StoreStep::Done(ENOMEM) && w.err
                == ENOMEM
            &&& m.index > m.last || n > u32::MAX ==> new == es && w.status == MaStatus::Error
                && w.index == m.index && w.last == m.last
        }),
{
}

/// Storing without being told the result is the same store: memory is asked for in the
/// same way, and the end is told as the same value whatever came of it.
pub proof fn law_told<R>(step: StoreStep<i32>, done: R)
    ensures
        step is Snap <==> told(step, done) is Snap,
        step matches StoreStep::Snap(cap) ==> told(step, done) == StoreStep::<R>::Snap(cap),
        step is Done ==> told(step, done) == StoreStep::<R>::Done(done),
{
}

/// Erasing returns the entry at the index whatever comes of it. It asks for memory only if
/// there is an entry; the entry stays exactly if there is no memory.
pub proof fn law_erase_memory(m: MaState, es: Seq<Ent>, granted: Option<bool>)
    requires
        ranges::ents_ok(es),
        es.len() <= u32::MAX,
        !m.prealloc,
    ensures
        ({
            let (new, w, step) = m.erase(es, granted);
            let e = ranges::lookup(es, m.index);
            &&& e == 0 ==> new == es && step == StoreStep::Done(0u64) && w.status == MaStatus::Hole
            &&& granted is Some ==> step == StoreStep::Done(e)
            &&& granted is None && e != 0 ==> step is Snap && new == es
            &&& granted == Some(false) && e != 0 ==> new == es && w.status == MaStatus::Error
                && w.err == ENOMEM
            &&& granted == Some(true) && e != 0 ==> new.len() == es.len() - 1 && w.status
                == MaStatus::Hole
        }),
{
    assert(granted is None || granted == Some(true) || granted == Some(false));
    law_walk(m, es);
    let (w, e) = m.walked(es);
    if e != 0 {
        let i = choose|i: int| #[trigger]
            ranges::holds(es, i, m.index) && stands_on(w, e, es, i);
        ranges::law_hole_shrinks(es, i);
    }
}

/// Dropping a snapshot leaves the cursor where it is, with none, and tells whether there
/// was one.
pub proof fn law_dropped(m: MaState)
    ensures
        ({
            let (w, r) = m.dropped();
            &&& r <==> m.snap is Some
            &&& w.snap is None && !w.prealloc
            &&& w.index == m.index && w.last == m.last && w.status == m.status && w.err == m.err
            &&& w.dropped() == (w, false)
        }),
{
}

/// An emptied tree holds nothing, and there was something to free exactly if some address
/// held an entry.
pub proof fn law_emptied(es: Seq<Ent>, x: u64)
    requires
        ranges::ents_ok(es),
    ensures
        ranges::ents_ok(emptied(es).0),
        ranges::lookup(emptied(es).0, x) == 0,
        emptied(es).1 <==> exists|y: u64| #[trigger] ranges::lookup(es, y) != 0,
{
    if es.len() > 0 {
        assert(es[0].start <= es[0].last);
        ranges::lemma_lookup(es, 0, es[0].start);
        assert(ranges::lookup(es, es[0].start) != 0);
    }
}

/// A snapshot has a header and then room for each entry.
pub proof fn law_snap_bytes(a: int, b: int)
    ensures
        snap_bytes(0) == 24,
        snap_bytes(a + b) == snap_bytes(a) + 24 * b,
{
}

/// An insertion into a range that is upside down fails and changes nothing in the tree.
pub proof fn law_insert_backwards(m: MaState, es: Seq<Ent>, entry: u64, granted: Option<bool>)
    requires
        m.index > m.last,
    ensures
        ({
            let (new, w, step) = m.insert(es, entry, granted);
            &&& new == es
            &&& w.status == MaStatus::Error
            &&& w.err == EINVAL || w.err == EEXIST
            &&& step is Done
        }),
{
}

/// Going back, with holes or without, ends at once where there are entries below the cursor
/// and all of them end below the limit.
pub proof fn law_prev_below(m: MaState, es: Seq<Ent>, min: u64, holes: bool, j: int)
    requires
        ranges::ents_ok(es),
        0 <= j < es.len(),
        es[j].last < m.index,
        forall|k: int| 0 <= k < es.len() && (#[trigger] es[k]).last < m.index ==> es[k].last < min,
    ensures
        m.prev(es, min, holes) == (m.underflow(), 0u64),
{
    ranges::lemma_below(es, m.index);
    let b = ranges::below(es, m.index);
    if b == 0 {
        assert(es[0].last >= m.index);
        if j > 0 {
            assert(es[0].last < es[j].start);
            assert(es[j].start <= es[j].last);
        }
    } else {
        assert(es[b - 1].last < m.index);
    }
}

} // verus!
