//! Unmap and teardown sequencers (`munmap`, `unmap_region`, `exit_mmap`).
//!
//! Holes in the range tree, TLB gathering and freeing page tables are helpers.

use vstd::prelude::*;
use crate::error::EINVAL;
use crate::mm::step;
use crate::mm::step::{Event, Step};

verus! {

/// Finished; the helper gave the result.
pub const MUNMAP_DONE: i32 = 0;

/// A mapping overlaps; unmap it.
pub const MUNMAP_ALIGN: i32 = 1;

/// What the range check of [`rust_munmap_dispatch`] gives besides its kind.
#[derive(Clone, Copy, PartialEq, Eq, Structural, Debug)]
pub struct MunmapOut {
    pub out: i32,
    /// First mapping in the range.
    pub vma: u64,
    /// End of the range.
    pub end: u64,
}

/// The helpers of [`rust_munmap_dispatch`].
#[derive(Clone, Copy, PartialEq, Eq, Structural, Debug)]
pub enum MunmapCall {
    Classify,
    Align { vma: u64, end: u64 },
}

/// What [`rust_munmap_dispatch`] does at an event: the flag goes from `before` to
/// `after`, and `r` is next.
pub open spec fn munmap_runs(
    vmi: u64,
    mm: u64,
    handled_ptr: u64,
    before: i32,
    after: i32,
    event: Event<MunmapOut>,
    r: Step<MunmapCall, i32>,
) -> bool {
    match event {
        Event::Enter => step::begun(
            vmi != 0 && mm != 0 && handled_ptr != 0,
            MunmapCall::Classify,
            EINVAL,
            before,
            after,
            r,
        ),
        Event::Classified { kind, out } => after == 1 && r == if kind
            == MUNMAP_DONE {
            Step::Return(out.out)
        } else if kind == MUNMAP_ALIGN {
            Step::Tail(MunmapCall::Align { vma: out.vma, end: out.end })
        } else {
            Step::Reject(EINVAL)
        },
    }
}

/// Sequences `do_vmi_munmap`: check the range, then unmap what overlaps.
pub fn rust_munmap_dispatch(
    vmi: u64,
    mm: u64,
    handled_ptr: u64,
    handled: &mut i32,
    event: Event<MunmapOut>,
) -> (r: Step<MunmapCall, i32>)
    ensures
        munmap_runs(vmi, mm, handled_ptr, *old(handled), *final(handled), event, r),
{
    match event {
        Event::Enter => {
            if vmi == 0 || mm == 0 || handled_ptr == 0 {
                return Step::Return(EINVAL);
            }
            *handled = 0;
            Step::Call(MunmapCall::Classify)
        },
        Event::Classified { kind, out } => {
            *handled = 1;
            if kind == MUNMAP_DONE {
                Step::Return(out.out)
            } else if kind == MUNMAP_ALIGN {
                Step::Tail(MunmapCall::Align { vma: out.vma, end: out.end })
            } else {
                Step::Reject(EINVAL)
            }
        },
    }
}

/// [`rust_munmap_dispatch`] fails at once on a null pointer and on nothing else. Once
/// `Classify` has answered it goes by the kind: `MUNMAP_DONE` hands back what the
/// helper gave, `MUNMAP_ALIGN` runs `Align`, and any other is refused.
pub proof fn law_munmap(
    vmi: u64,
    mm: u64,
    handled_ptr: u64,
    before: i32,
    after: i32,
    event: Event<MunmapOut>,
    r: Step<MunmapCall, i32>,
)
    requires
        munmap_runs(vmi, mm, handled_ptr, before, after, event, r),
    ensures
        match event {
            Event::Enter => step::enters(
                set![vmi, mm, handled_ptr],
                before,
                after,
                MunmapCall::Classify,
                EINVAL,
                r,
            ),
            Event::Classified { kind, out } => after == 1 && step::sorted(
                kind,
                map![
                    MUNMAP_DONE => Step::Return(out.out),
                    MUNMAP_ALIGN => Step::Tail(MunmapCall::Align { vma: out.vma, end: out.end }),
                ],
                Step::Reject(EINVAL),
                r,
            ),
        },
{
}

/// Finished; the helper gave the result.
pub const AMUNMAP_DONE: i32 = 0;

/// Gathered and the hole cleared; zap.
pub const AMUNMAP_COMPLETE: i32 = 1;

/// The helpers of [`rust_amunmap_dispatch`].
#[derive(Clone, Copy, PartialEq, Eq, Structural, Debug)]
pub enum AmunmapCall {
    Classify,
    Complete,
    Abort,
}

/// What [`rust_amunmap_dispatch`] does at an event: the flag goes from `before` to
/// `after`, and `r` is next.
pub open spec fn amunmap_runs(
    s: u64,
    handled_ptr: u64,
    before: i32,
    after: i32,
    event: Event<i32>,
    r: Step<AmunmapCall, i32>,
) -> bool {
    match event {
        Event::Enter => step::begun(
            s != 0 && handled_ptr != 0,
            AmunmapCall::Classify,
            EINVAL,
            before,
            after,
            r,
        ),
        Event::Classified { kind, out } => after == 1 && r == if kind == AMUNMAP_DONE {
            Step::Return(out)
        } else if kind == AMUNMAP_COMPLETE {
            Step::Tail(AmunmapCall::Complete)
        } else {
            Step::Abort(AmunmapCall::Abort, EINVAL)
        },
    }
}

/// Sequences `do_vmi_align_munmap`: gather mappings, then complete the unmap. An
/// unknown kind completes a gathered unmap so that nothing is leaked.
pub fn rust_amunmap_dispatch(
    s: u64,
    handled_ptr: u64,
    handled: &mut i32,
    event: Event<i32>,
) -> (r: Step<AmunmapCall, i32>)
    ensures
        amunmap_runs(s, handled_ptr, *old(handled), *final(handled), event, r),
{
    match event {
        Event::Enter => {
            if s == 0 || handled_ptr == 0 {
                return Step::Return(EINVAL);
            }
            *handled = 0;
            Step::Call(AmunmapCall::Classify)
        },
        Event::Classified { kind, out } => {
            *handled = 1;
            if kind == AMUNMAP_DONE {
                Step::Return(out)
            } else if kind == AMUNMAP_COMPLETE {
                Step::Tail(AmunmapCall::Complete)
            } else {
                Step::Abort(AmunmapCall::Abort, EINVAL)
            }
        },
    }
}

/// [`rust_amunmap_dispatch`] fails at once on a null pointer and on nothing else. Once
/// `Classify` has answered it goes by the kind: `AMUNMAP_DONE` hands back what the
/// helper gave, `AMUNMAP_COMPLETE` runs `Complete`, and any other is refused and
/// cleaned up by `Abort`.
pub proof fn law_amunmap(
    s: u64,
    handled_ptr: u64,
    before: i32,
    after: i32,
    event: Event<i32>,
    r: Step<AmunmapCall, i32>,
)
    requires
        amunmap_runs(s, handled_ptr, before, after, event, r),
    ensures
        match event {
            Event::Enter => step::enters(
                set![s, handled_ptr],
                before,
                after,
                AmunmapCall::Classify,
                EINVAL,
                r,
            ),
            Event::Classified { kind, out } => after == 1 && step::sorted(
                kind,
                map![
                    AMUNMAP_DONE => Step::Return(out),
                    AMUNMAP_COMPLETE => Step::Tail(AmunmapCall::Complete),
                ],
                Step::Abort(AmunmapCall::Abort, EINVAL),
                r,
            ),
        },
{
}

/// Nothing left to do.
pub const UR_DONE: i32 = 0;

/// TLB gathered; zap and free page tables.
pub const UR_APPLY: i32 = 1;

/// The helpers of [`rust_ur_dispatch`].
#[derive(Clone, Copy, PartialEq, Eq, Structural, Debug)]
pub enum UrCall {
    Classify,
    Apply,
    Abort,
}

/// What [`rust_ur_dispatch`] does at an event: the flag goes from `before` to
/// `after`, and `r` is next.
pub open spec fn ur_runs(
    s: u64,
    handled_ptr: u64,
    before: i32,
    after: i32,
    event: Event<()>,
    r: Step<UrCall, ()>,
) -> bool {
    match event {
        Event::Enter => step::begun(
            s != 0 && handled_ptr != 0,
            UrCall::Classify,
            (),
            before,
            after,
            r,
        ),
        Event::Classified { kind, .. } => after == 1 && r == if kind == UR_DONE {
            Step::Return(())
        } else if kind == UR_APPLY {
            Step::Tail(UrCall::Apply)
        } else {
            Step::Abort(UrCall::Abort, ())
        },
    }
}

/// Sequences `unmap_region`: gather the TLB, then zap. An unknown kind finishes a
/// leftover gather.
pub fn rust_ur_dispatch(
    s: u64,
    handled_ptr: u64,
    handled: &mut i32,
    event: Event<()>,
) -> (r: Step<UrCall, ()>)
    ensures
        ur_runs(s, handled_ptr, *old(handled), *final(handled), event, r),
{
    match event {
        Event::Enter => {
            if s == 0 || handled_ptr == 0 {
                return Step::Return(());
            }
            *handled = 0;
            Step::Call(UrCall::Classify)
        },
        Event::Classified { kind, .. } => {
            *handled = 1;
            if kind == UR_DONE {
                Step::Return(())
            } else if kind == UR_APPLY {
                Step::Tail(UrCall::Apply)
            } else {
                Step::Abort(UrCall::Abort, ())
            }
        },
    }
}

/// [`rust_ur_dispatch`] fails at once on a null pointer and on nothing else. Once
/// `Classify` has answered it goes by the kind: `UR_DONE` ends it, `UR_APPLY` runs
/// `Apply`, and any other is refused and cleaned up by `Abort`.
pub proof fn law_ur(
    s: u64,
    handled_ptr: u64,
    before: i32,
    after: i32,
    event: Event<()>,
    r: Step<UrCall, ()>,
)
    requires
        ur_runs(s, handled_ptr, before, after, event, r),
    ensures
        match event {
            Event::Enter => step::enters(
                set![s, handled_ptr],
                before,
                after,
                UrCall::Classify,
                (),
                r,
            ),
            Event::Classified { kind, .. } => after == 1 && step::sorted(
                kind,
                map![
                    UR_DONE => Step::Return(()),
                    UR_APPLY => Step::Tail(UrCall::Apply),
                ],
                Step::Abort(UrCall::Abort, ()),
                r,
            ),
        },
{
}

/// Finished; the helper gave the result.
pub const GATHER_DONE: i32 = 0;

/// Start split or not needed; detach the remaining mappings.
pub const GATHER_LOOP: i32 = 1;

/// The helpers of [`rust_gather_dispatch`].
#[derive(Clone, Copy, PartialEq, Eq, Structural, Debug)]
pub enum GatherCall {
    Classify,
    Loop,
    Abort,
}

/// What [`rust_gather_dispatch`] does at an event: the flag goes from `before` to
/// `after`, and `r` is next.
pub open spec fn gather_runs(
    s: u64,
    handled_ptr: u64,
    before: i32,
    after: i32,
    event: Event<i32>,
    r: Step<GatherCall, i32>,
) -> bool {
    match event {
        Event::Enter => step::begun(
            s != 0 && handled_ptr != 0,
            GatherCall::Classify,
            EINVAL,
            before,
            after,
            r,
        ),
        Event::Classified { kind, out } => after == 1 && r == if kind == GATHER_DONE {
            Step::Return(out)
        } else if kind == GATHER_LOOP {
            Step::Tail(GatherCall::Loop)
        } else {
            Step::Abort(GatherCall::Abort, EINVAL)
        },
    }
}

/// Sequences `vms_gather_munmap_vmas`: split the start, then detach. An unknown kind
/// reattaches what was detached.
pub fn rust_gather_dispatch(
    s: u64,
    handled_ptr: u64,
    handled: &mut i32,
    event: Event<i32>,
) -> (r: Step<GatherCall, i32>)
    ensures
        gather_runs(s, handled_ptr, *old(handled), *final(handled), event, r),
{
    match event {
        Event::Enter => {
            if s == 0 || handled_ptr == 0 {
                return Step::Return(EINVAL);
            }
            *handled = 0;
            Step::Call(GatherCall::Classify)
        },
        Event::Classified { kind, out } => {
            *handled = 1;
            if kind == GATHER_DONE {
                Step::Return(out)
            } else if kind == GATHER_LOOP {
                Step::Tail(GatherCall::Loop)
            } else {
                Step::Abort(GatherCall::Abort, EINVAL)
            }
        },
    }
}

/// [`rust_gather_dispatch`] fails at once on a null pointer and on nothing else. Once
/// `Classify` has answered it goes by the kind: `GATHER_DONE` hands back what the
/// helper gave, `GATHER_LOOP` runs `Loop`, and any other is refused and cleaned up by
/// `Abort`.
pub proof fn law_gather(
    s: u64,
    handled_ptr: u64,
    before: i32,
    after: i32,
    event: Event<i32>,
    r: Step<GatherCall, i32>,
)
    requires
        gather_runs(s, handled_ptr, before, after, event, r),
    ensures
        match event {
            Event::Enter => step::enters(
                set![s, handled_ptr],
                before,
                after,
                GatherCall::Classify,
                EINVAL,
                r,
            ),
            Event::Classified { kind, out } => after == 1 && step::sorted(
                kind,
                map![
                    GATHER_DONE => Step::Return(out),
                    GATHER_LOOP => Step::Tail(GatherCall::Loop),
                ],
                Step::Abort(GatherCall::Abort, EINVAL),
                r,
            ),
        },
{
}

/// Nothing left to do.
pub const VCOMP_DONE: i32 = 0;

/// Counts updated; zap, free, and destroy the detached tree.
pub const VCOMP_UNMAP: i32 = 1;

/// The helpers of [`rust_vcomp_dispatch`].
#[derive(Clone, Copy, PartialEq, Eq, Structural, Debug)]
pub enum VcompCall {
    Classify,
    Unmap,
    Abort,
}

/// What [`rust_vcomp_dispatch`] does at an event: the flag goes from `before` to
/// `after`, and `r` is next.
pub open spec fn vcomp_runs(
    s: u64,
    handled_ptr: u64,
    before: i32,
    after: i32,
    event: Event<()>,
    r: Step<VcompCall, ()>,
) -> bool {
    match event {
        Event::Enter => step::begun(
            s != 0 && handled_ptr != 0,
            VcompCall::Classify,
            (),
            before,
            after,
            r,
        ),
        Event::Classified { kind, .. } => after == 1 && r == if kind == VCOMP_DONE {
            Step::Return(())
        } else if kind == VCOMP_UNMAP {
            Step::Tail(VcompCall::Unmap)
        } else {
            Step::Abort(VcompCall::Abort, ())
        },
    }
}

/// Sequences `vms_complete_munmap_vmas`: update counts, then unmap. An unknown kind
/// completes a leftover unmap.
pub fn rust_vcomp_dispatch(
    s: u64,
    handled_ptr: u64,
    handled: &mut i32,
    event: Event<()>,
) -> (r: Step<VcompCall, ()>)
    ensures
        vcomp_runs(s, handled_ptr, *old(handled), *final(handled), event, r),
{
    match event {
        Event::Enter => {
            if s == 0 || handled_ptr == 0 {
                return Step::Return(());
            }
            *handled = 0;
            Step::Call(VcompCall::Classify)
        },
        Event::Classified { kind, .. } => {
            *handled = 1;
            if kind == VCOMP_DONE {
                Step::Return(())
            } else if kind == VCOMP_UNMAP {
                Step::Tail(VcompCall::Unmap)
            } else {
                Step::Abort(VcompCall::Abort, ())
            }
        },
    }
}

/// [`rust_vcomp_dispatch`] fails at once on a null pointer and on nothing else. Once
/// `Classify` has answered it goes by the kind: `VCOMP_DONE` ends it, `VCOMP_UNMAP`
/// runs `Unmap`, and any other is refused and cleaned up by `Abort`.
pub proof fn law_vcomp(
    s: u64,
    handled_ptr: u64,
    before: i32,
    after: i32,
    event: Event<()>,
    r: Step<VcompCall, ()>,
)
    requires
        vcomp_runs(s, handled_ptr, before, after, event, r),
    ensures
        match event {
            Event::Enter => step::enters(
                set![s, handled_ptr],
                before,
                after,
                VcompCall::Classify,
                (),
                r,
            ),
            Event::Classified { kind, .. } => after == 1 && step::sorted(
                kind,
                map![
                    VCOMP_DONE => Step::Return(()),
                    VCOMP_UNMAP => Step::Tail(VcompCall::Unmap),
                ],
                Step::Abort(VcompCall::Abort, ()),
                r,
            ),
        },
{
}

/// Nothing left to do.
pub const CLEAN_DONE: i32 = 0;

/// There are pages; zap and close.
pub const CLEAN_CLOSE: i32 = 1;

/// The helpers of [`rust_clean_dispatch`].
#[derive(Clone, Copy, PartialEq, Eq, Structural, Debug)]
pub enum CleanCall {
    Classify,
    Close,
    Abort,
}

/// What [`rust_clean_dispatch`] does at an event: the flag goes from `before` to
/// `after`, and `r` is next.
pub open spec fn clean_runs(
    s: u64,
    handled_ptr: u64,
    before: i32,
    after: i32,
    event: Event<()>,
    r: Step<CleanCall, ()>,
) -> bool {
    match event {
        Event::Enter => step::begun(
            s != 0 && handled_ptr != 0,
            CleanCall::Classify,
            (),
            before,
            after,
            r,
        ),
        Event::Classified { kind, .. } => after == 1 && r == if kind == CLEAN_DONE {
            Step::Return(())
        } else if kind == CLEAN_CLOSE {
            Step::Tail(CleanCall::Close)
        } else {
            Step::Abort(CleanCall::Abort, ())
        },
    }
}

/// Sequences `vms_clean_up_area`: check for pages, then zap and close.
pub fn rust_clean_dispatch(
    s: u64,
    handled_ptr: u64,
    handled: &mut i32,
    event: Event<()>,
) -> (r: Step<CleanCall, ()>)
    ensures
        clean_runs(s, handled_ptr, *old(handled), *final(handled), event, r),
{
    match event {
        Event::Enter => {
            if s == 0 || handled_ptr == 0 {
                return Step::Return(());
            }
            *handled = 0;
            Step::Call(CleanCall::Classify)
        },
        Event::Classified { kind, .. } => {
            *handled = 1;
            if kind == CLEAN_DONE {
                Step::Return(())
            } else if kind == CLEAN_CLOSE {
                Step::Tail(CleanCall::Close)
            } else {
                Step::Abort(CleanCall::Abort, ())
            }
        },
    }
}

/// [`rust_clean_dispatch`] fails at once on a null pointer and on nothing else. Once
/// `Classify` has answered it goes by the kind: `CLEAN_DONE` ends it, `CLEAN_CLOSE`
/// runs `Close`, and any other is refused and cleaned up by `Abort`.
pub proof fn law_clean(
    s: u64,
    handled_ptr: u64,
    before: i32,
    after: i32,
    event: Event<()>,
    r: Step<CleanCall, ()>,
)
    requires
        clean_runs(s, handled_ptr, before, after, event, r),
    ensures
        match event {
            Event::Enter => step::enters(
                set![s, handled_ptr],
                before,
                after,
                CleanCall::Classify,
                (),
                r,
            ),
            Event::Classified { kind, .. } => after == 1 && step::sorted(
                kind,
                map![
                    CLEAN_DONE => Step::Return(()),
                    CLEAN_CLOSE => Step::Tail(CleanCall::Close),
                ],
                Step::Abort(CleanCall::Abort, ()),
                r,
            ),
        },
{
}

/// Nothing left to do.
pub const VABORT_DONE: i32 = 0;

/// Entries still present; reattach.
pub const VABORT_REATTACH: i32 = 1;

/// Entries already cleared; leave a gap and complete.
pub const VABORT_GAP: i32 = 2;

/// The helpers of [`rust_vabort_dispatch`].
#[derive(Clone, Copy, PartialEq, Eq, Structural, Debug)]
pub enum VabortCall {
    Classify,
    Reattach,
    Gap,
    Abort,
}

/// What [`rust_vabort_dispatch`] does at an event: the flag goes from `before` to
/// `after`, and `r` is next.
pub open spec fn vabort_runs(
    s: u64,
    handled_ptr: u64,
    before: i32,
    after: i32,
    event: Event<()>,
    r: Step<VabortCall, ()>,
) -> bool {
    match event {
        Event::Enter => step::begun(
            s != 0 && handled_ptr != 0,
            VabortCall::Classify,
            (),
            before,
            after,
            r,
        ),
        Event::Classified { kind, .. } => after == 1 && r == if kind == VABORT_DONE {
            Step::Return(())
        } else if kind == VABORT_REATTACH {
            Step::Tail(VabortCall::Reattach)
        } else if kind == VABORT_GAP {
            Step::Tail(VabortCall::Gap)
        } else {
            Step::Abort(VabortCall::Abort, ())
        },
    }
}

/// Sequences `vms_abort_munmap_vmas`: reattach, or leave a gap.
pub fn rust_vabort_dispatch(
    s: u64,
    handled_ptr: u64,
    handled: &mut i32,
    event: Event<()>,
) -> (r: Step<VabortCall, ()>)
    ensures
        vabort_runs(s, handled_ptr, *old(handled), *final(handled), event, r),
{
    match event {
        Event::Enter => {
            if s == 0 || handled_ptr == 0 {
                return Step::Return(());
            }
            *handled = 0;
            Step::Call(VabortCall::Classify)
        },
        Event::Classified { kind, .. } => {
            *handled = 1;
            if kind == VABORT_DONE {
                Step::Return(())
            } else if kind == VABORT_REATTACH {
                Step::Tail(VabortCall::Reattach)
            } else if kind == VABORT_GAP {
                Step::Tail(VabortCall::Gap)
            } else {
                Step::Abort(VabortCall::Abort, ())
            }
        },
    }
}

/// [`rust_vabort_dispatch`] fails at once on a null pointer and on nothing else. Once
/// `Classify` has answered it goes by the kind: `VABORT_DONE` ends it,
/// `VABORT_REATTACH` runs `Reattach`, `VABORT_GAP` runs `Gap`, and any other is refused
/// and cleaned up by `Abort`.
pub proof fn law_vabort(
    s: u64,
    handled_ptr: u64,
    before: i32,
    after: i32,
    event: Event<()>,
    r: Step<VabortCall, ()>,
)
    requires
        vabort_runs(s, handled_ptr, before, after, event, r),
    ensures
        match event {
            Event::Enter => step::enters(
                set![s, handled_ptr],
                before,
                after,
                VabortCall::Classify,
                (),
                r,
            ),
            Event::Classified { kind, .. } => after == 1 && step::sorted(
                kind,
                map![
                    VABORT_DONE => Step::Return(()),
                    VABORT_REATTACH => Step::Tail(VabortCall::Reattach),
                    VABORT_GAP => Step::Tail(VabortCall::Gap),
                ],
                Step::Abort(VabortCall::Abort, ()),
                r,
            ),
        },
{
}

/// Finished; the helper gave the result.
pub const VMUNMAP_DONE: i32 = 0;

/// Write lock held; unmap the range.
pub const VMUNMAP_APPLY: i32 = 1;

/// The helpers of [`rust_vmunmap_dispatch`].
#[derive(Clone, Copy, PartialEq, Eq, Structural, Debug)]
pub enum VmunmapCall {
    Classify,
    Apply,
    Abort,
}

/// What [`rust_vmunmap_dispatch`] does at an event: the flag goes from `before` to
/// `after`, and `r` is next.
pub open spec fn vmunmap_runs(
    s: u64,
    handled_ptr: u64,
    before: i32,
    after: i32,
    event: Event<i32>,
    r: Step<VmunmapCall, i32>,
) -> bool {
    match event {
        Event::Enter => step::begun(
            s != 0 && handled_ptr != 0,
            VmunmapCall::Classify,
            EINVAL,
            before,
            after,
            r,
        ),
        Event::Classified { kind, out } => after == 1 && r == if kind == VMUNMAP_DONE {
            Step::Return(out)
        } else if kind == VMUNMAP_APPLY {
            Step::Tail(VmunmapCall::Apply)
        } else {
            Step::Abort(VmunmapCall::Abort, EINVAL)
        },
    }
}

/// Sequences `__vm_munmap`: take the lock, then unmap. An unknown kind drops a
/// leftover lock.
pub fn rust_vmunmap_dispatch(
    s: u64,
    handled_ptr: u64,
    handled: &mut i32,
    event: Event<i32>,
) -> (r: Step<VmunmapCall, i32>)
    ensures
        vmunmap_runs(s, handled_ptr, *old(handled), *final(handled), event, r),
{
    match event {
        Event::Enter => {
            if s == 0 || handled_ptr == 0 {
                return Step::Return(EINVAL);
            }
            *handled = 0;
            Step::Call(VmunmapCall::Classify)
        },
        Event::Classified { kind, out } => {
            *handled = 1;
            if kind == VMUNMAP_DONE {
                Step::Return(out)
            } else if kind == VMUNMAP_APPLY {
                Step::Tail(VmunmapCall::Apply)
            } else {
                Step::Abort(VmunmapCall::Abort, EINVAL)
            }
        },
    }
}

/// [`rust_vmunmap_dispatch`] fails at once on a null pointer and on nothing else. Once
/// `Classify` has answered it goes by the kind: `VMUNMAP_DONE` hands back what the
/// helper gave, `VMUNMAP_APPLY` runs `Apply`, and any other is refused and cleaned up
/// by `Abort`.
pub proof fn law_vmunmap(
    s: u64,
    handled_ptr: u64,
    before: i32,
    after: i32,
    event: Event<i32>,
    r: Step<VmunmapCall, i32>,
)
    requires
        vmunmap_runs(s, handled_ptr, before, after, event, r),
    ensures
        match event {
            Event::Enter => step::enters(
                set![s, handled_ptr],
                before,
                after,
                VmunmapCall::Classify,
                EINVAL,
                r,
            ),
            Event::Classified { kind, out } => after == 1 && step::sorted(
                kind,
                map![
                    VMUNMAP_DONE => Step::Return(out),
                    VMUNMAP_APPLY => Step::Tail(VmunmapCall::Apply),
                ],
                Step::Abort(VmunmapCall::Abort, EINVAL),
                r,
            ),
        },
{
}

/// Nothing left to do.
pub const UBADD_DONE: i32 = 0;

/// Different file or full batch; flush then add.
pub const UBADD_PROCESS: i32 = 1;

/// Same file and room; append to the batch.
pub const UBADD_ADD: i32 = 2;

/// The helpers of [`rust_ubadd_dispatch`].
#[derive(Clone, Copy, PartialEq, Eq, Structural, Debug)]
pub enum UbaddCall {
    Classify,
    Process,
    Add,
    Abort,
}

/// What happened since the last step of [`rust_ubadd_dispatch`].
#[derive(Clone, Copy, PartialEq, Eq, Structural, Debug)]
pub enum UbaddEvent {
    Enter,
    Classified { kind: i32 },
    /// The batch was flushed.
    Processed,
}

/// What [`rust_ubadd_dispatch`] does at an event: the flag goes from `before` to
/// `after`, and `r` is next.
pub open spec fn ubadd_runs(
    s: u64,
    handled_ptr: u64,
    before: i32,
    after: i32,
    event: UbaddEvent,
    r: Step<UbaddCall, ()>,
) -> bool {
    match event {
        UbaddEvent::Enter => step::begun(
            s != 0 && handled_ptr != 0,
            UbaddCall::Classify,
            (),
            before,
            after,
            r,
        ),
        UbaddEvent::Classified { kind } => after == 1 && r == if kind == UBADD_DONE {
            Step::Return(())
        } else if kind == UBADD_PROCESS {
            Step::Call(UbaddCall::Process)
        } else if kind == UBADD_ADD {
            Step::Tail(UbaddCall::Add)
        } else {
            Step::Abort(UbaddCall::Abort, ())
        },
        UbaddEvent::Processed => after == before && r == Step::<
            UbaddCall,
            (),
        >::Tail(UbaddCall::Add),
    }
}

/// Sequences `unlink_file_vma_batch_add`: flush a batch that cannot take the
/// mapping, then add it.
pub fn rust_ubadd_dispatch(s: u64, handled_ptr: u64, handled: &mut i32, event: UbaddEvent) -> (r:
    Step<UbaddCall, ()>)
    ensures
        ubadd_runs(s, handled_ptr, *old(handled), *final(handled), event, r),
{
    match event {
        UbaddEvent::Enter => {
            if s == 0 || handled_ptr == 0 {
                return Step::Return(());
            }
            *handled = 0;
            Step::Call(UbaddCall::Classify)
        },
        UbaddEvent::Classified { kind } => {
            *handled = 1;
            if kind == UBADD_DONE {
                Step::Return(())
            } else if kind == UBADD_PROCESS {
                Step::Call(UbaddCall::Process)
            } else if kind == UBADD_ADD {
                Step::Tail(UbaddCall::Add)
            } else {
                Step::Abort(UbaddCall::Abort, ())
            }
        },
        UbaddEvent::Processed => Step::Tail(UbaddCall::Add),
    }
}

/// [`rust_ubadd_dispatch`] fails at once on a null pointer and on nothing else. A
/// mapping is added at once or after the batch was flushed, and never without a flush
/// that was asked for.
pub proof fn law_ubadd(
    s: u64,
    handled_ptr: u64,
    before: i32,
    after: i32,
    event: UbaddEvent,
    r: Step<UbaddCall, ()>,
)
    requires
        ubadd_runs(s, handled_ptr, before, after, event, r),
    ensures
        match event {
            UbaddEvent::Enter => step::enters(
                set![s, handled_ptr],
                before,
                after,
                UbaddCall::Classify,
                (),
                r,
            ),
            UbaddEvent::Classified { kind } => after == 1 && step::sorted(
                kind,
                map![
                    UBADD_DONE => Step::Return(()),
                    UBADD_PROCESS => Step::Call(UbaddCall::Process),
                    UBADD_ADD => Step::Tail(UbaddCall::Add),
                ],
                Step::Abort(UbaddCall::Abort, ()),
                r,
            ),
            UbaddEvent::Processed => {
                &&& after == before
                &&& r matches Step::Tail(call) && call == UbaddCall::Add
            },
        },
{
}

/// No mapping.
pub const EMMAP_EMPTY: i32 = 0;

/// At least one mapping; unmap then destroy.
pub const EMMAP_UNMAP: i32 = 1;

/// The helpers of [`rust_emmap_dispatch`].
#[derive(Clone, Copy, PartialEq, Eq, Structural, Debug)]
pub enum EmmapCall {
    Classify,
    Empty,
    Unmap,
    Abort,
}

/// What [`rust_emmap_dispatch`] does at an event: the flag goes from `before` to
/// `after`, and `r` is next.
pub open spec fn emmap_runs(
    s: u64,
    handled_ptr: u64,
    before: i32,
    after: i32,
    event: Event<()>,
    r: Step<EmmapCall, ()>,
) -> bool {
    match event {
        Event::Enter => step::begun(
            s != 0 && handled_ptr != 0,
            EmmapCall::Classify,
            (),
            before,
            after,
            r,
        ),
        Event::Classified { kind, .. } => after == 1 && r == if kind == EMMAP_EMPTY {
            Step::Tail(EmmapCall::Empty)
        } else if kind == EMMAP_UNMAP {
            Step::Tail(EmmapCall::Unmap)
        } else {
            Step::Abort(EmmapCall::Abort, ())
        },
    }
}

/// Sequences `exit_mmap`: finish an empty address space, or unmap it. An unknown kind
/// drops leftover locks and a gathered TLB.
pub fn rust_emmap_dispatch(
    s: u64,
    handled_ptr: u64,
    handled: &mut i32,
    event: Event<()>,
) -> (r: Step<EmmapCall, ()>)
    ensures
        emmap_runs(s, handled_ptr, *old(handled), *final(handled), event, r),
{
    match event {
        Event::Enter => {
            if s == 0 || handled_ptr == 0 {
                return Step::Return(());
            }
            *handled = 0;
            Step::Call(EmmapCall::Classify)
        },
        Event::Classified { kind, .. } => {
            *handled = 1;
            if kind == EMMAP_EMPTY {
                Step::Tail(EmmapCall::Empty)
            } else if kind == EMMAP_UNMAP {
                Step::Tail(EmmapCall::Unmap)
            } else {
                Step::Abort(EmmapCall::Abort, ())
            }
        },
    }
}

/// [`rust_emmap_dispatch`] fails at once on a null pointer and on nothing else. Once
/// `Classify` has answered it goes by the kind: `EMMAP_EMPTY` runs `Empty`,
/// `EMMAP_UNMAP` runs `Unmap`, and any other is refused and cleaned up by `Abort`.
pub proof fn law_emmap(
    s: u64,
    handled_ptr: u64,
    before: i32,
    after: i32,
    event: Event<()>,
    r: Step<EmmapCall, ()>,
)
    requires
        emmap_runs(s, handled_ptr, before, after, event, r),
    ensures
        match event {
            Event::Enter => step::enters(
                set![s, handled_ptr],
                before,
                after,
                EmmapCall::Classify,
                (),
                r,
            ),
            Event::Classified { kind, .. } => after == 1 && step::sorted(
                kind,
                map![
                    EMMAP_EMPTY => Step::Tail(EmmapCall::Empty),
                    EMMAP_UNMAP => Step::Tail(EmmapCall::Unmap),
                ],
                Step::Abort(EmmapCall::Abort, ()),
                r,
            ),
        },
{
}

/// Iterator set up; unmap.
pub const DMUNMAP_APPLY: i32 = 0;

/// The helpers of [`rust_dmunmap_dispatch`].
#[derive(Clone, Copy, PartialEq, Eq, Structural, Debug)]
pub enum DmunmapCall {
    Classify,
    Apply,
    Abort,
}

/// What [`rust_dmunmap_dispatch`] does at an event: the flag goes from `before` to
/// `after`, and `r` is next.
pub open spec fn dmunmap_runs(
    s: u64,
    handled_ptr: u64,
    before: i32,
    after: i32,
    event: Event<()>,
    r: Step<DmunmapCall, i32>,
) -> bool {
    match event {
        Event::Enter => step::begun(
            s != 0 && handled_ptr != 0,
            DmunmapCall::Classify,
            EINVAL,
            before,
            after,
            r,
        ),
        Event::Classified { kind, .. } => after == 1 && r == if kind == DMUNMAP_APPLY {
            Step::Tail(DmunmapCall::Apply)
        } else {
            Step::Abort(DmunmapCall::Abort, EINVAL)
        },
    }
}

/// Sequences `do_munmap`: set up the iterator, then unmap.
pub fn rust_dmunmap_dispatch(
    s: u64,
    handled_ptr: u64,
    handled: &mut i32,
    event: Event<()>,
) -> (r: Step<DmunmapCall, i32>)
    ensures
        dmunmap_runs(s, handled_ptr, *old(handled), *final(handled), event, r),
{
    match event {
        Event::Enter => {
            if s == 0 || handled_ptr == 0 {
                return Step::Return(EINVAL);
            }
            *handled = 0;
            Step::Call(DmunmapCall::Classify)
        },
        Event::Classified { kind, .. } => {
            *handled = 1;
            if kind == DMUNMAP_APPLY {
                Step::Tail(DmunmapCall::Apply)
            } else {
                Step::Abort(DmunmapCall::Abort, EINVAL)
            }
        },
    }
}

/// [`rust_dmunmap_dispatch`] fails at once on a null pointer and on nothing else. Once
/// `Classify` has answered it goes by the kind: `DMUNMAP_APPLY` runs `Apply`, and any
/// other is refused and cleaned up by `Abort`.
pub proof fn law_dmunmap(
    s: u64,
    handled_ptr: u64,
    before: i32,
    after: i32,
    event: Event<()>,
    r: Step<DmunmapCall, i32>,
)
    requires
        dmunmap_runs(s, handled_ptr, before, after, event, r),
    ensures
        match event {
            Event::Enter => step::enters(
                set![s, handled_ptr],
                before,
                after,
                DmunmapCall::Classify,
                EINVAL,
                r,
            ),
            Event::Classified { kind, .. } => after == 1 && step::sorted(
                kind,
                map![
                    DMUNMAP_APPLY => Step::Tail(DmunmapCall::Apply),
                ],
                Step::Abort(DmunmapCall::Abort, EINVAL),
                r,
            ),
        },
{
}

} // verus!
