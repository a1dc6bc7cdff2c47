//! `mlock` and `munlock` sequencers.
//!
//! Walks over page-table entries are helpers.

use vstd::prelude::*;
use crate::error::EINVAL;
use crate::mm::step;
use crate::mm::step::{Event, Step};

verus! {

/// Finished; the helper gave the result.
pub const MLOCK_DONE: i32 = 0;

/// Capability and alignment passed; lock, apply flags, unlock.
pub const MLOCK_CONT: i32 = 1;

/// Flags applied; populate the range.
pub const MLOCK_POPULATE: i32 = 2;

/// The helpers of [`rust_mlock_dispatch`].
#[derive(Clone, Copy, PartialEq, Eq, Structural, Debug)]
pub enum MlockCall {
    Prepare,
    Apply { start: u64, len: u64 },
    Populate { start: u64, len: u64 },
}

/// What happened since the last step of [`rust_mlock_dispatch`].
#[derive(Clone, Copy, PartialEq, Eq, Structural, Debug)]
pub enum MlockEvent {
    Enter,
    /// Prepared, which may have changed the range to this one.
    Prepared { kind: i32, out: i32, start: u64, len: u64 },
    /// Applied to the range that was asked for.
    Applied { kind: i32, out: i32, start: u64, len: u64 },
}

/// What follows an event of [`rust_mlock_dispatch`] once it is entered.
pub open spec fn mlock_next(event: MlockEvent) -> Step<MlockCall, i32> {
    match event {
        MlockEvent::Enter => Step::Call(MlockCall::Prepare),
        MlockEvent::Prepared { kind, out, start, len } => if kind == MLOCK_DONE {
            Step::Return(out)
        } else if kind == MLOCK_CONT {
            Step::Call(MlockCall::Apply { start, len })
        } else {
            Step::Reject(EINVAL)
        },
        MlockEvent::Applied { kind, out, start, len } => if kind == MLOCK_DONE {
            Step::Return(out)
        } else if kind == MLOCK_POPULATE {
            Step::Tail(MlockCall::Populate { start, len })
        } else {
            Step::Reject(EINVAL)
        },
    }
}

/// Whether an event of [`rust_mlock_dispatch`] is the outcome of a helper.
pub open spec fn mlock_answers(call: MlockCall, event: MlockEvent) -> bool {
    match call {
        MlockCall::Prepare => event is Prepared,
        MlockCall::Apply { start, len } => event matches MlockEvent::Applied {
            start: a,
            len: n,
            ..
        } && a == start && n == len,
        MlockCall::Populate { .. } => false,
    }
}

/// What [`rust_mlock_dispatch`] does at an event: the flag goes from `before` to
/// `after`, and `r` is next.
pub open spec fn mlock_runs(
    start_ptr: u64,
    len_ptr: u64,
    flags_ptr: u64,
    handled_ptr: u64,
    before: i32,
    after: i32,
    event: MlockEvent,
    r: Step<MlockCall, i32>,
) -> bool {
    match event {
        MlockEvent::Enter => step::begun(
            start_ptr != 0 && len_ptr != 0 && flags_ptr != 0 && handled_ptr != 0,
            MlockCall::Prepare,
            EINVAL,
            before,
            after,
            r,
        ),
        MlockEvent::Prepared { .. } => after == 1 && r == mlock_next(event),
        MlockEvent::Applied { .. } => after == before && r == mlock_next(event),
    }
}

/// Sequences `do_mlock`: check, apply flags under the lock, then populate. The range is
/// the one that preparing left.
pub fn rust_mlock_dispatch(
    start_ptr: u64,
    len_ptr: u64,
    flags_ptr: u64,
    handled_ptr: u64,
    handled: &mut i32,
    event: MlockEvent,
) -> (r: Step<MlockCall, i32>)
    ensures
        mlock_runs(
            start_ptr,
            len_ptr,
            flags_ptr,
            handled_ptr,
            *old(handled),
            *final(handled),
            event,
            r,
        ),
{
    match event {
        MlockEvent::Enter => {
            if start_ptr == 0 || len_ptr == 0 || flags_ptr == 0 || handled_ptr == 0 {
                return Step::Return(EINVAL);
            }
            *handled = 0;
            Step::Call(MlockCall::Prepare)
        },
        MlockEvent::Prepared { kind, out, start, len } => {
            *handled = 1;
            if kind == MLOCK_DONE {
                Step::Return(out)
            } else if kind == MLOCK_CONT {
                Step::Call(MlockCall::Apply { start, len })
            } else {
                Step::Reject(EINVAL)
            }
        },
        MlockEvent::Applied { kind, out, start, len } => {
            if kind == MLOCK_DONE {
                Step::Return(out)
            } else if kind == MLOCK_POPULATE {
                Step::Tail(MlockCall::Populate { start, len })
            } else {
                Step::Reject(EINVAL)
            }
        },
    }
}

/// [`rust_mlock_dispatch`] fails at once on a null pointer and on nothing else. Every
/// answer that is finished is handed back as it came; flags are applied only after the
/// checks, and populating comes only after that.
pub proof fn law_mlock(
    start_ptr: u64,
    len_ptr: u64,
    flags_ptr: u64,
    handled_ptr: u64,
    before: i32,
    after: i32,
    event: MlockEvent,
    r: Step<MlockCall, i32>,
)
    requires
        mlock_runs(start_ptr, len_ptr, flags_ptr, handled_ptr, before, after, event, r),
    ensures
        match event {
            MlockEvent::Enter => step::enters(
                set![start_ptr, len_ptr, flags_ptr, handled_ptr],
                before,
                after,
                MlockCall::Prepare,
                EINVAL,
                r,
            ),
            MlockEvent::Prepared { kind, out, start, len } => after == 1 && step::sorted(
                kind,
                map![
                    MLOCK_DONE => Step::Return(out),
                    MLOCK_CONT => Step::Call(MlockCall::Apply { start, len }),
                ],
                Step::Reject(EINVAL),
                r,
            ),
            MlockEvent::Applied { kind, out, start, len } => after == before && step::sorted(
                kind,
                map![
                    MLOCK_DONE => Step::Return(out),
                    MLOCK_POPULATE => Step::Tail(MlockCall::Populate { start, len }),
                ],
                Step::Reject(EINVAL),
                r,
            ),
        },
{
}

/// Applying and populating get the range that preparing left.
pub proof fn law_mlock_range(start: u64, len: u64, out: i32, applied: MlockEvent)
    requires
        mlock_answers(MlockCall::Apply { start, len }, applied),
    ensures
        mlock_next(MlockEvent::Prepared { kind: MLOCK_CONT, out, start, len }) == Step::<
            MlockCall,
            i32,
        >::Call(MlockCall::Apply { start, len }),
        applied->Applied_kind == MLOCK_POPULATE ==> mlock_next(applied) == Step::<
            MlockCall,
            i32,
        >::Tail(MlockCall::Populate { start, len }),
{
}

/// Finished; the helper gave the result.
pub const MLFIX_DONE: i32 = 0;

/// Filter passed; split or merge.
pub const MLFIX_MODIFY: i32 = 1;

/// Mapping updated; account locked pages and walk.
pub const MLFIX_PAGES: i32 = 2;

/// The helpers of [`rust_mlfix_dispatch`].
#[derive(Clone, Copy, PartialEq, Eq, Structural, Debug)]
pub enum MlfixCall {
    Prepare,
    Modify,
    Pages,
}

/// What happened since the last step of [`rust_mlfix_dispatch`].
#[derive(Clone, Copy, PartialEq, Eq, Structural, Debug)]
pub enum MlfixEvent {
    Enter,
    Prepared { kind: i32, out: i32 },
    Modified { kind: i32, out: i32 },
}

/// What [`rust_mlfix_dispatch`] does at an event: the flag goes from `before` to
/// `after`, and `r` is next.
pub open spec fn mlfix_runs(
    s: u64,
    handled_ptr: u64,
    before: i32,
    after: i32,
    event: MlfixEvent,
    r: Step<MlfixCall, i32>,
) -> bool {
    match event {
        MlfixEvent::Enter => step::begun(
            s != 0 && handled_ptr != 0,
            MlfixCall::Prepare,
            EINVAL,
            before,
            after,
            r,
        ),
        MlfixEvent::Prepared { kind, out } => after == 1 && r == if kind == MLFIX_DONE {
            Step::Return(out)
        } else if kind == MLFIX_MODIFY {
            Step::Call(MlfixCall::Modify)
        } else {
            Step::Reject(EINVAL)
        },
        MlfixEvent::Modified { kind, out } => after == before && r == if kind
            == MLFIX_DONE {
            Step::Return(out)
        } else if kind == MLFIX_PAGES {
            Step::Tail(MlfixCall::Pages)
        } else {
            Step::Reject(EINVAL)
        },
    }
}

/// Sequences `mlock_fixup`: filter special mappings, split or merge, then account and
/// walk.
pub fn rust_mlfix_dispatch(
    s: u64,
    handled_ptr: u64,
    handled: &mut i32,
    event: MlfixEvent,
) -> (r: Step<MlfixCall, i32>)
    ensures
        mlfix_runs(s, handled_ptr, *old(handled), *final(handled), event, r),
{
    match event {
        MlfixEvent::Enter => {
            if s == 0 || handled_ptr == 0 {
                return Step::Return(EINVAL);
            }
            *handled = 0;
            Step::Call(MlfixCall::Prepare)
        },
        MlfixEvent::Prepared { kind, out } => {
            *handled = 1;
            if kind == MLFIX_DONE {
                Step::Return(out)
            } else if kind == MLFIX_MODIFY {
                Step::Call(MlfixCall::Modify)
            } else {
                Step::Reject(EINVAL)
            }
        },
        MlfixEvent::Modified { kind, out } => {
            if kind == MLFIX_DONE {
                Step::Return(out)
            } else if kind == MLFIX_PAGES {
                Step::Tail(MlfixCall::Pages)
            } else {
                Step::Reject(EINVAL)
            }
        },
    }
}

/// [`rust_mlfix_dispatch`] fails at once on a null pointer and on nothing else. Every
/// answer that is finished is handed back as it came; a mapping is modified only once
/// it passed the filter, and pages are walked only once it is modified.
pub proof fn law_mlfix(
    s: u64,
    handled_ptr: u64,
    before: i32,
    after: i32,
    event: MlfixEvent,
    r: Step<MlfixCall, i32>,
)
    requires
        mlfix_runs(s, handled_ptr, before, after, event, r),
    ensures
        match event {
            MlfixEvent::Enter => step::enters(
                set![s, handled_ptr],
                before,
                after,
                MlfixCall::Prepare,
                EINVAL,
                r,
            ),
            MlfixEvent::Prepared { kind, out } => after == 1 && step::sorted(
                kind,
                map![
                    MLFIX_DONE => Step::Return(out),
                    MLFIX_MODIFY => Step::Call(MlfixCall::Modify),
                ],
                Step::Reject(EINVAL),
                r,
            ),
            MlfixEvent::Modified { kind, out } => after == before && step::sorted(
                kind,
                map![
                    MLFIX_DONE => Step::Return(out),
                    MLFIX_PAGES => Step::Tail(MlfixCall::Pages),
                ],
                Step::Reject(EINVAL),
                r,
            ),
        },
{
}

/// Finished; the helper gave the result.
pub const MUNLOCK_DONE: i32 = 0;

/// Range aligned; lock and apply.
pub const MUNLOCK_APPLY: i32 = 1;

/// What preparing gives [`rust_munlock_dispatch`] besides its kind: it may have changed
/// the range to this one.
#[derive(Clone, Copy, PartialEq, Eq, Structural, Debug)]
pub struct MunlockOut {
    pub out: i32,
    pub start: u64,
    pub len: u64,
}

/// The helpers of [`rust_munlock_dispatch`].
#[derive(Clone, Copy, PartialEq, Eq, Structural, Debug)]
pub enum MunlockCall {
    Prepare,
    Apply { start: u64, len: u64 },
}

/// What [`rust_munlock_dispatch`] does at an event: the flag goes from `before` to
/// `after`, and `r` is next.
pub open spec fn munlock_runs(
    start_ptr: u64,
    len_ptr: u64,
    handled_ptr: u64,
    before: i32,
    after: i32,
    event: Event<MunlockOut>,
    r: Step<MunlockCall, i32>,
) -> bool {
    match event {
        Event::Enter => step::begun(
            start_ptr != 0 && len_ptr != 0 && handled_ptr != 0,
            MunlockCall::Prepare,
            EINVAL,
            before,
            after,
            r,
        ),
        Event::Classified { kind, out } => after == 1 && r == if kind
            == MUNLOCK_DONE {
            Step::Return(out.out)
        } else if kind == MUNLOCK_APPLY {
            Step::Tail(MunlockCall::Apply { start: out.start, len: out.len })
        } else {
            Step::Reject(EINVAL)
        },
    }
}

/// Sequences `munlock`: align the range, then apply to it.
pub fn rust_munlock_dispatch(
    start_ptr: u64,
    len_ptr: u64,
    handled_ptr: u64,
    handled: &mut i32,
    event: Event<MunlockOut>,
) -> (r: Step<MunlockCall, i32>)
    ensures
        munlock_runs(start_ptr, len_ptr, handled_ptr, *old(handled), *final(handled), event, r),
{
    match event {
        Event::Enter => {
            if start_ptr == 0 || len_ptr == 0 || handled_ptr == 0 {
                return Step::Return(EINVAL);
            }
            *handled = 0;
            Step::Call(MunlockCall::Prepare)
        },
        Event::Classified { kind, out } => {
            *handled = 1;
            if kind == MUNLOCK_DONE {
                Step::Return(out.out)
            } else if kind == MUNLOCK_APPLY {
                Step::Tail(MunlockCall::Apply { start: out.start, len: out.len })
            } else {
                Step::Reject(EINVAL)
            }
        },
    }
}

/// [`rust_munlock_dispatch`] fails at once on a null pointer and on nothing else. Once
/// `Prepare` has answered it goes by the kind: `MUNLOCK_DONE` hands back what the
/// helper gave, `MUNLOCK_APPLY` runs `Apply`, and any other is refused.
pub proof fn law_munlock(
    start_ptr: u64,
    len_ptr: u64,
    handled_ptr: u64,
    before: i32,
    after: i32,
    event: Event<MunlockOut>,
    r: Step<MunlockCall, i32>,
)
    requires
        munlock_runs(start_ptr, len_ptr, handled_ptr, before, after, event, r),
    ensures
        match event {
            Event::Enter => step::enters(
                set![start_ptr, len_ptr, handled_ptr],
                before,
                after,
                MunlockCall::Prepare,
                EINVAL,
                r,
            ),
            Event::Classified { kind, out } => after == 1 && step::sorted(
                kind,
                map![
                    MUNLOCK_DONE => Step::Return(out.out),
                    MUNLOCK_APPLY => Step::Tail(
                        MunlockCall::Apply { start: out.start, len: out.len },
                    ),
                ],
                Step::Reject(EINVAL),
                r,
            ),
        },
{
}

/// Finished; the helper gave the result.
pub const MLOCKALL_DONE: i32 = 0;

/// Flags and capability passed; lock and apply.
pub const MLOCKALL_CONT: i32 = 1;

/// Applied to current mappings; populate the address space.
pub const MLOCKALL_POPULATE: i32 = 2;

/// The helpers of [`rust_mlockall_dispatch`].
#[derive(Clone, Copy, PartialEq, Eq, Structural, Debug)]
pub enum MlockallCall {
    Prepare,
    Apply,
    Populate,
}

/// What happened since the last step of [`rust_mlockall_dispatch`].
#[derive(Clone, Copy, PartialEq, Eq, Structural, Debug)]
pub enum MlockallEvent {
    Enter,
    Prepared { kind: i32, out: i32 },
    Applied { kind: i32, out: i32 },
}

/// What [`rust_mlockall_dispatch`] does at an event: the flag goes from `before` to
/// `after`, and `r` is next.
pub open spec fn mlockall_runs(
    handled_ptr: u64,
    before: i32,
    after: i32,
    event: MlockallEvent,
    r: Step<MlockallCall, i32>,
) -> bool {
    match event {
        MlockallEvent::Enter => step::begun(
            handled_ptr != 0,
            MlockallCall::Prepare,
            EINVAL,
            before,
            after,
            r,
        ),
        MlockallEvent::Prepared { kind, out } => after == 1 && r == if kind == MLOCKALL_DONE {
            Step::Return(out)
        } else if kind == MLOCKALL_CONT {
            Step::Call(MlockallCall::Apply)
        } else {
            Step::Reject(EINVAL)
        },
        MlockallEvent::Applied { kind, out } => after == before && r == if kind
            == MLOCKALL_DONE {
            Step::Return(out)
        } else if kind == MLOCKALL_POPULATE {
            Step::Finish(MlockallCall::Populate, 0)
        } else {
            Step::Reject(EINVAL)
        },
    }
}

/// Sequences `mlockall`: check, apply under the lock, then populate.
pub fn rust_mlockall_dispatch(
    handled_ptr: u64,
    handled: &mut i32,
    event: MlockallEvent,
) -> (r: Step<MlockallCall, i32>)
    ensures
        mlockall_runs(handled_ptr, *old(handled), *final(handled), event, r),
{
    match event {
        MlockallEvent::Enter => {
            if handled_ptr == 0 {
                return Step::Return(EINVAL);
            }
            *handled = 0;
            Step::Call(MlockallCall::Prepare)
        },
        MlockallEvent::Prepared { kind, out } => {
            *handled = 1;
            if kind == MLOCKALL_DONE {
                Step::Return(out)
            } else if kind == MLOCKALL_CONT {
                Step::Call(MlockallCall::Apply)
            } else {
                Step::Reject(EINVAL)
            }
        },
        MlockallEvent::Applied { kind, out } => {
            if kind == MLOCKALL_DONE {
                Step::Return(out)
            } else if kind == MLOCKALL_POPULATE {
                Step::Finish(MlockallCall::Populate, 0)
            } else {
                Step::Reject(EINVAL)
            }
        },
    }
}

/// [`rust_mlockall_dispatch`] fails at once on a null pointer and on nothing else.
/// Every answer that is finished is handed back as it came; populating comes last and
/// does not change the result, which is then 0.
pub proof fn law_mlockall(
    handled_ptr: u64,
    before: i32,
    after: i32,
    event: MlockallEvent,
    r: Step<MlockallCall, i32>,
)
    requires
        mlockall_runs(handled_ptr, before, after, event, r),
    ensures
        match event {
            MlockallEvent::Enter => step::enters(
                set![handled_ptr],
                before,
                after,
                MlockallCall::Prepare,
                EINVAL,
                r,
            ),
            MlockallEvent::Prepared { kind, out } => after == 1 && step::sorted(
                kind,
                map![
                    MLOCKALL_DONE => Step::Return(out),
                    MLOCKALL_CONT => Step::Call(MlockallCall::Apply),
                ],
                Step::Reject(EINVAL),
                r,
            ),
            MlockallEvent::Applied { kind, out } => after == before && step::sorted(
                kind,
                map![
                    MLOCKALL_DONE => Step::Return(out),
                    MLOCKALL_POPULATE => Step::Finish(MlockallCall::Populate, 0),
                ],
                Step::Reject(EINVAL),
                r,
            ),
        },
{
}

/// The helpers of [`rust_munlockall_dispatch`].
#[derive(Clone, Copy, PartialEq, Eq, Structural, Debug)]
pub enum MunlockallCall {
    Apply,
}

/// What [`rust_munlockall_dispatch`] does: the flag goes from `before` to `after`, and `r`
/// is next.
pub open spec fn munlockall_runs(
    handled_ptr: u64,
    before: i32,
    after: i32,
    r: Step<MunlockallCall, i32>,
) -> bool {
    if handled_ptr == 0 {
        after == before && r == Step::<MunlockallCall, i32>::Return(EINVAL)
    } else {
        after == 1 && r == Step::<MunlockallCall, i32>::Tail(MunlockallCall::Apply)
    }
}

/// Sequences `munlockall`: there is nothing to decide once it is entered.
pub fn rust_munlockall_dispatch(
    handled_ptr: u64,
    handled: &mut i32,
) -> (r: Step<MunlockallCall, i32>)
    ensures
        munlockall_runs(handled_ptr, *old(handled), *final(handled), r),
{
    if handled_ptr == 0 {
        return Step::Return(EINVAL);
    }
    *handled = 1;
    Step::Tail(MunlockallCall::Apply)
}

/// [`rust_munlockall_dispatch`] fails on a null pointer and on nothing else; else the flag
/// is set and the helper's result is the result.
pub proof fn law_munlockall(
    handled_ptr: u64,
    before: i32,
    after: i32,
    r: Step<MunlockallCall, i32>,
)
    requires
        munlockall_runs(handled_ptr, before, after, r),
    ensures
        r is Return <==> handled_ptr == 0,
        r is Tail <==> handled_ptr != 0,
        r matches Step::Return(result) ==> result == EINVAL && after == before,
        r is Tail ==> after == 1,
{
}

} // verus!
