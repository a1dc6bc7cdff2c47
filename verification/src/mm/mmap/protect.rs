//! Protection sequencers (`mprotect`, `mseal`, `change_protection`).
//!
//! Page-table walks and huge pages are helpers.

use vstd::prelude::*;
use crate::error::{EINVAL, EINVAL_LONG};
use crate::mm::step;
use crate::mm::step::{Event, Step};

verus! {

/// Finished; the helper gave the result.
pub const MPROTECT_DONE: i32 = 0;

/// Range is valid; lock and walk.
pub const MPROTECT_APPLY: i32 = 1;

/// The helpers of [`rust_mprotect_dispatch`].
#[derive(Clone, Copy, PartialEq, Eq, Structural, Debug)]
pub enum MprotectCall {
    Validate,
    Apply,
}

/// What [`rust_mprotect_dispatch`] does at an event: the flag goes from `before` to
/// `after`, and `r` is next.
pub open spec fn mprotect_runs(
    req: u64,
    handled_ptr: u64,
    before: i32,
    after: i32,
    event: Event<i32>,
    r: Step<MprotectCall, i32>,
) -> bool {
    match event {
        Event::Enter => step::begun(
            req != 0 && handled_ptr != 0,
            MprotectCall::Validate,
            EINVAL,
            before,
            after,
            r,
        ),
        Event::Classified { kind, out } => after == 1 && r == if kind == MPROTECT_DONE {
            Step::Return(out)
        } else if kind == MPROTECT_APPLY {
            Step::Tail(MprotectCall::Apply)
        } else {
            Step::Reject(EINVAL)
        },
    }
}

/// Sequences `do_mprotect_pkey`: validate the range, then apply.
pub fn rust_mprotect_dispatch(
    req: u64,
    handled_ptr: u64,
    handled: &mut i32,
    event: Event<i32>,
) -> (r: Step<MprotectCall, i32>)
    ensures
        mprotect_runs(req, handled_ptr, *old(handled), *final(handled), event, r),
{
    match event {
        Event::Enter => {
            if req == 0 || handled_ptr == 0 {
                return Step::Return(EINVAL);
            }
            *handled = 0;
            Step::Call(MprotectCall::Validate)
        },
        Event::Classified { kind, out } => {
            *handled = 1;
            if kind == MPROTECT_DONE {
                Step::Return(out)
            } else if kind == MPROTECT_APPLY {
                Step::Tail(MprotectCall::Apply)
            } else {
                Step::Reject(EINVAL)
            }
        },
    }
}

/// [`rust_mprotect_dispatch`] fails at once on a null pointer and on nothing else. Once
/// `Validate` has answered it goes by the kind: `MPROTECT_DONE` hands back what the
/// helper gave, `MPROTECT_APPLY` runs `Apply`, and any other is refused.
pub proof fn law_mprotect(
    req: u64,
    handled_ptr: u64,
    before: i32,
    after: i32,
    event: Event<i32>,
    r: Step<MprotectCall, i32>,
)
    requires
        mprotect_runs(req, handled_ptr, before, after, event, r),
    ensures
        match event {
            Event::Enter => step::enters(
                set![req, handled_ptr],
                before,
                after,
                MprotectCall::Validate,
                EINVAL,
                r,
            ),
            Event::Classified { kind, out } => after == 1 && step::sorted(
                kind,
                map![
                    MPROTECT_DONE => Step::Return(out),
                    MPROTECT_APPLY => Step::Tail(MprotectCall::Apply),
                ],
                Step::Reject(EINVAL),
                r,
            ),
        },
{
}

/// Finished; the helper gave the result.
pub const MPFIX_DONE: i32 = 0;

/// Checks passed; split or merge.
pub const MPFIX_MODIFY: i32 = 1;

/// Mapping updated; apply protection and accounting.
pub const MPFIX_APPLY: i32 = 2;

/// The helpers of [`rust_mpfix_dispatch`].
#[derive(Clone, Copy, PartialEq, Eq, Structural, Debug)]
pub enum MpfixCall {
    Prepare,
    Modify,
    Apply,
}

/// What happened since the last step of [`rust_mpfix_dispatch`].
#[derive(Clone, Copy, PartialEq, Eq, Structural, Debug)]
pub enum MpfixEvent {
    Enter,
    Prepared { kind: i32, out: i32 },
    Modified { kind: i32, out: i32 },
}

/// What [`rust_mpfix_dispatch`] does at an event: the flag goes from `before` to
/// `after`, and `r` is next.
pub open spec fn mpfix_runs(
    s: u64,
    handled_ptr: u64,
    before: i32,
    after: i32,
    event: MpfixEvent,
    r: Step<MpfixCall, i32>,
) -> bool {
    match event {
        MpfixEvent::Enter => step::begun(
            s != 0 && handled_ptr != 0,
            MpfixCall::Prepare,
            EINVAL,
            before,
            after,
            r,
        ),
        MpfixEvent::Prepared { kind, out } => after == 1 && r == if kind == MPFIX_DONE {
            Step::Return(out)
        } else if kind == MPFIX_MODIFY {
            Step::Call(MpfixCall::Modify)
        } else {
            Step::Reject(EINVAL)
        },
        MpfixEvent::Modified { kind, out } => after == before && r == if kind
            == MPFIX_DONE {
            Step::Return(out)
        } else if kind == MPFIX_APPLY {
            Step::Tail(MpfixCall::Apply)
        } else {
            Step::Reject(EINVAL)
        },
    }
}

/// Sequences `mprotect_fixup`: check seal, flags and charge, split or merge, then
/// apply.
pub fn rust_mpfix_dispatch(
    s: u64,
    handled_ptr: u64,
    handled: &mut i32,
    event: MpfixEvent,
) -> (r: Step<MpfixCall, i32>)
    ensures
        mpfix_runs(s, handled_ptr, *old(handled), *final(handled), event, r),
{
    match event {
        MpfixEvent::Enter => {
            if s == 0 || handled_ptr == 0 {
                return Step::Return(EINVAL);
            }
            *handled = 0;
            Step::Call(MpfixCall::Prepare)
        },
        MpfixEvent::Prepared { kind, out } => {
            *handled = 1;
            if kind == MPFIX_DONE {
                Step::Return(out)
            } else if kind == MPFIX_MODIFY {
                Step::Call(MpfixCall::Modify)
            } else {
                Step::Reject(EINVAL)
            }
        },
        MpfixEvent::Modified { kind, out } => {
            if kind == MPFIX_DONE {
                Step::Return(out)
            } else if kind == MPFIX_APPLY {
                Step::Tail(MpfixCall::Apply)
            } else {
                Step::Reject(EINVAL)
            }
        },
    }
}

/// [`rust_mpfix_dispatch`] fails at once on a null pointer and on nothing else. Every
/// answer that is finished is handed back as it came; a mapping is modified only once
/// it passed the checks, and protection is applied only once it is modified.
pub proof fn law_mpfix(
    s: u64,
    handled_ptr: u64,
    before: i32,
    after: i32,
    event: MpfixEvent,
    r: Step<MpfixCall, i32>,
)
    requires
        mpfix_runs(s, handled_ptr, before, after, event, r),
    ensures
        match event {
            MpfixEvent::Enter => step::enters(
                set![s, handled_ptr],
                before,
                after,
                MpfixCall::Prepare,
                EINVAL,
                r,
            ),
            MpfixEvent::Prepared { kind, out } => after == 1 && step::sorted(
                kind,
                map![
                    MPFIX_DONE => Step::Return(out),
                    MPFIX_MODIFY => Step::Call(MpfixCall::Modify),
                ],
                Step::Reject(EINVAL),
                r,
            ),
            MpfixEvent::Modified { kind, out } => after == before && step::sorted(
                kind,
                map![
                    MPFIX_DONE => Step::Return(out),
                    MPFIX_APPLY => Step::Tail(MpfixCall::Apply),
                ],
                Step::Reject(EINVAL),
                r,
            ),
        },
{
}

/// Finished; the helper gave the result.
pub const MSEAL_DONE: i32 = 0;

/// Range is valid; lock and seal.
pub const MSEAL_APPLY: i32 = 1;

/// The helpers of [`rust_mseal_dispatch`].
#[derive(Clone, Copy, PartialEq, Eq, Structural, Debug)]
pub enum MsealCall {
    Validate,
    Apply,
}

/// What [`rust_mseal_dispatch`] does at an event: the flag goes from `before` to
/// `after`, and `r` is next.
pub open spec fn mseal_runs(
    req: u64,
    handled_ptr: u64,
    before: i32,
    after: i32,
    event: Event<i32>,
    r: Step<MsealCall, i32>,
) -> bool {
    match event {
        Event::Enter => step::begun(
            req != 0 && handled_ptr != 0,
            MsealCall::Validate,
            EINVAL,
            before,
            after,
            r,
        ),
        Event::Classified { kind, out } => after == 1 && r == if kind == MSEAL_DONE {
            Step::Return(out)
        } else if kind == MSEAL_APPLY {
            Step::Tail(MsealCall::Apply)
        } else {
            Step::Reject(EINVAL)
        },
    }
}

/// Sequences `mseal`: validate flags and alignment, then apply.
pub fn rust_mseal_dispatch(
    req: u64,
    handled_ptr: u64,
    handled: &mut i32,
    event: Event<i32>,
) -> (r: Step<MsealCall, i32>)
    ensures
        mseal_runs(req, handled_ptr, *old(handled), *final(handled), event, r),
{
    match event {
        Event::Enter => {
            if req == 0 || handled_ptr == 0 {
                return Step::Return(EINVAL);
            }
            *handled = 0;
            Step::Call(MsealCall::Validate)
        },
        Event::Classified { kind, out } => {
            *handled = 1;
            if kind == MSEAL_DONE {
                Step::Return(out)
            } else if kind == MSEAL_APPLY {
                Step::Tail(MsealCall::Apply)
            } else {
                Step::Reject(EINVAL)
            }
        },
    }
}

/// [`rust_mseal_dispatch`] fails at once on a null pointer and on nothing else. Once
/// `Validate` has answered it goes by the kind: `MSEAL_DONE` hands back what the helper
/// gave, `MSEAL_APPLY` runs `Apply`, and any other is refused.
pub proof fn law_mseal(
    req: u64,
    handled_ptr: u64,
    before: i32,
    after: i32,
    event: Event<i32>,
    r: Step<MsealCall, i32>,
)
    requires
        mseal_runs(req, handled_ptr, before, after, event, r),
    ensures
        match event {
            Event::Enter => step::enters(
                set![req, handled_ptr],
                before,
                after,
                MsealCall::Validate,
                EINVAL,
                r,
            ),
            Event::Classified { kind, out } => after == 1 && step::sorted(
                kind,
                map![
                    MSEAL_DONE => Step::Return(out),
                    MSEAL_APPLY => Step::Tail(MsealCall::Apply),
                ],
                Step::Reject(EINVAL),
                r,
            ),
        },
{
}

/// Finished; the helper gave the result.
pub const MPWALK_DONE: i32 = 0;

/// Write lock held; walk then unlock.
pub const MPWALK_WALK: i32 = 1;

/// The helpers of [`rust_mprot_dispatch`].
#[derive(Clone, Copy, PartialEq, Eq, Structural, Debug)]
pub enum MprotCall {
    Lock,
    Walk,
    Unlock,
}

/// What [`rust_mprot_dispatch`] does at an event: the flag goes from `before` to
/// `after`, and `r` is next.
pub open spec fn mprot_runs(
    s: u64,
    handled_ptr: u64,
    before: i32,
    after: i32,
    event: Event<i32>,
    r: Step<MprotCall, i32>,
) -> bool {
    match event {
        Event::Enter => step::begun(
            s != 0 && handled_ptr != 0,
            MprotCall::Lock,
            EINVAL,
            before,
            after,
            r,
        ),
        Event::Classified { kind, out } => after == 1 && r == if kind == MPWALK_DONE {
            Step::Return(out)
        } else if kind == MPWALK_WALK {
            Step::Tail(MprotCall::Walk)
        } else {
            Step::Abort(MprotCall::Unlock, EINVAL)
        },
    }
}

/// Sequences the walk of `mprotect`: take the lock, then walk. An unknown kind
/// unlocks.
pub fn rust_mprot_dispatch(
    s: u64,
    handled_ptr: u64,
    handled: &mut i32,
    event: Event<i32>,
) -> (r: Step<MprotCall, i32>)
    ensures
        mprot_runs(s, handled_ptr, *old(handled), *final(handled), event, r),
{
    match event {
        Event::Enter => {
            if s == 0 || handled_ptr == 0 {
                return Step::Return(EINVAL);
            }
            *handled = 0;
            Step::Call(MprotCall::Lock)
        },
        Event::Classified { kind, out } => {
            *handled = 1;
            if kind == MPWALK_DONE {
                Step::Return(out)
            } else if kind == MPWALK_WALK {
                Step::Tail(MprotCall::Walk)
            } else {
                Step::Abort(MprotCall::Unlock, EINVAL)
            }
        },
    }
}

/// [`rust_mprot_dispatch`] fails at once on a null pointer and on nothing else. Once
/// `Lock` has answered it goes by the kind: `MPWALK_DONE` hands back what the helper
/// gave, `MPWALK_WALK` runs `Walk`, and any other is refused and cleaned up by
/// `Unlock`.
pub proof fn law_mprot(
    s: u64,
    handled_ptr: u64,
    before: i32,
    after: i32,
    event: Event<i32>,
    r: Step<MprotCall, i32>,
)
    requires
        mprot_runs(s, handled_ptr, before, after, event, r),
    ensures
        match event {
            Event::Enter => step::enters(
                set![s, handled_ptr],
                before,
                after,
                MprotCall::Lock,
                EINVAL,
                r,
            ),
            Event::Classified { kind, out } => after == 1 && step::sorted(
                kind,
                map![
                    MPWALK_DONE => Step::Return(out),
                    MPWALK_WALK => Step::Tail(MprotCall::Walk),
                ],
                Step::Abort(MprotCall::Unlock, EINVAL),
                r,
            ),
        },
{
}

/// Finished; the helper gave the result.
pub const CP_DONE: i32 = 0;

/// Huge pages.
pub const CP_HUGE: i32 = 1;

/// Regular mapping; walk the page tables.
pub const CP_RANGE: i32 = 2;

/// The helpers of [`rust_cp_dispatch`].
#[derive(Clone, Copy, PartialEq, Eq, Structural, Debug)]
pub enum CpCall {
    Classify,
    Huge,
    Range,
}

/// What [`rust_cp_dispatch`] does at an event: the flag goes from `before` to
/// `after`, and `r` is next.
pub open spec fn cp_runs(
    s: u64,
    handled_ptr: u64,
    before: i32,
    after: i32,
    event: Event<i64>,
    r: Step<CpCall, i64>,
) -> bool {
    match event {
        Event::Enter => step::begun(
            s != 0 && handled_ptr != 0,
            CpCall::Classify,
            EINVAL_LONG,
            before,
            after,
            r,
        ),
        Event::Classified { kind, out } => after == 1 && r == if kind == CP_DONE {
            Step::Return(out)
        } else if kind == CP_HUGE {
            Step::Tail(CpCall::Huge)
        } else if kind == CP_RANGE {
            Step::Tail(CpCall::Range)
        } else {
            Step::Reject(EINVAL_LONG)
        },
    }
}

/// Sequences `change_protection`: huge pages, or a walk of the page tables.
pub fn rust_cp_dispatch(
    s: u64,
    handled_ptr: u64,
    handled: &mut i32,
    event: Event<i64>,
) -> (r: Step<CpCall, i64>)
    ensures
        cp_runs(s, handled_ptr, *old(handled), *final(handled), event, r),
{
    match event {
        Event::Enter => {
            if s == 0 || handled_ptr == 0 {
                return Step::Return(EINVAL_LONG);
            }
            *handled = 0;
            Step::Call(CpCall::Classify)
        },
        Event::Classified { kind, out } => {
            *handled = 1;
            if kind == CP_DONE {
                Step::Return(out)
            } else if kind == CP_HUGE {
                Step::Tail(CpCall::Huge)
            } else if kind == CP_RANGE {
                Step::Tail(CpCall::Range)
            } else {
                Step::Reject(EINVAL_LONG)
            }
        },
    }
}

/// [`rust_cp_dispatch`] fails at once on a null pointer and on nothing else. Once
/// `Classify` has answered it goes by the kind: `CP_DONE` hands back what the helper
/// gave, `CP_HUGE` runs `Huge`, `CP_RANGE` runs `Range`, and any other is refused.
pub proof fn law_cp(
    s: u64,
    handled_ptr: u64,
    before: i32,
    after: i32,
    event: Event<i64>,
    r: Step<CpCall, i64>,
)
    requires
        cp_runs(s, handled_ptr, before, after, event, r),
    ensures
        match event {
            Event::Enter => step::enters(
                set![s, handled_ptr],
                before,
                after,
                CpCall::Classify,
                EINVAL_LONG,
                r,
            ),
            Event::Classified { kind, out } => after == 1 && step::sorted(
                kind,
                map![
                    CP_DONE => Step::Return(out),
                    CP_HUGE => Step::Tail(CpCall::Huge),
                    CP_RANGE => Step::Tail(CpCall::Range),
                ],
                Step::Reject(EINVAL_LONG),
                r,
            ),
        },
{
}

} // verus!
