//! `msync` and `mincore` sequencers.
//!
//! The walks over mappings and residency are helpers.

use vstd::prelude::*;
use crate::error::{EINVAL, EINVAL_LONG};
use crate::mm::step;
use crate::mm::step::{Event, Step};

verus! {

/// Finished; the helper gave the result.
pub const MSYNC_DONE: i32 = 0;

/// Flags and range are valid; lock and walk.
pub const MSYNC_APPLY: i32 = 1;

/// The helpers of [`rust_msync_dispatch`].
#[derive(Clone, Copy, PartialEq, Eq, Structural, Debug)]
pub enum MsyncCall {
    Validate,
    Apply,
}

/// What [`rust_msync_dispatch`] does at an event: the flag goes from `before` to
/// `after`, and `r` is next.
pub open spec fn msync_runs(
    req: u64,
    handled_ptr: u64,
    before: i32,
    after: i32,
    event: Event<i32>,
    r: Step<MsyncCall, i32>,
) -> bool {
    match event {
        Event::Enter => step::begun(
            req != 0 && handled_ptr != 0,
            MsyncCall::Validate,
            EINVAL,
            before,
            after,
            r,
        ),
        Event::Classified { kind, out } => after == 1 && r == if kind == MSYNC_DONE {
            Step::Return(out)
        } else if kind == MSYNC_APPLY {
            Step::Tail(MsyncCall::Apply)
        } else {
            Step::Reject(EINVAL)
        },
    }
}

/// Sequences `msync`: validate flags and alignment, then apply.
pub fn rust_msync_dispatch(
    req: u64,
    handled_ptr: u64,
    handled: &mut i32,
    event: Event<i32>,
) -> (r: Step<MsyncCall, i32>)
    ensures
        msync_runs(req, handled_ptr, *old(handled), *final(handled), event, r),
{
    match event {
        Event::Enter => {
            if req == 0 || handled_ptr == 0 {
                return Step::Return(EINVAL);
            }
            *handled = 0;
            Step::Call(MsyncCall::Validate)
        },
        Event::Classified { kind, out } => {
            *handled = 1;
            if kind == MSYNC_DONE {
                Step::Return(out)
            } else if kind == MSYNC_APPLY {
                Step::Tail(MsyncCall::Apply)
            } else {
                Step::Reject(EINVAL)
            }
        },
    }
}

/// [`rust_msync_dispatch`] fails at once on a null pointer and on nothing else. Once
/// `Validate` has answered it goes by the kind: `MSYNC_DONE` hands back what the helper
/// gave, `MSYNC_APPLY` runs `Apply`, and any other is refused.
pub proof fn law_msync(
    req: u64,
    handled_ptr: u64,
    before: i32,
    after: i32,
    event: Event<i32>,
    r: Step<MsyncCall, i32>,
)
    requires
        msync_runs(req, handled_ptr, before, after, event, r),
    ensures
        match event {
            Event::Enter => step::enters(
                set![req, handled_ptr],
                before,
                after,
                MsyncCall::Validate,
                EINVAL,
                r,
            ),
            Event::Classified { kind, out } => after == 1 && step::sorted(
                kind,
                map![
                    MSYNC_DONE => Step::Return(out),
                    MSYNC_APPLY => Step::Tail(MsyncCall::Apply),
                ],
                Step::Reject(EINVAL),
                r,
            ),
        },
{
}

/// Finished; the helper gave the result.
pub const MINCORE_DONE: i32 = 0;

/// Range is valid; walk residency into the user vector.
pub const MINCORE_APPLY: i32 = 1;

/// The helpers of [`rust_mincore_dispatch`].
#[derive(Clone, Copy, PartialEq, Eq, Structural, Debug)]
pub enum MincoreCall {
    Validate,
    Apply,
}

/// What [`rust_mincore_dispatch`] does at an event: the flag goes from `before` to
/// `after`, and `r` is next.
pub open spec fn mincore_runs(
    req: u64,
    handled_ptr: u64,
    before: i32,
    after: i32,
    event: Event<i32>,
    r: Step<MincoreCall, i64>,
) -> bool {
    match event {
        Event::Enter => step::begun(
            req != 0 && handled_ptr != 0,
            MincoreCall::Validate,
            EINVAL_LONG,
            before,
            after,
            r,
        ),
        Event::Classified { kind, out } => after == 1 && r == if kind == MINCORE_DONE {
            Step::Return(out as i64)
        } else if kind == MINCORE_APPLY {
            Step::Tail(MincoreCall::Apply)
        } else {
            Step::Reject(EINVAL_LONG)
        },
    }
}

/// Sequences `mincore`: validate alignment and access, then apply.
pub fn rust_mincore_dispatch(
    req: u64,
    handled_ptr: u64,
    handled: &mut i32,
    event: Event<i32>,
) -> (r: Step<MincoreCall, i64>)
    ensures
        mincore_runs(req, handled_ptr, *old(handled), *final(handled), event, r),
{
    match event {
        Event::Enter => {
            if req == 0 || handled_ptr == 0 {
                return Step::Return(EINVAL_LONG);
            }
            *handled = 0;
            Step::Call(MincoreCall::Validate)
        },
        Event::Classified { kind, out } => {
            *handled = 1;
            if kind == MINCORE_DONE {
                Step::Return(out as i64)
            } else if kind == MINCORE_APPLY {
                Step::Tail(MincoreCall::Apply)
            } else {
                Step::Reject(EINVAL_LONG)
            }
        },
    }
}

/// [`rust_mincore_dispatch`] fails at once on a null pointer and on nothing else. Once
/// `Validate` has answered it goes by the kind: `MINCORE_DONE` hands back what the
/// helper gave, `MINCORE_APPLY` runs `Apply`, and any other is refused.
pub proof fn law_mincore(
    req: u64,
    handled_ptr: u64,
    before: i32,
    after: i32,
    event: Event<i32>,
    r: Step<MincoreCall, i64>,
)
    requires
        mincore_runs(req, handled_ptr, before, after, event, r),
    ensures
        match event {
            Event::Enter => step::enters(
                set![req, handled_ptr],
                before,
                after,
                MincoreCall::Validate,
                EINVAL_LONG,
                r,
            ),
            Event::Classified { kind, out } => after == 1 && step::sorted(
                kind,
                map![
                    MINCORE_DONE => Step::Return(out as i64),
                    MINCORE_APPLY => Step::Tail(MincoreCall::Apply),
                ],
                Step::Reject(EINVAL_LONG),
                r,
            ),
        },
{
}

} // verus!
