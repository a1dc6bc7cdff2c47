//! `mremap` sequencer (`do_mremap`).
//!
//! Moves in the range tree are helpers.

use vstd::prelude::*;
use crate::error::EINVAL_ADDR;
use crate::mm::step;
use crate::mm::step::Step;

verus! {

/// Finished; the helper gave the result.
pub const MREMAP_DONE: i32 = 0;

/// Parameters accepted, or write lock taken.
pub const MREMAP_CONT: i32 = 1;

/// Move several mappings of equal length.
pub const MREMAP_MOVE: i32 = 2;

/// Move or grow to a new address.
pub const MREMAP_TO: i32 = 3;

/// Shrink or expand in place.
pub const MREMAP_AT: i32 = 4;

/// The helpers of [`rust_mremap_dispatch`].
#[derive(Clone, Copy, PartialEq, Eq, Structural, Debug)]
pub enum MremapCall {
    Prepare,
    Lock,
    Classify,
    Move,
    To,
    At,
    /// Unlock, populate and notify; `res` is the result so far.
    Exit { res: u64 },
}

/// What happened since the last step of [`rust_mremap_dispatch`].
#[derive(Clone, Copy, PartialEq, Eq, Structural, Debug)]
pub enum MremapEvent {
    Enter,
    Prepared { kind: i32, out: u64 },
    Locked { kind: i32, out: u64 },
    Classified { kind: i32, out: u64 },
    /// Moving, growing or shrinking gave this.
    Moved { res: u64 },
}

/// What follows an event of [`rust_mremap_dispatch`] once it is entered.
pub open spec fn mremap_next(event: MremapEvent) -> Step<MremapCall, u64> {
    match event {
        MremapEvent::Enter => Step::Call(MremapCall::Prepare),
        MremapEvent::Prepared { kind, out } => if kind == MREMAP_DONE {
            Step::Return(out)
        } else if kind == MREMAP_CONT {
            Step::Call(MremapCall::Lock)
        } else {
            Step::Reject(EINVAL_ADDR)
        },
        MremapEvent::Locked { kind, out } => if kind == MREMAP_DONE {
            Step::Return(out)
        } else if kind == MREMAP_CONT {
            Step::Call(MremapCall::Classify)
        } else {
            Step::Reject(EINVAL_ADDR)
        },
        MremapEvent::Classified { kind, out } => if kind == MREMAP_DONE {
            Step::Tail(MremapCall::Exit { res: out })
        } else if kind == MREMAP_MOVE {
            Step::Call(MremapCall::Move)
        } else if kind == MREMAP_TO {
            Step::Call(MremapCall::To)
        } else if kind == MREMAP_AT {
            Step::Call(MremapCall::At)
        } else {
            Step::RejectTail(MremapCall::Exit { res: EINVAL_ADDR })
        },
        MremapEvent::Moved { res } => Step::Tail(MremapCall::Exit { res }),
    }
}

/// What [`rust_mremap_dispatch`] does at an event: the flag goes from `before` to
/// `after`, and `r` is next.
pub open spec fn mremap_runs(
    vrm: u64,
    handled_ptr: u64,
    before: i32,
    after: i32,
    event: MremapEvent,
    r: Step<MremapCall, u64>,
) -> bool {
    match event {
        MremapEvent::Enter => step::begun(
            vrm != 0 && handled_ptr != 0,
            MremapCall::Prepare,
            EINVAL_ADDR,
            before,
            after,
            r,
        ),
        MremapEvent::Prepared { .. } => after == 1 && r == mremap_next(event),
        _ => after == before && r == mremap_next(event),
    }
}

/// Sequences `do_mremap`: check parameters, take the lock, move or resize, then
/// unlock, populate and notify. A lock that fails returns without notifying.
pub fn rust_mremap_dispatch(
    vrm: u64,
    handled_ptr: u64,
    handled: &mut i32,
    event: MremapEvent,
) -> (r: Step<MremapCall, u64>)
    ensures
        mremap_runs(vrm, handled_ptr, *old(handled), *final(handled), event, r),
{
    match event {
        MremapEvent::Enter => {
            if vrm == 0 || handled_ptr == 0 {
                return Step::Return(EINVAL_ADDR);
            }
            *handled = 0;
            Step::Call(MremapCall::Prepare)
        },
        MremapEvent::Prepared { kind, out } => {
            *handled = 1;
            if kind == MREMAP_DONE {
                return Step::Return(out);
            }
            if kind != MREMAP_CONT {
                return Step::Reject(EINVAL_ADDR);
            }
            Step::Call(MremapCall::Lock)
        },
        MremapEvent::Locked { kind, out } => {
            if kind == MREMAP_DONE {
                return Step::Return(out);
            }
            if kind != MREMAP_CONT {
                return Step::Reject(EINVAL_ADDR);
            }
            Step::Call(MremapCall::Classify)
        },
        MremapEvent::Classified { kind, out } => {
            if kind == MREMAP_DONE {
                Step::Tail(MremapCall::Exit { res: out })
            } else if kind == MREMAP_MOVE {
                Step::Call(MremapCall::Move)
            } else if kind == MREMAP_TO {
                Step::Call(MremapCall::To)
            } else if kind == MREMAP_AT {
                Step::Call(MremapCall::At)
            } else {
                Step::RejectTail(MremapCall::Exit { res: EINVAL_ADDR })
            }
        },
        MremapEvent::Moved { res } => Step::Tail(MremapCall::Exit { res }),
    }
}

/// [`rust_mremap_dispatch`] fails at once on a null pointer and on nothing else.
/// Parameters come before the lock and the lock before any move. Before the lock a
/// finished answer is handed back as it came; after it the exit gets it.
pub proof fn law_mremap(
    vrm: u64,
    handled_ptr: u64,
    before: i32,
    after: i32,
    event: MremapEvent,
    r: Step<MremapCall, u64>,
)
    requires
        mremap_runs(vrm, handled_ptr, before, after, event, r),
    ensures
        match event {
            MremapEvent::Enter => step::enters(
                set![vrm, handled_ptr],
                before,
                after,
                MremapCall::Prepare,
                EINVAL_ADDR,
                r,
            ),
            MremapEvent::Prepared { kind, out } => after == 1 && step::sorted(
                kind,
                map![
                    MREMAP_DONE => Step::Return(out),
                    MREMAP_CONT => Step::Call(MremapCall::Lock),
                ],
                Step::Reject(EINVAL_ADDR),
                r,
            ),
            MremapEvent::Locked { kind, out } => after == before && step::sorted(
                kind,
                map![
                    MREMAP_DONE => Step::Return(out),
                    MREMAP_CONT => Step::Call(MremapCall::Classify),
                ],
                Step::Reject(EINVAL_ADDR),
                r,
            ),
            MremapEvent::Classified { kind, out } => after == before && step::sorted(
                kind,
                map![
                    MREMAP_DONE => Step::Tail(MremapCall::Exit { res: out }),
                    MREMAP_MOVE => Step::Call(MremapCall::Move),
                    MREMAP_TO => Step::Call(MremapCall::To),
                    MREMAP_AT => Step::Call(MremapCall::At),
                ],
                Step::RejectTail(MremapCall::Exit { res: EINVAL_ADDR }),
                r,
            ),
            MremapEvent::Moved { res } => {
                &&& after == before
                &&& r matches Step::Tail(call) && call == (MremapCall::Exit { res })
            },
        },
{
}

/// Once the lock is held, every sequence ends through the exit helper; before that
/// none does.
pub proof fn law_mremap_exits(event: MremapEvent)
    ensures
        match event {
            MremapEvent::Classified { .. } | MremapEvent::Moved { .. } => match mremap_next(event) {
                Step::Tail(call) | Step::RejectTail(call) => call is Exit,
                Step::Call(call) => call is Move || call is To || call is At,
                _ => false,
            },
            _ => match mremap_next(event) {
                Step::Call(call) => !(call is Exit),
                Step::Return(_) | Step::Reject(_) => true,
                _ => false,
            },
        },
{
}

} // verus!
