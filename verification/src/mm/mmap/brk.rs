//! `brk` sequencers (`do_brk_flags`, `brk`, `vm_brk_flags`).

use vstd::prelude::*;
use crate::error::{EINVAL, EINVAL_ADDR, ENOMEM};
use crate::mm::step;
use crate::mm::step::{Event, Step};

verus! {

/// Finished; the helper gave the result.
pub const BRK_DONE: i32 = 0;

/// Limits passed; try to expand.
pub const BRK_CONT: i32 = 1;

/// A new mapping is needed.
pub const BRK_NEW: i32 = 2;

/// Expanded or made; account the mapping.
pub const BRK_ACCT: i32 = 3;

/// The helpers of [`rust_brk_dispatch`].
#[derive(Clone, Copy, PartialEq, Eq, Structural, Debug)]
pub enum BrkCall {
    Prepare,
    Expand,
    New,
    /// Account the mapping at `vma`.
    Account { vma: u64 },
}

/// What happened since the last step of [`rust_brk_dispatch`].
#[derive(Clone, Copy, PartialEq, Eq, Structural, Debug)]
pub enum BrkEvent {
    Enter,
    Prepared { kind: i32, out: i32 },
    Expanded { kind: i32, out: i32 },
    /// Making a mapping gave `vma`.
    Made { kind: i32, vma: u64, out: i32 },
}

/// What follows an event of [`rust_brk_dispatch`] once it is entered with the mapping
/// `vma` to expand.
pub open spec fn brk_next(vma: u64, event: BrkEvent) -> Step<BrkCall, i32> {
    match event {
        BrkEvent::Enter => Step::Call(BrkCall::Prepare),
        BrkEvent::Prepared { kind, out } => if kind == BRK_DONE {
            Step::Return(out)
        } else if kind == BRK_CONT {
            Step::Call(BrkCall::Expand)
        } else {
            Step::Reject(ENOMEM)
        },
        BrkEvent::Expanded { kind, out } => if kind == BRK_DONE {
            Step::Return(out)
        } else if kind == BRK_ACCT {
            Step::Finish(BrkCall::Account { vma }, 0)
        } else if kind == BRK_NEW {
            Step::Call(BrkCall::New)
        } else {
            Step::Reject(ENOMEM)
        },
        BrkEvent::Made { kind, vma: made, out } => if kind == BRK_DONE {
            Step::Return(out)
        } else if kind == BRK_ACCT {
            Step::Finish(BrkCall::Account { vma: made }, 0)
        } else {
            Step::Reject(ENOMEM)
        },
    }
}

/// What [`rust_brk_dispatch`] does at an event: the flag goes from `before` to
/// `after`, and `r` is next.
pub open spec fn brk_runs(
    vmi: u64,
    vma: u64,
    vma_flags: u64,
    handled_ptr: u64,
    before: i32,
    after: i32,
    event: BrkEvent,
    r: Step<BrkCall, i32>,
) -> bool {
    match event {
        BrkEvent::Enter => step::begun(
            vmi != 0 && vma_flags != 0 && handled_ptr != 0,
            BrkCall::Prepare,
            ENOMEM,
            before,
            after,
            r,
        ),
        BrkEvent::Prepared { .. } => after == 1 && r == brk_next(vma, event),
        _ => after == before && r == brk_next(vma, event),
    }
}

/// Sequences `do_brk_flags`: check limits, expand the mapping below or make a new
/// one, then account the one that was expanded or made. `vma` is the mapping below, or
/// 0.
pub fn rust_brk_dispatch(
    vmi: u64,
    vma: u64,
    vma_flags: u64,
    handled_ptr: u64,
    handled: &mut i32,
    event: BrkEvent,
) -> (r: Step<BrkCall, i32>)
    ensures
        brk_runs(vmi, vma, vma_flags, handled_ptr, *old(handled), *final(handled), event, r),
{
    match event {
        BrkEvent::Enter => {
            if vmi == 0 || vma_flags == 0 || handled_ptr == 0 {
                return Step::Return(ENOMEM);
            }
            *handled = 0;
            Step::Call(BrkCall::Prepare)
        },
        BrkEvent::Prepared { kind, out } => {
            *handled = 1;
            if kind == BRK_DONE {
                return Step::Return(out);
            }
            if kind != BRK_CONT {
                return Step::Reject(ENOMEM);
            }
            Step::Call(BrkCall::Expand)
        },
        BrkEvent::Expanded { kind, out } => {
            if kind == BRK_DONE {
                Step::Return(out)
            } else if kind == BRK_ACCT {
                Step::Finish(BrkCall::Account { vma }, 0)
            } else if kind == BRK_NEW {
                Step::Call(BrkCall::New)
            } else {
                Step::Reject(ENOMEM)
            }
        },
        BrkEvent::Made { kind, vma: made, out } => {
            if kind == BRK_DONE {
                return Step::Return(out);
            }
            if kind != BRK_ACCT {
                return Step::Reject(ENOMEM);
            }
            Step::Finish(BrkCall::Account { vma: made }, 0)
        },
    }
}

/// [`rust_brk_dispatch`] fails at once on a null pointer and on nothing else. Every
/// answer that is finished is handed back as it came. Expanding comes after the limits,
/// a new mapping only where expanding asks for one, and accounting last, of the mapping
/// that was made or else of the one below.
pub proof fn law_brk(
    vmi: u64,
    vma: u64,
    vma_flags: u64,
    handled_ptr: u64,
    before: i32,
    after: i32,
    event: BrkEvent,
    r: Step<BrkCall, i32>,
)
    requires
        brk_runs(vmi, vma, vma_flags, handled_ptr, before, after, event, r),
    ensures
        match event {
            BrkEvent::Enter => step::enters(
                set![vmi, vma_flags, handled_ptr],
                before,
                after,
                BrkCall::Prepare,
                ENOMEM,
                r,
            ),
            BrkEvent::Prepared { kind, out } => after == 1 && step::sorted(
                kind,
                map![
                    BRK_DONE => Step::Return(out),
                    BRK_CONT => Step::Call(BrkCall::Expand),
                ],
                Step::Reject(ENOMEM),
                r,
            ),
            BrkEvent::Expanded { kind, out } => after == before && step::sorted(
                kind,
                map![
                    BRK_DONE => Step::Return(out),
                    BRK_NEW => Step::Call(BrkCall::New),
                    BRK_ACCT => Step::Finish(BrkCall::Account { vma }, 0),
                ],
                Step::Reject(ENOMEM),
                r,
            ),
            BrkEvent::Made { kind, vma: made, out } => after == before && step::sorted(
                kind,
                map![
                    BRK_DONE => Step::Return(out),
                    BRK_ACCT => Step::Finish(BrkCall::Account { vma: made }, 0),
                ],
                Step::Reject(ENOMEM),
                r,
            ),
        },
{
}

/// A mapping is accounted exactly when expanding or making one succeeded, and then the
/// result is 0. It is the mapping that was made if one was, else the one that was
/// expanded.
pub proof fn law_brk_accounts(vma: u64, event: BrkEvent)
    ensures
        match brk_next(vma, event) {
            Step::Finish(call, r) => r == 0 && match event {
                BrkEvent::Expanded { kind, .. } => kind == BRK_ACCT && call == (
                BrkCall::Account { vma }),
                BrkEvent::Made { kind, vma: made, .. } => kind == BRK_ACCT && call == (
                BrkCall::Account { vma: made }),
                _ => false,
            },
            Step::Call(call) => !(call is Account) && match event {
                BrkEvent::Expanded { kind, .. } => kind != BRK_ACCT,
                BrkEvent::Made { .. } => false,
                _ => true,
            },
            Step::Return(_) | Step::Reject(_) => match event {
                BrkEvent::Expanded { kind, .. } => kind != BRK_ACCT,
                BrkEvent::Made { kind, .. } => kind != BRK_ACCT,
                _ => true,
            },
            _ => false,
        },
{
}

/// Finished; the helper gave the result.
pub const SYSBRK_DONE: i32 = 0;

/// Break moved; unlock if needed, then notify and populate.
pub const SYSBRK_EXIT: i32 = 1;

/// The helpers of [`rust_sysbrk_dispatch`].
#[derive(Clone, Copy, PartialEq, Eq, Structural, Debug)]
pub enum SysbrkCall {
    Classify,
    Exit,
    Abort,
}

/// What [`rust_sysbrk_dispatch`] does at an event: the flag goes from `before` to
/// `after`, and `r` is next.
pub open spec fn sysbrk_runs(
    s: u64,
    handled_ptr: u64,
    before: i32,
    after: i32,
    event: Event<u64>,
    r: Step<SysbrkCall, u64>,
) -> bool {
    match event {
        Event::Enter => step::begun(
            s != 0 && handled_ptr != 0,
            SysbrkCall::Classify,
            EINVAL_ADDR,
            before,
            after,
            r,
        ),
        Event::Classified { kind, out } => after == 1 && r == if kind == SYSBRK_DONE {
            Step::Return(out)
        } else if kind == SYSBRK_EXIT {
            Step::Tail(SysbrkCall::Exit)
        } else {
            Step::Abort(SysbrkCall::Abort, EINVAL_ADDR)
        },
    }
}

/// Sequences `brk`: shrink or expand under the lock, then exit. An unknown kind
/// restores the break and unlocks.
pub fn rust_sysbrk_dispatch(
    s: u64,
    handled_ptr: u64,
    handled: &mut i32,
    event: Event<u64>,
) -> (r: Step<SysbrkCall, u64>)
    ensures
        sysbrk_runs(s, handled_ptr, *old(handled), *final(handled), event, r),
{
    match event {
        Event::Enter => {
            if s == 0 || handled_ptr == 0 {
                return Step::Return(EINVAL_ADDR);
            }
            *handled = 0;
            Step::Call(SysbrkCall::Classify)
        },
        Event::Classified { kind, out } => {
            *handled = 1;
            if kind == SYSBRK_DONE {
                Step::Return(out)
            } else if kind == SYSBRK_EXIT {
                Step::Tail(SysbrkCall::Exit)
            } else {
                Step::Abort(SysbrkCall::Abort, EINVAL_ADDR)
            }
        },
    }
}

/// [`rust_sysbrk_dispatch`] fails at once on a null pointer and on nothing else. Once
/// `Classify` has answered it goes by the kind: `SYSBRK_DONE` hands back what the
/// helper gave, `SYSBRK_EXIT` runs `Exit`, and any other is refused and cleaned up by
/// `Abort`.
pub proof fn law_sysbrk(
    s: u64,
    handled_ptr: u64,
    before: i32,
    after: i32,
    event: Event<u64>,
    r: Step<SysbrkCall, u64>,
)
    requires
        sysbrk_runs(s, handled_ptr, before, after, event, r),
    ensures
        match event {
            Event::Enter => step::enters(
                set![s, handled_ptr],
                before,
                after,
                SysbrkCall::Classify,
                EINVAL_ADDR,
                r,
            ),
            Event::Classified { kind, out } => after == 1 && step::sorted(
                kind,
                map![
                    SYSBRK_DONE => Step::Return(out),
                    SYSBRK_EXIT => Step::Tail(SysbrkCall::Exit),
                ],
                Step::Abort(SysbrkCall::Abort, EINVAL_ADDR),
                r,
            ),
        },
{
}

/// Finished; the helper gave the result.
pub const VMBRK_DONE: i32 = 0;

/// Unlocked; notify and populate.
pub const VMBRK_EXIT: i32 = 1;

/// The helpers of [`rust_vmbrk_dispatch`].
#[derive(Clone, Copy, PartialEq, Eq, Structural, Debug)]
pub enum VmbrkCall {
    Classify,
    Exit,
    Abort,
}

/// What [`rust_vmbrk_dispatch`] does at an event: the flag goes from `before` to
/// `after`, and `r` is next.
pub open spec fn vmbrk_runs(
    s: u64,
    handled_ptr: u64,
    before: i32,
    after: i32,
    event: Event<i32>,
    r: Step<VmbrkCall, i32>,
) -> bool {
    match event {
        Event::Enter => step::begun(
            s != 0 && handled_ptr != 0,
            VmbrkCall::Classify,
            EINVAL,
            before,
            after,
            r,
        ),
        Event::Classified { kind, out } => after == 1 && r == if kind == VMBRK_DONE {
            Step::Return(out)
        } else if kind == VMBRK_EXIT {
            Step::Tail(VmbrkCall::Exit)
        } else {
            Step::Abort(VmbrkCall::Abort, EINVAL)
        },
    }
}

/// Sequences `vm_brk_flags`: map under the lock, then exit. An unknown kind drops a
/// leftover lock.
pub fn rust_vmbrk_dispatch(
    s: u64,
    handled_ptr: u64,
    handled: &mut i32,
    event: Event<i32>,
) -> (r: Step<VmbrkCall, i32>)
    ensures
        vmbrk_runs(s, handled_ptr, *old(handled), *final(handled), event, r),
{
    match event {
        Event::Enter => {
            if s == 0 || handled_ptr == 0 {
                return Step::Return(EINVAL);
            }
            *handled = 0;
            Step::Call(VmbrkCall::Classify)
        },
        Event::Classified { kind, out } => {
            *handled = 1;
            if kind == VMBRK_DONE {
                Step::Return(out)
            } else if kind == VMBRK_EXIT {
                Step::Tail(VmbrkCall::Exit)
            } else {
                Step::Abort(VmbrkCall::Abort, EINVAL)
            }
        },
    }
}

/// [`rust_vmbrk_dispatch`] fails at once on a null pointer and on nothing else. Once
/// `Classify` has answered it goes by the kind: `VMBRK_DONE` hands back what the helper
/// gave, `VMBRK_EXIT` runs `Exit`, and any other is refused and cleaned up by `Abort`.
pub proof fn law_vmbrk(
    s: u64,
    handled_ptr: u64,
    before: i32,
    after: i32,
    event: Event<i32>,
    r: Step<VmbrkCall, i32>,
)
    requires
        vmbrk_runs(s, handled_ptr, before, after, event, r),
    ensures
        match event {
            Event::Enter => step::enters(
                set![s, handled_ptr],
                before,
                after,
                VmbrkCall::Classify,
                EINVAL,
                r,
            ),
            Event::Classified { kind, out } => after == 1 && step::sorted(
                kind,
                map![
                    VMBRK_DONE => Step::Return(out),
                    VMBRK_EXIT => Step::Tail(VmbrkCall::Exit),
                ],
                Step::Abort(VmbrkCall::Abort, EINVAL),
                r,
            ),
        },
{
}

} // verus!
